//! Behavior of the chat commands: dispatch, reports, ping and profile.

use t_na::commands::ping::ping;
use t_na::commands::profile::profile;
use t_na::commands::spotify::{get_artists, get_songs, spotify};
use t_na::listens::ListenStore;

#[test]
fn spotify_with_empty_table_reports_header_and_no_entries() {
    let store = ListenStore::new();
    assert_eq!(spotify(&store, "songs"), "Top listened songs:\n");
    assert_eq!(spotify(&store, "artists"), "Top listened artists:\n");
}

#[test]
fn spotify_unrecognized_keyword_is_invalid_and_writes_nothing() {
    let mut store = ListenStore::new();
    store.add_listen("Song A", &vec![String::from("Artist X")]);
    assert_eq!(spotify(&store, "blah"), "Invalid arguments!");
    assert_eq!(store.songs.count("Song A"), 1);
    assert_eq!(store.artists.count("Artist X"), 1);
    assert_eq!(store.songs.len(), 1);
    assert_eq!(store.artists.len(), 1);
}

#[test]
fn spotify_without_argument_is_invalid() {
    let store = ListenStore::new();
    assert_eq!(spotify(&store, ""), "Invalid arguments!");
    assert_eq!(spotify(&store, "   "), "Invalid arguments!");
}

#[test]
fn spotify_keyword_is_case_insensitive_and_takes_first_token() {
    let mut store = ListenStore::new();
    store.add_listen("Song A", &vec![String::from("Artist X")]);
    let expected = "Top listened songs:\n**Song A**: 1\n";
    assert_eq!(spotify(&store, "songs"), expected);
    assert_eq!(spotify(&store, "SONGS"), expected);
    assert_eq!(spotify(&store, "Song extra words"), expected);
    assert_eq!(spotify(&store, "  songs"), expected);
}

#[test]
fn reports_list_entries_in_descending_count_order() {
    let mut store = ListenStore::new();
    store.add_listen("S1", &vec![String::from("A")]);
    store.add_listen("S1", &vec![String::from("A")]);
    store.add_listen("S2", &vec![String::from("B")]);
    assert_eq!(get_songs(&store, 10), "Top listened songs:\n**S1**: 2\n**S2**: 1\n");
    assert_eq!(get_artists(&store, 10), "Top listened artists:\n**A**: 2\n**B**: 1\n");
    assert_eq!(get_songs(&store, 1), "Top listened songs:\n**S1**: 2\n");
}

#[test]
fn ping_reports_the_millisecond_delta() {
    assert_eq!(ping(100, 250), "ping: **150** ms");
    assert_eq!(ping(0, 0), "ping: **0** ms");
}

#[test]
fn ping_delta_is_never_negative() {
    assert_eq!(ping(250, 100), "ping: **0** ms");
    assert_eq!(ping(i64::MAX, i64::MIN), "ping: **0** ms");
    assert_eq!(ping(-1000, 500), "ping: **1500** ms");
}

#[test]
fn profile_normalizes_the_avatar_address() {
    let url = String::from("https://cdn.discordapp.com/avatars/123/abcd.webp?size=1024");
    let req = profile(&Some(url)).expect("a six-segment address yields a request");
    assert_eq!(req.url, "https://cdn.discordapp.com/avatars/123/abcd.png?size=128");
    assert_eq!(req.cache_path, "abcd.png");
}

#[test]
fn profile_without_query_suffix_keeps_the_segment() {
    let url = String::from("https://cdn.discordapp.com/avatars/9/h.png");
    let req = profile(&Some(url)).unwrap();
    assert_eq!(req.url, "https://cdn.discordapp.com/avatars/9/h.png");
    assert_eq!(req.cache_path, "h.png");
}

#[test]
fn profile_with_short_address_yields_nothing() {
    assert!(profile(&None).is_none());
    assert!(profile(&Some(String::from("https://example.org/x.png"))).is_none());
}
