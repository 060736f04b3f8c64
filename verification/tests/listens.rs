//! Behavior of the listen counters: recording, counting, and the top-N
//! queries.

use t_na::listens::{ListenStore, ListenTable};

#[test]
fn first_record_creates_row_with_count_one() {
    let mut table = ListenTable::new();
    assert_eq!(table.count("Song A"), 0);
    table.record_play("Song A");
    assert_eq!(table.count("Song A"), 1);
    assert_eq!(table.len(), 1);
}

#[test]
fn recording_twice_adds_exactly_two() {
    let mut table = ListenTable::new();
    table.record_play("Song A");
    let before = table.count("Song A");
    table.record_play("Song A");
    table.record_play("Song A");
    assert_eq!(table.count("Song A"), before + 2);
    assert_eq!(table.len(), 1);
}

#[test]
fn recording_n_times_loses_no_increment() {
    let mut table = ListenTable::new();
    table.record_play("Song A");
    let before = table.count("Song A");
    for _ in 0..25 {
        table.record_play("Song A");
    }
    assert_eq!(table.count("Song A"), before + 25);
}

#[test]
fn recording_leaves_other_names_alone() {
    let mut table = ListenTable::new();
    table.record_play("Song A");
    table.record_play("Song B");
    table.record_play("Song B");
    assert_eq!(table.count("Song A"), 1);
    assert_eq!(table.count("Song B"), 2);
    assert_eq!(table.count("Song C"), 0);
}

#[test]
fn names_match_exactly_and_case_sensitively() {
    let mut table = ListenTable::new();
    table.record_play("song a");
    table.record_play("Song A");
    assert_eq!(table.count("song a"), 1);
    assert_eq!(table.count("Song A"), 1);
    assert_eq!(table.len(), 2);
}

#[test]
fn top_n_is_sorted_descending_and_capped() {
    let mut table = ListenTable::new();
    for (name, plays) in [("a", 3), ("b", 1), ("c", 5), ("d", 2)] {
        for _ in 0..plays {
            table.record_play(name);
        }
    }
    let top = table.top_n(2);
    assert_eq!(top.len(), 2);
    assert_eq!(top[0].name, "c");
    assert_eq!(top[0].listen_count, 5);
    assert_eq!(top[1].name, "a");
    assert_eq!(top[1].listen_count, 3);

    let all = table.top_n(10);
    assert_eq!(all.len(), 4);
    for w in all.windows(2) {
        assert!(w[0].listen_count >= w[1].listen_count);
    }
}

#[test]
fn top_n_on_empty_table_is_empty() {
    let table = ListenTable::new();
    assert_eq!(table.top_n(3).len(), 0);
}

#[test]
fn add_listen_updates_song_and_every_artist() {
    let mut store = ListenStore::new();
    let artists = vec![String::from("Artist X"), String::from("Artist Y")];
    store.add_listen("Song A", &artists);
    store.add_listen("Song A", &artists);
    assert_eq!(store.songs.count("Song A"), 2);
    assert_eq!(store.artists.count("Artist X"), 2);
    assert_eq!(store.artists.count("Artist Y"), 2);
    let top = store.songs.top_n(1);
    assert_eq!(top.len(), 1);
    assert_eq!(top[0].name, "Song A");
    assert_eq!(top[0].listen_count, 2);
}

#[test]
fn add_listen_counts_duplicate_artists_per_occurrence() {
    let mut store = ListenStore::new();
    let artists = vec![String::from("X"), String::from("X"), String::from("Y")];
    store.add_listen("S", &artists);
    assert_eq!(store.artists.count("X"), 2);
    assert_eq!(store.artists.count("Y"), 1);
}

#[test]
fn top_artist_is_the_most_played() {
    let mut store = ListenStore::new();
    assert!(store.get_top_artist().is_none());
    store.add_listen("S1", &vec![String::from("A"), String::from("B")]);
    store.add_listen("S2", &vec![String::from("B")]);
    assert_eq!(store.get_top_artist().as_deref(), Some("B"));
}
