//! Behavior of the activity detector and its helpers.

use t_na::activity::{
    detect_play, should_update_activity, song_cache_path, song_query, Detection, PresenceActivity,
};

fn spotify_activity(details: Option<&str>, state: Option<&str>, album: Option<&str>)
    -> PresenceActivity {
    PresenceActivity {
        name: String::from("Spotify"),
        details: details.map(String::from),
        state: state.map(String::from),
        large_text: album.map(String::from),
    }
}

fn other_activity(name: &str) -> PresenceActivity {
    PresenceActivity {
        name: String::from(name),
        details: None,
        state: None,
        large_text: None,
    }
}

#[test]
fn detects_the_music_activity_and_splits_artists() {
    let acts = vec![
        other_activity("Some Game"),
        spotify_activity(Some("Song A"), Some("Artist X; Artist Y"), Some("Album Z")),
    ];
    match detect_play(&acts) {
        Detection::Play(e) => {
            assert_eq!(e.song, "Song A");
            assert_eq!(e.artists, vec!["Artist X".to_string(), "Artist Y".to_string()]);
            assert_eq!(e.album, "Album Z");
        },
        _ => panic!("expected a detected play"),
    }
}

#[test]
fn a_single_artist_stays_whole() {
    let acts = vec![spotify_activity(Some("S"), Some("Solo Artist"), Some("A"))];
    match detect_play(&acts) {
        Detection::Play(e) => assert_eq!(e.artists, vec!["Solo Artist".to_string()]),
        _ => panic!("expected a detected play"),
    }
}

#[test]
fn no_music_activity_yields_nothing() {
    assert!(matches!(detect_play(&vec![]), Detection::NoMusic));
    let acts = vec![other_activity("Some Game"), other_activity("spotify")];
    assert!(matches!(detect_play(&acts), Detection::NoMusic));
}

#[test]
fn missing_fields_are_malformed_not_fatal() {
    let missing_details = vec![spotify_activity(None, Some("A"), Some("B"))];
    assert!(matches!(detect_play(&missing_details), Detection::Malformed));
    let missing_state = vec![spotify_activity(Some("S"), None, Some("B"))];
    assert!(matches!(detect_play(&missing_state), Detection::Malformed));
    let missing_album = vec![spotify_activity(Some("S"), Some("A"), None)];
    assert!(matches!(detect_play(&missing_album), Detection::Malformed));
    let empty_song = vec![spotify_activity(Some(""), Some("A"), Some("B"))];
    assert!(matches!(detect_play(&empty_song), Detection::Malformed));
    let empty_artist = vec![spotify_activity(Some("S"), Some("A; "), Some("B"))];
    assert!(matches!(detect_play(&empty_artist), Detection::Malformed));
}

#[test]
fn the_search_query_joins_artists_with_commas() {
    let artists = vec!["X".to_string(), "Y".to_string()];
    assert_eq!(song_query("Song A", &artists), "Song A X, Y");
    assert_eq!(song_query("Solo", &vec![]), "Solo ");
}

#[test]
fn the_cache_path_is_derived_from_the_song_name() {
    assert_eq!(song_cache_path("Song A"), "./spotify_cache/songs//Song A.jpg");
}

#[test]
fn the_status_changes_only_when_the_top_artist_does() {
    assert!(should_update_activity("New Artist", "-"));
    assert!(!should_update_activity("Same", "Same"));
}
