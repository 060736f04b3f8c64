//! Behavior of the text utilities, the user table and the log rendering.

use t_na::text::{
    first_token_str, join_strs, replace_str, split_str, str_eq, str_eq_ignore_ascii_case,
    u64_string,
};
use t_na::user::{TNaUser, TNaUserLoadError, UserTable};
use t_na::util::log::{error, info, warn};
use t_na::util::time::format_timestamp;

#[test]
fn numbers_render_in_decimal() {
    assert_eq!(u64_string(0), "0");
    assert_eq!(u64_string(7), "7");
    assert_eq!(u64_string(105), "105");
    assert_eq!(u64_string(u64::MAX), "18446744073709551615");
}

#[test]
fn split_matches_leftmost_nonoverlapping_occurrences() {
    assert_eq!(split_str("a; b; c", "; "), vec!["a", "b", "c"]);
    assert_eq!(split_str("abc", "; "), vec!["abc"]);
    assert_eq!(split_str("; x", "; "), vec!["", "x"]);
    assert_eq!(split_str("x; ", "; "), vec!["x", ""]);
    assert_eq!(split_str("", "; "), vec![""]);
    assert_eq!(split_str("aaa", "aa"), vec!["", "a"]);
}

#[test]
fn join_is_the_inverse_of_split_on_clean_parts() {
    let parts = split_str("a, b, c", ", ");
    assert_eq!(join_strs(&parts, ", "), "a, b, c");
    assert_eq!(join_strs(&vec![], ", "), "");
    assert_eq!(join_strs(&vec!["solo".to_string()], ", "), "solo");
}

#[test]
fn replace_substitutes_every_occurrence() {
    assert_eq!(replace_str("a.webp.webp", ".webp", ".png"), "a.png.png");
    assert_eq!(replace_str("nothing here", ".webp", ".png"), "nothing here");
    assert_eq!(replace_str("x?size=1024", "?size=1024", "?size=128"), "x?size=128");
}

#[test]
fn the_first_token_skips_leading_spaces() {
    assert_eq!(first_token_str("songs 5"), Some("songs".to_string()));
    assert_eq!(first_token_str("   artist"), Some("artist".to_string()));
    assert_eq!(first_token_str(""), None);
    assert_eq!(first_token_str("    "), None);
}

#[test]
fn string_comparisons() {
    assert!(str_eq("abc", "abc"));
    assert!(!str_eq("abc", "abd"));
    assert!(str_eq_ignore_ascii_case("SoNgS", "songs"));
    assert!(!str_eq_ignore_ascii_case("songz", "songs"));
}

#[test]
fn users_are_created_with_zero_currency_and_loaded_by_id() {
    let mut table = UserTable::new();
    let user = TNaUser::new_user(&mut table, 42);
    assert_eq!(user.id, 42);
    assert_eq!(user.currency, 0);
    let loaded = TNaUser::load_user(&table, 42).expect("the row was just created");
    assert_eq!(loaded.id, 42);
    assert_eq!(loaded.currency, 0);
    match TNaUser::load_user(&table, 7) {
        Ok(_) => panic!("no row was created for this id"),
        Err(e) => assert_eq!(e.reason, "Query returned no rows"),
    }
}

#[test]
fn creating_a_user_again_resets_the_currency() {
    let mut table = UserTable::new();
    TNaUser::new_user(&mut table, 1);
    TNaUser::new_user(&mut table, 1);
    let loaded = TNaUser::load_user(&table, 1).unwrap();
    assert_eq!(loaded.currency, 0);
}

#[test]
fn load_error_wraps_the_reason() {
    let e = TNaUserLoadError::from("some store failure".to_string());
    assert_eq!(e.reason, "some store failure");
}

#[test]
fn timestamps_render_clock_time_and_utc_date() {
    assert_eq!(format_timestamp(0), "12:00:00 AM  1-Jan-1970");
    assert_eq!(format_timestamp(1111111111), "01:58:31 AM 18-Mar-2005");
    assert_eq!(format_timestamp(951827696), "12:34:56 PM 29-Feb-2000");
}

#[test]
fn log_lines_carry_colour_level_and_message() {
    let line = info("ready".to_string());
    assert!(line.starts_with("\u{1b}[37m["));
    assert!(line.ends_with("] [INFO]: ready"));
    let line = error("boom".to_string());
    assert!(line.starts_with("\u{1b}[31m["));
    assert!(line.ends_with("] [ERROR]: boom"));
    let line = warn("careful".to_string());
    assert!(line.starts_with("\u{1b}[33m["));
    assert!(line.ends_with("] [WARN]: careful"));
}
