//! The `spotify` chat command: top-song and top-artist reports, and the
//! dispatch of the command's first argument.

use vstd::prelude::*;
use vstd::string::*;
use crate::listens::{ListenEntry, ListenStore, top_selection};
use crate::text::{
    decimal_chars, eq_ignore_ascii_case, first_token, first_token_str, str_eq_ignore_ascii_case,
    u64_string,
};

verus! {

/// The heading of the top-songs report.
pub open spec fn songs_header() -> Seq<char> {
    "Top listened songs:\n"@
}

/// The heading of the top-artists report.
pub open spec fn artists_header() -> Seq<char> {
    "Top listened artists:\n"@
}

/// The reply to an unrecognized or missing command keyword.
pub open spec fn invalid_reply() -> Seq<char> {
    "Invalid arguments!"@
}

/// One report line: the name in bold, a colon, and the count.
pub open spec fn line_of(e: (Seq<char>, u64)) -> Seq<char> {
    "**"@ + e.0 + "**: "@ + decimal_chars(e.1 as nat) + "\n"@
}

/// The report text: the header followed by one line per entry, in order.
pub open spec fn report_of(header: Seq<char>, entries: Seq<(Seq<char>, u64)>) -> Seq<char>
    decreases entries.len(),
{
    if entries.len() == 0 {
        header
    } else {
        report_of(header, entries.drop_last()) + line_of(entries.last())
    }
}

/// Renders the report for the given entries under the given header.
fn format_report(header: &str, entries: &Vec<ListenEntry>) -> (r: String)
    ensures
        r@ == report_of(header@, entries.deep_view()),
{
    let ghost dv = entries.deep_view();
    let mut r = header.to_owned();
    proof {
        assert(dv.take(0) =~= Seq::<(Seq<char>, u64)>::empty());
    }
    let mut i: usize = 0;
    while i < entries.len()
        invariant
            dv == entries.deep_view(),
            dv.len() == entries.len(),
            0 <= i <= entries.len(),
            r@ == report_of(header@, dv.take(i as int)),
        decreases entries.len() - i,
    {
        r.append("**");
        r.append(entries[i].name.as_str());
        r.append("**: ");
        let count = u64_string(entries[i].listen_count);
        r.append(count.as_str());
        r.append("\n");
        proof {
            assert(dv.take(i + 1).drop_last() =~= dv.take(i as int));
            assert(dv.take(i + 1).last() == dv[i as int]);
            assert(r@ =~= report_of(header@, dv.take(i as int)) + line_of(dv[i as int]));
        }
        i += 1;
    }
    proof {
        assert(dv.take(entries@.len() as int) =~= dv);
    }
    r
}

/// The top-songs report for at most `top` songs.
pub fn get_songs(store: &ListenStore, top: usize) -> (r: String)
    requires
        store.wf(),
        top >= 1,
    ensures
        exists|sel: Seq<(Seq<char>, u64)>|
            #[trigger] top_selection(store.songs@, sel, top as int) && r@ == report_of(
                songs_header(),
                sel,
            ),
{
    let entries = store.songs.top_n(top);
    let r = format_report("Top listened songs:\n", &entries);
    proof {
        reveal_strlit("Top listened songs:\n");
        assert("Top listened songs:\n"@ == songs_header());
        assert(top_selection(store.songs@, entries.deep_view(), top as int));
    }
    r
}

/// The top-artists report for at most `top` artists.
pub fn get_artists(store: &ListenStore, top: usize) -> (r: String)
    requires
        store.wf(),
        top >= 1,
    ensures
        exists|sel: Seq<(Seq<char>, u64)>|
            #[trigger] top_selection(store.artists@, sel, top as int) && r@ == report_of(
                artists_header(),
                sel,
            ),
{
    let entries = store.artists.top_n(top);
    let r = format_report("Top listened artists:\n", &entries);
    proof {
        reveal_strlit("Top listened artists:\n");
        assert("Top listened artists:\n"@ == artists_header());
        assert(top_selection(store.artists@, entries.deep_view(), top as int));
    }
    r
}

/// What the `spotify` command replies to the given argument text: a top-ten
/// report for a recognized keyword, the fixed error reply otherwise. The
/// store is only read.
pub fn spotify(store: &ListenStore, args: &str) -> (r: String)
    requires
        store.wf(),
    ensures
        first_token(args@) is None ==> r@ == invalid_reply(),
        first_token(args@) matches Some(t) ==> {
            if eq_ignore_ascii_case(t, "songs"@) || eq_ignore_ascii_case(t, "song"@) {
                exists|sel: Seq<(Seq<char>, u64)>|
                    #[trigger] top_selection(store.songs@, sel, 10) && r@ == report_of(
                        songs_header(),
                        sel,
                    )
            } else if eq_ignore_ascii_case(t, "artists"@) || eq_ignore_ascii_case(t, "artist"@) {
                exists|sel: Seq<(Seq<char>, u64)>|
                    #[trigger] top_selection(store.artists@, sel, 10) && r@ == report_of(
                        artists_header(),
                        sel,
                    )
            } else {
                r@ == invalid_reply()
            }
        },
{
    let first = first_token_str(args);
    match first {
        None => "Invalid arguments!".to_owned(),
        Some(tok) => {
            let t = tok.as_str();
            if str_eq_ignore_ascii_case(t, "songs") || str_eq_ignore_ascii_case(t, "song") {
                get_songs(store, 10)
            } else if str_eq_ignore_ascii_case(t, "artists") || str_eq_ignore_ascii_case(
                t,
                "artist",
            ) {
                get_artists(store, 10)
            } else {
                "Invalid arguments!".to_owned()
            }
        },
    }
}

} // verus!
