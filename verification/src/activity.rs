//! The activity detector: picks the music activity out of a presence
//! update's activity list and extracts the played song, artists and album.

use vstd::prelude::*;
use vstd::string::*;
use crate::text::{join_chars, join_strs, split_chars, split_str, str_eq};

verus! {

/// What the detector reads from one activity of a presence update.
pub struct PresenceActivity {
    /// The platform's label for the activity's source.
    pub name: String,
    /// The song title, when the source reports one.
    pub details: Option<String>,
    /// The artist list, artists separated by `"; "`.
    pub state: Option<String>,
    /// The album name, from the activity's secondary asset label.
    pub large_text: Option<String>,
}

/// One detected music playback.
pub struct PlayEvent {
    pub song: String,
    pub artists: Vec<String>,
    pub album: String,
}

impl PlayEvent {
    /// A valid event: the song title is non-empty, and so is every artist
    /// name it carries.
    pub open spec fn valid(&self) -> bool {
        &&& self.song@.len() > 0
        &&& forall|i: int| 0 <= i < self.artists@.len() ==> self.artists@[i]@.len() > 0
    }
}

/// The detector's verdict on one presence update.
pub enum Detection {
    /// No activity comes from the music service.
    NoMusic,
    /// The music activity is missing a field or holds an empty name: the
    /// event is skipped and reported, never recorded.
    Malformed,
    /// A playback was detected.
    Play(PlayEvent),
}

/// The label that marks an activity as coming from the music service.
pub open spec fn music_service_name() -> Seq<char> {
    "Spotify"@
}

pub open spec fn is_music(a: PresenceActivity) -> bool {
    a.name@ == music_service_name()
}

/// The index of the first music activity, or -1 when there is none.
pub open spec fn first_music(av: Seq<PresenceActivity>) -> int
    decreases av.len(),
{
    if av.len() == 0 {
        -1
    } else if is_music(av[0]) {
        0
    } else {
        let r = first_music(av.drop_first());
        if r < 0 {
            -1
        } else {
            r + 1
        }
    }
}

/// A music activity whose three fields are all present, whose song title is
/// non-empty and whose artist list splits into non-empty names only.
pub open spec fn extractable(a: PresenceActivity) -> bool {
    &&& a.details is Some
    &&& a.state is Some
    &&& a.large_text is Some
    &&& a.details->0@.len() > 0
    &&& forall|i: int|
        0 <= i < split_chars(a.state->0@, "; "@).len() ==> split_chars(a.state->0@, "; "@)[i].len()
            > 0
}

proof fn lemma_first_music_from(av: Seq<PresenceActivity>, k: int)
    requires
        0 <= k <= av.len(),
        forall|j: int| 0 <= j < k ==> !is_music(av[j]),
    ensures
        k < av.len() && is_music(av[k]) ==> first_music(av) == k,
        k == av.len() ==> first_music(av) == -1,
    decreases k,
{
    if k == 0 {
        if av.len() > 0 && !is_music(av[0]) && first_music(av.drop_first()) < 0 {
        }
    } else {
        assert(!is_music(av[0]));
        let av1 = av.drop_first();
        assert forall|j: int| 0 <= j < k - 1 implies !is_music(av1[j]) by {
            assert(av1[j] == av[j + 1]);
        }
        lemma_first_music_from(av1, k - 1);
        if k < av.len() && is_music(av[k]) {
            assert(av1[k - 1] == av[k]);
        }
    }
}

/// Scans the presence's activities for the first one from the music
/// service, and extracts the played song, artist list and album from it.
#[verifier::loop_isolation(false)]
pub fn detect_play(activities: &Vec<PresenceActivity>) -> (r: Detection)
    ensures
        first_music(activities@) < 0 <==> r is NoMusic,
        first_music(activities@) >= 0 && !extractable(activities@[first_music(activities@)])
            <==> r is Malformed,
        r matches Detection::Play(e) ==> {
            let a = activities@[first_music(activities@)];
            &&& first_music(activities@) >= 0
            &&& extractable(a)
            &&& e.song@ == a.details->0@
            &&& e.artists.deep_view() == split_chars(a.state->0@, "; "@)
            &&& e.album@ == a.large_text->0@
            &&& e.valid()
        },
{
    proof {
        reveal_strlit("Spotify");
        reveal_strlit("; ");
    }
    let ghost av = activities@;
    let n = activities.len();
    let mut i: usize = 0;
    while i < n
        invariant
            av == activities@,
            n == av.len(),
            0 <= i <= n,
            forall|j: int| 0 <= j < i ==> !is_music(av[j]),
        decreases n - i,
    {
        if str_eq(activities[i].name.as_str(), "Spotify") {
            proof {
                lemma_first_music_from(av, i as int);
                assert(first_music(av) == i as int);
            }
            let a = &activities[i];
            let song: String = match &a.details {
                Some(d) => d.clone(),
                None => {
                    return Detection::Malformed;
                },
            };
            let state: String = match &a.state {
                Some(s) => s.clone(),
                None => {
                    return Detection::Malformed;
                },
            };
            let album: String = match &a.large_text {
                Some(t) => t.clone(),
                None => {
                    return Detection::Malformed;
                },
            };
            if song.as_str().is_empty() {
                return Detection::Malformed;
            }
            let artists = split_str(state.as_str(), "; ");
            let ghost parts = split_chars(av[i as int].state->0@, "; "@);
            let mut j: usize = 0;
            while j < artists.len()
                invariant
                    artists.deep_view() == parts,
                    artists@.len() == parts.len(),
                    0 <= j <= artists.len(),
                    forall|x: int| 0 <= x < j ==> parts[x].len() > 0,
                decreases artists.len() - j,
            {
                if artists[j].as_str().is_empty() {
                    proof {
                        assert(parts[j as int].len() == 0);
                    }
                    return Detection::Malformed;
                }
                proof {
                    assert(artists@[j as int]@ == parts[j as int]);
                }
                j += 1;
            }
            proof {
                assert forall|x: int| 0 <= x < artists@.len() implies artists@[x]@.len() > 0 by {
                    assert(artists.deep_view()[x] == artists@[x]@);
                    assert(parts[x].len() > 0);
                }
            }
            let e = PlayEvent { song, artists, album };
            proof {
                assert(extractable(av[i as int]));
                assert(e.valid());
            }
            return Detection::Play(e);
        }
        i += 1;
    }
    proof {
        lemma_first_music_from(av, n as int);
    }
    Detection::NoMusic
}

/// The search text used to warm the song cache: the song title and the
/// artists joined with a comma.
pub fn song_query(song: &str, artists: &Vec<String>) -> (r: String)
    ensures
        r@ == song@ + " "@ + join_chars(artists.deep_view(), ", "@),
{
    let mut r = song.to_owned();
    r.append(" ");
    let joined = join_strs(artists, ", ");
    r.append(joined.as_str());
    r
}

/// Where the song cache keeps a song's album art.
pub fn song_cache_path(song: &str) -> (r: String)
    ensures
        r@ == "./spotify_cache/songs/"@ + "/"@ + song@ + ".jpg"@,
{
    let mut r = "./spotify_cache/songs/".to_owned();
    r.append("/");
    r.append(song);
    r.append(".jpg");
    r
}

/// Whether the displayed status must change to the current top artist.
pub fn should_update_activity(top_artist: &str, displayed: &str) -> (r: bool)
    ensures
        r == (top_artist@ != displayed@),
{
    !str_eq(top_artist, displayed)
}

} // verus!
