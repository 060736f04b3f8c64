//! The `profile` chat command: turns a user's avatar address into the
//! download address and local cache filename that the renderer uses.

use vstd::prelude::*;
use vstd::string::*;
use crate::text::{replace_chars, replace_str, split_chars, split_str};

verus! {

/// What the renderer needs: where to fetch the avatar and where to cache it.
pub struct ProfileRequest {
    pub url: String,
    pub cache_path: String,
}

/// The avatar used when the user has none.
pub open spec fn default_avatar_url() -> Seq<char> {
    "https://discordapp.com/assets/322c936a8c8be1b803cd94861bdfa868.png"@
}

/// The avatar address with the image format and size adjusted: `.webp`
/// becomes `.png`, and the large size query becomes the small one.
pub open spec fn normalized_avatar_url(avatar: Option<Seq<char>>) -> Seq<char> {
    let base = match avatar {
        Some(u) => u,
        None => default_avatar_url(),
    };
    replace_chars(replace_chars(base, ".webp"@, ".png"@), "?size=1024"@, "?size=128"@)
}

/// Plans a profile rendering: normalizes the avatar address and derives the
/// cache filename from the address's sixth slash-separated segment, with any
/// query suffix cut off. Yields nothing when the address has fewer segments.
pub fn profile(avatar_url: &Option<String>) -> (r: Option<ProfileRequest>)
    ensures
        ({
            let url = normalized_avatar_url(avatar_url.deep_view());
            let segs = split_chars(url, "/"@);
            &&& (r is Some) <==> segs.len() >= 6
            &&& (r matches Some(pr) ==> pr.url@ == url && pr.cache_path@ == split_chars(
                segs[5],
                "?"@,
            )[0])
        }),
{
    proof {
        reveal_strlit(".webp");
        reveal_strlit("?size=1024");
        reveal_strlit("/");
        reveal_strlit("?");
    }
    let base: String = match avatar_url {
        Some(u) => u.clone(),
        None => "https://discordapp.com/assets/322c936a8c8be1b803cd94861bdfa868.png".to_owned(),
    };
    let step = replace_str(base.as_str(), ".webp", ".png");
    let url = replace_str(step.as_str(), "?size=1024", "?size=128");
    let segs = split_str(url.as_str(), "/");
    if segs.len() < 6 {
        return None;
    }
    let subs = split_str(segs[5].as_str(), "?");
    proof {
        crate::text::lemma_split_nonempty(segs.deep_view()[5], "?"@);
    }
    let cache_path = subs[0].clone();
    Some(ProfileRequest { url, cache_path })
}

} // verus!
