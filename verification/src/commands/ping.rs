//! The `ping` chat command: the reply text that reports the round-trip
//! between the prompting message and the reply, in milliseconds.

use vstd::prelude::*;
use vstd::string::*;
use crate::text::{decimal_chars, u64_string};

verus! {

/// The reported round-trip in milliseconds: the difference of the two
/// timestamps, clamped to zero when the reply's timestamp is not later.
pub open spec fn ping_delta(sent: int, received: int) -> int {
    if received >= sent {
        received - sent
    } else {
        0
    }
}

/// The reported round-trip is never negative, whatever the two timestamps.
pub proof fn lemma_ping_delta_nonnegative(sent: int, received: int)
    ensures
        ping_delta(sent, received) >= 0,
{
}

/// The `ping` reply text for a round-trip delta.
pub open spec fn ping_reply(sent: int, received: int) -> Seq<char> {
    "ping: **"@ + decimal_chars(ping_delta(sent, received) as nat) + "** ms"@
}

/// Builds the `ping` reply from the prompting message's timestamp and the
/// reply's timestamp, both in milliseconds.
pub fn ping(sent_millis: i64, response_millis: i64) -> (r: String)
    ensures
        r@ == ping_reply(sent_millis as int, response_millis as int),
{
    let delta: u64 = if response_millis <= sent_millis {
        0u64
    } else {
        (response_millis as i128 - sent_millis as i128) as u64
    };
    proof {
        assert(delta == ping_delta(sent_millis as int, response_millis as int));
    }
    let mut r = "ping: **".to_owned();
    let d = u64_string(delta);
    r.append(d.as_str());
    r.append("** ms");
    r
}

} // verus!
