//! The console log lines: a colour escape, the timestamp, the severity
//! label and the message.

use vstd::prelude::*;
use vstd::string::*;
use crate::util::colour;
use crate::util::time::{format_timestamp, timestamp_chars};

verus! {

/// A severity label and the console colour it is printed in.
struct LogLevel {
    text: String,
    text_colour: String,
}

/// One log line: the colour escape, the timestamp in brackets, the
/// severity label in brackets, and the message.
pub open spec fn log_line(
    colour: Seq<char>,
    ts: Seq<char>,
    level: Seq<char>,
    msg: Seq<char>,
) -> Seq<char> {
    colour + "["@ + ts + "] ["@ + level + "]: "@ + msg
}

/// Relies on std::time::SystemTime::now for the wall clock, converted to
/// whole seconds since the Unix epoch; the result depends on the clock, so
/// nothing is stated of it.
#[verifier::external_body]
fn epoch_seconds() -> u64 {
    match std::time::SystemTime::now().duration_since(std::time::UNIX_EPOCH) {
        Ok(d) => d.as_secs(),
        Err(_) => 0,
    }
}

fn log(level: LogLevel, msg: String) -> (r: String)
    ensures
        exists|secs: nat|
            r@ == log_line(level.text_colour@, timestamp_chars(secs), level.text@, msg@),
{
    let ghost lv = level;
    let now = epoch_seconds();
    let ts = format_timestamp(now);
    let mut r = level.text_colour;
    r.append("[");
    r.append(ts.as_str());
    r.append("] [");
    r.append(level.text.as_str());
    r.append("]: ");
    r.append(msg.as_str());
    proof {
        assert(r@ =~= log_line(lv.text_colour@, timestamp_chars(now as nat), lv.text@, msg@));
    }
    r
}

/// The log line for a message at the INFO level, in white.
pub fn info(msg: String) -> (r: String)
    ensures
        exists|secs: nat|
            r@ == log_line(colour::WHITE@, timestamp_chars(secs), "INFO"@, msg@),
{
    log(LogLevel { text: "INFO".to_owned(), text_colour: colour::WHITE.to_owned() }, msg)
}

/// The log line for a message at the ERROR level, in red.
pub fn error(msg: String) -> (r: String)
    ensures
        exists|secs: nat|
            r@ == log_line(colour::RED@, timestamp_chars(secs), "ERROR"@, msg@),
{
    log(LogLevel { text: "ERROR".to_owned(), text_colour: colour::RED.to_owned() }, msg)
}

/// The log line for a message at the WARN level, in yellow.
pub fn warn(msg: String) -> (r: String)
    ensures
        exists|secs: nat|
            r@ == log_line(colour::YELLOW@, timestamp_chars(secs), "WARN"@, msg@),
{
    log(LogLevel { text: "WARN".to_owned(), text_colour: colour::YELLOW.to_owned() }, msg)
}

} // verus!
