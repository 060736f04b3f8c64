//! Console colour escapes for the log output.

use vstd::prelude::*;

verus! {

/// Switches the console colour to white.
pub const WHITE: &'static str = "\u{1b}[37m";

/// Switches the console colour to red.
pub const RED: &'static str = "\u{1b}[31m";

/// Switches the console colour to yellow.
pub const YELLOW: &'static str = "\u{1b}[33m";

} // verus!
