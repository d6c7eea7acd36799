//! Logging verbosity levels.  The logger itself queues and flushes
//! text and lives outside the library; the levels and their numbering
//! are shared with it.

use vstd::prelude::*;

verus! {

/// How much the logger prints.
#[derive(Debug, Clone, Copy, PartialEq, Eq, Structural)]
pub enum Verbosity {
    Default,
    Details,
    Debug,
}

/// The numbering the level comparisons use.
pub open spec fn spec_verbosity_level(v: Verbosity) -> u8 {
    match v {
        Verbosity::Default => 0,
        Verbosity::Details => 1,
        Verbosity::Debug => 2,
    }
}

impl Verbosity {
    /// The level's number.
    pub fn level(&self) -> (r: u8)
        ensures
            r == spec_verbosity_level(*self),
    {
        match self {
            Verbosity::Default => 0,
            Verbosity::Details => 1,
            Verbosity::Debug => 2,
        }
    }
}

impl From<u8> for Verbosity {
    /// Levels count up to `Debug`; anything higher stays `Debug`.
    fn from(val: u8) -> (r: Verbosity)
        ensures
            r == (if val == 0 {
                Verbosity::Default
            } else if val == 1 {
                Verbosity::Details
            } else {
                Verbosity::Debug
            }),
    {
        match val {
            0 => Verbosity::Default,
            1 => Verbosity::Details,
            _ => Verbosity::Debug,
        }
    }
}

impl vstd::std_specs::convert::FromSpecImpl<u8> for Verbosity {
    open spec fn obeys_from_spec() -> bool {
        true
    }

    open spec fn from_spec(val: u8) -> Verbosity {
        if val == 0 {
            Verbosity::Default
        } else if val == 1 {
            Verbosity::Details
        } else {
            Verbosity::Debug
        }
    }
}

} // verus!
