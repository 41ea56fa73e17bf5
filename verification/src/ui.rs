//! What a run shows while it works.

use vstd::prelude::*;
use vstd::string::*;
use crate::args::Verbosity;
use crate::text::{cat, decimal, decimal_text};

verus! {

/// Whether progress is shown.
#[derive(Clone, Copy, Debug, PartialEq, Eq, Structural)]
pub enum Mode {
    /// A progress bar, and a line per repair.
    Live,
    /// Nothing.
    Silent,
}

impl Mode {
    /// Pick a mode: progress is shown to a person who looks at ordinary output.
    pub fn from_args(verbosity: &Verbosity, json: bool) -> (r: Mode)
        ensures
            r == (if !json && *verbosity == Verbosity::Normal { Mode::Live } else { Mode::Silent }),
    {
        if json {
            return Mode::Silent;
        }
        match verbosity {
            Verbosity::Normal => Mode::Live,
            _ => Mode::Silent,
        }
    }
}

/// How the number of changes of a repair is told, where there are any.
pub open spec fn change_note(count: Option<u32>) -> Option<Seq<char>> {
    match count {
        Some(n) => if n == 0 {
            None
        } else if n == 1 {
            Some("("@ + decimal(1) + " change)"@)
        } else {
            Some("("@ + decimal(n as nat) + " changes)"@)
        },
        None => None,
    }
}

/// How the number of changes of a repair is told, where there are any.
pub fn describe_changes(count: Option<u32>) -> (r: Option<String>)
    ensures
        r is Some <==> change_note(count) is Some,
        r matches Some(s) ==> change_note(count) == Some(s@),
{
    match count {
        Some(n) => {
            if n == 0 {
                return None;
            }
            let mut s = cat("(", decimal_text(n as u64).as_str());
            if n == 1 {
                s.append(" change)");
            } else {
                s.append(" changes)");
            }
            Some(s)
        },
        None => None,
    }
}

} // verus!
