//! The one validation error the shortener can raise.

use vstd::prelude::*;
use vstd::string::StringExecFns;

use crate::text::{digit_char, push_char, spec_digit_char};

verus! {

/// Raised when a supplied group's text has a length other than 0 or 4,
/// carrying the 1-based position of the offending group.
#[derive(Debug, Clone, Copy)]
pub enum Error {
    InvalidGroupLength(usize),
}

/// The message text of an [`Error::InvalidGroupLength`] at 1-based group
/// position `p`, for a single-digit position.
pub open spec fn spec_error_message(p: int) -> Seq<char> {
    "Required 4 characters at input box"@ + seq![' ', '\'', spec_digit_char(p), '\'']
}

impl Error {
    /// The 1-based position of the offending group.
    pub fn position(&self) -> (r: usize)
        ensures
            self matches Error::InvalidGroupLength(p) && r == p,
    {
        match self {
            Error::InvalidGroupLength(p) => *p,
        }
    }

    /// The display text of the error, naming the offending input box.
    pub fn message(&self) -> (r: String)
        requires
            self matches Error::InvalidGroupLength(p) && p < 10,
        ensures
            self matches Error::InvalidGroupLength(p) && r@ == spec_error_message(p as int),
    {
        let p = self.position();
        let mut msg = String::from_str("Required 4 characters at input box");
        push_char(&mut msg, ' ');
        push_char(&mut msg, '\'');
        push_char(&mut msg, digit_char(p));
        push_char(&mut msg, '\'');
        proof {
            assert(msg@ =~= spec_error_message(p as int));
        }
        msg
    }
}

} // verus!
