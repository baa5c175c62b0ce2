//! The run's options, as plain values, and the context amount.

use vstd::prelude::*;

use crate::parse::{bytes_as_u64, dec_spec, u64_from_dec_spec};

verus! {

/// How much context to show around each match.
#[derive(Copy, Clone, Debug, PartialEq, Eq, Structural)]
pub enum Context {
    Num(u64),
    /// The whole file becomes one hunk.
    Infinite,
}

/// `"infinite"`
pub open spec fn infinite_bytes() -> Seq<u8> {
    seq![105u8, 110u8, 102u8, 105u8, 110u8, 105u8, 116u8, 101u8]
}

impl Context {
    /// The padding value the merger uses: `Infinite` is the whole domain.
    pub fn padding(&self) -> (r: u64)
        ensures
            self matches Context::Num(x) ==> r == x,
            self is Infinite ==> r == u64::MAX,
    {
        match self {
            Context::Num(x) => *x,
            Context::Infinite => u64::MAX,
        }
    }

    /// Parse the option's text: the word `infinite`, or a decimal number.
    pub fn parse(s: &[u8]) -> (r: Option<Context>)
        ensures
            s@ == infinite_bytes() ==> r == Some(Context::Infinite),
            s@ != infinite_bytes() ==> r == (match u64_from_dec_spec(s@) {
                Some(x) => Some(Context::Num(x)),
                None => None::<Context>,
            }),
    {
        if s.len() == 8 && s[0] == 105 && s[1] == 110 && s[2] == 102 && s[3] == 105 && s[4] == 110
            && s[5] == 105 && s[6] == 116 && s[7] == 101 {
            proof {
                assert(s@ =~= infinite_bytes());
            }
            return Some(Context::Infinite);
        }
        proof {
            if s@.len() == 8 {
                assert(s@ != infinite_bytes() ==> !(s@[0] == 105 && s@[1] == 110 && s@[2] == 102
                    && s@[3] == 105 && s@[4] == 110 && s@[5] == 105 && s@[6] == 116 && s@[7]
                    == 101));
            }
        }
        match bytes_as_u64(s) {
            Some(x) => Some(Context::Num(x)),
            None => None,
        }
    }

    /// The option's display text: the word `infinite`, or the number in
    /// decimal.
    pub fn display_bytes(&self) -> (r: Vec<u8>)
        ensures
            self matches Context::Num(x) ==> r@ == dec_spec(x as int),
            self is Infinite ==> r@ == infinite_bytes(),
    {
        match self {
            Context::Num(x) => crate::patch::u64_to_dec(*x),
            Context::Infinite => {
                let mut v: Vec<u8> = Vec::new();
                v.push(105);
                v.push(110);
                v.push(102);
                v.push(105);
                v.push(110);
                v.push(105);
                v.push(116);
                v.push(101);
                proof {
                    assert(v@ =~= infinite_bytes());
                }
                v
            },
        }
    }
}

impl Default for Context {
    /// Five lines of context, unless asked otherwise.
    fn default() -> (r: Self)
        ensures
            r == Context::Num(5u64),
    {
        Context::Num(5)
    }
}

/// Everything a run is configured with, as plain values.
pub struct Args {
    /// Regex to search for, optionally with capture groups.
    pub find: String,
    /// Text to replace the matches with; capture group indices and names
    /// are supported.
    pub replace: String,
    /// Paths (files and/or directories) to search recursively.
    pub paths: Vec<String>,
    /// Case-insensitive search.
    pub ignore_case: bool,
    /// Ignore filesystem-related errors while searching.
    pub ignore_errors: bool,
    /// How many lines of context each diff gets.
    pub context: Context,
    /// Show the changes without modifying any files.
    pub show: bool,
    /// Apply and write all changes without asking.
    pub apply: bool,
}

} // verus!
