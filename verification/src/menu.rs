//! The per-hunk menu: its options, their key characters, and parsing.

use vstd::prelude::*;

verus! {

/// The outcome of reviewing one hunk.
#[derive(Debug)]
pub enum PatchOption {
    /// Write this replacement for the hunk.
    WriteNew(Vec<u8>),
    /// Keep the original hunk bytes.
    WriteOriginal,
    /// Keep the original hunk bytes and stop processing everything else.
    Quit,
}

#[derive(Copy, Clone, Debug, PartialEq, Eq, Structural)]
pub enum MenuOption {
    Yes,
    No,
    Quit,
    Edit,
}

/// The key character of each menu option, as a one-character string.
pub open spec fn char_spec(o: MenuOption) -> Seq<char> {
    match o {
        MenuOption::Yes => seq!['y'],
        MenuOption::No => seq!['n'],
        MenuOption::Quit => seq!['q'],
        MenuOption::Edit => seq!['e'],
    }
}

impl MenuOption {
    /// All options, in the order they are offered.
    pub fn list() -> (r: Vec<MenuOption>)
        ensures
            r@ == seq![MenuOption::Yes, MenuOption::No, MenuOption::Quit, MenuOption::Edit],
    {
        let mut v: Vec<MenuOption> = Vec::new();
        v.push(MenuOption::Yes);
        v.push(MenuOption::No);
        v.push(MenuOption::Quit);
        v.push(MenuOption::Edit);
        proof {
            assert(v@ =~= seq![MenuOption::Yes, MenuOption::No, MenuOption::Quit, MenuOption::Edit]);
        }
        v
    }

    /// The option's key, as a one-character string.
    pub fn as_char(&self) -> (r: &'static str)
        ensures
            r@ == char_spec(*self),
    {
        match self {
            MenuOption::Yes => {
                proof {
                    reveal_strlit("y");
                }
                let r = "y";
                proof {
                    assert(r@ =~= seq!['y']);
                }
                r
            },
            MenuOption::No => {
                proof {
                    reveal_strlit("n");
                }
                let r = "n";
                proof {
                    assert(r@ =~= seq!['n']);
                }
                r
            },
            MenuOption::Quit => {
                proof {
                    reveal_strlit("q");
                }
                let r = "q";
                proof {
                    assert(r@ =~= seq!['q']);
                }
                r
            },
            MenuOption::Edit => {
                proof {
                    reveal_strlit("e");
                }
                let r = "e";
                proof {
                    assert(r@ =~= seq!['e']);
                }
                r
            },
        }
    }

    /// One line of help text for the option.
    pub fn help(&self) -> (r: &'static str)
        ensures
            *self == MenuOption::Yes ==> r@ == ("replace this hunk")@,
            *self == MenuOption::No ==> r@ == ("do not replace this hunk")@,
            *self == MenuOption::Quit ==> r@ == (
            "quit; do not replace this hunk or any future hunks")@,
            *self == MenuOption::Edit ==> r@ == ("manually edit the current hunk")@,
    {
        match self {
            MenuOption::Yes => "replace this hunk",
            MenuOption::No => "do not replace this hunk",
            MenuOption::Quit => "quit; do not replace this hunk or any future hunks",
            MenuOption::Edit => "manually edit the current hunk",
        }
    }

    /// Parse a trimmed input: exactly one of the four key bytes.
    pub fn parse_key(input: &[u8]) -> (r: Option<MenuOption>)
        ensures
            r == (if input@.len() == 1 && input@[0] == 121 {
                Some(MenuOption::Yes)
            } else if input@.len() == 1 && input@[0] == 110 {
                Some(MenuOption::No)
            } else if input@.len() == 1 && input@[0] == 113 {
                Some(MenuOption::Quit)
            } else if input@.len() == 1 && input@[0] == 101 {
                Some(MenuOption::Edit)
            } else {
                None::<MenuOption>
            }),
    {
        if input.len() != 1 {
            return None;
        }
        match input[0] {
            121 => Some(MenuOption::Yes),
            110 => Some(MenuOption::No),
            113 => Some(MenuOption::Quit),
            101 => Some(MenuOption::Edit),
            _ => None,
        }
    }
}

impl core::str::FromStr for MenuOption {
    type Err = ();

    fn from_str(s: &str) -> Result<Self, Self::Err> {
        let bytes = s.as_bytes();
        match MenuOption::parse_key(bytes) {
            Some(o) => Ok(o),
            None => Err(()),
        }
    }
}

} // verus!
