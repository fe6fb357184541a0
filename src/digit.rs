use vstd::prelude::*;

verus! {

/// One cell of the puzzle: a known decimal digit, or a hidden one.
#[derive(Debug, Clone, Copy, PartialEq, Eq, Structural)]
pub enum Digit {
    Fix(u8),
    Any,
}

impl Digit {
    /// A known cell holds a decimal digit.
    pub open spec fn wf(self) -> bool {
        match self {
            Digit::Fix(d) => d <= 9,
            Digit::Any => true,
        }
    }

    /// Whether the cell admits the digit `c`.
    pub open spec fn accepts(self, c: u8) -> bool {
        match self {
            Digit::Fix(d) => d == c,
            Digit::Any => true,
        }
    }

    /// The cell written as `ch`: a decimal digit is known, `*` is hidden.
    pub open spec fn spec_parse(ch: char) -> Option<Digit> {
        if '0' <= ch && ch <= '9' {
            Some(Digit::Fix((ch as u32 - '0' as u32) as u8))
        } else if ch == '*' {
            Some(Digit::Any)
        } else {
            None
        }
    }

    /// Reads one cell: a decimal digit, or `*` for a hidden one.
    pub fn parse(ch: char) -> (r: Option<Digit>)
        ensures
            r == Digit::spec_parse(ch),
            r matches Some(d) ==> d.wf(),
    {
        if '0' <= ch && ch <= '9' {
            Some(Digit::Fix((ch as u32 - '0' as u32) as u8))
        } else if ch == '*' {
            Some(Digit::Any)
        } else {
            None
        }
    }

    /// The digit of a known cell.
    pub fn digit(self) -> (r: Option<u8>)
        ensures
            r == (match self {
                Digit::Fix(d) => Some(d),
                Digit::Any => None::<u8>,
            }),
    {
        match self {
            Digit::Fix(d) => Some(d),
            Digit::Any => None,
        }
    }

    /// Whether the cell admits the digit `digit`.
    pub fn accept(self, digit: u8) -> (r: bool)
        ensures
            r == self.accepts(digit),
    {
        match self {
            Digit::Fix(d) => d == digit,
            Digit::Any => true,
        }
    }

    /// Whether the cell is hidden.
    pub fn is_any(self) -> (r: bool)
        ensures
            r == (self == Digit::Any),
    {
        match self {
            Digit::Any => true,
            _ => false,
        }
    }
}

} // verus!
