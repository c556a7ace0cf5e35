//! Heading levels, from the most to the least prominent.
use vstd::prelude::*;
use vstd::std_specs::convert::TryFromSpecImpl;

verus! {

/// The level of a heading: `H1` is the most prominent.
#[derive(Clone, Copy, Debug, PartialEq, Eq, Structural)]
pub enum HeadingLevel {
    H1,
    H2,
    H3,
    H4,
    H5,
    H6,
}

/// The number that was refused as a heading level.
#[derive(Debug)]
pub struct InvalidHeadingLevel(pub usize);

impl HeadingLevel {
    /// The number of the level: 1 for `H1` up to 6 for `H6`.
    pub open spec fn number(self) -> int {
        match self {
            HeadingLevel::H1 => 1,
            HeadingLevel::H2 => 2,
            HeadingLevel::H3 => 3,
            HeadingLevel::H4 => 4,
            HeadingLevel::H5 => 5,
            HeadingLevel::H6 => 6,
        }
    }

    /// The level with the given number, for a number from 1 to 6.
    pub open spec fn of_number(n: int) -> Option<HeadingLevel> {
        if n == 1 {
            Some(HeadingLevel::H1)
        } else if n == 2 {
            Some(HeadingLevel::H2)
        } else if n == 3 {
            Some(HeadingLevel::H3)
        } else if n == 4 {
            Some(HeadingLevel::H4)
        } else if n == 5 {
            Some(HeadingLevel::H5)
        } else if n == 6 {
            Some(HeadingLevel::H6)
        } else {
            None
        }
    }

    /// The number of the level as a machine integer.
    pub fn to_usize(self) -> (n: usize)
        ensures
            n == self.number(),
            1 <= n <= 6,
    {
        match self {
            HeadingLevel::H1 => 1,
            HeadingLevel::H2 => 2,
            HeadingLevel::H3 => 3,
            HeadingLevel::H4 => 4,
            HeadingLevel::H5 => 5,
            HeadingLevel::H6 => 6,
        }
    }
}

impl TryFrom<usize> for HeadingLevel {
    type Error = InvalidHeadingLevel;

    fn try_from(value: usize) -> (result: Result<Self, Self::Error>) {
        match value {
            1 => Ok(HeadingLevel::H1),
            2 => Ok(HeadingLevel::H2),
            3 => Ok(HeadingLevel::H3),
            4 => Ok(HeadingLevel::H4),
            5 => Ok(HeadingLevel::H5),
            6 => Ok(HeadingLevel::H6),
            _ => Err(InvalidHeadingLevel(value)),
        }
    }
}

impl TryFromSpecImpl<usize> for HeadingLevel {
    open spec fn obeys_try_from_spec() -> bool {
        true
    }

    open spec fn try_from_spec(value: usize) -> Result<Self, Self::Error> {
        match HeadingLevel::of_number(value as int) {
            Some(level) => Ok(level),
            None => Err(InvalidHeadingLevel(value)),
        }
    }
}

} // verus!
