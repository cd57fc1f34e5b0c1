use vstd::prelude::*;

verus! {

/// One of the two players.
#[derive(Copy, Clone, Debug, PartialEq, Eq, Structural)]
pub enum Color {
    P1,
    P2,
}

impl Color {
    pub const NUM: usize = 2;

    /// 0 for the first player, 1 for the second.
    pub open spec fn index(self) -> nat {
        match self {
            Color::P1 => 0,
            Color::P2 => 1,
        }
    }

    /// The colour with the given index.
    pub open spec fn of_index(i: int) -> Color {
        if i == 0 {
            Color::P1
        } else {
            Color::P2
        }
    }

    pub open spec fn other(self) -> Color {
        match self {
            Color::P1 => Color::P2,
            Color::P2 => Color::P1,
        }
    }

    /// The digit that stands for this colour in position and stack strings.
    pub open spec fn digit(self) -> char {
        match self {
            Color::P1 => '1',
            Color::P2 => '2',
        }
    }

    pub fn from_index(value: u8) -> (r: Color)
        requires
            value < 2,
        ensures
            r.index() == value,
            r == Color::of_index(value as int),
    {
        if value == 0 {
            Color::P1
        } else {
            Color::P2
        }
    }

    pub fn to_index(self) -> (r: usize)
        ensures
            r == self.index(),
    {
        match self {
            Color::P1 => 0,
            Color::P2 => 1,
        }
    }

    /// The other player.
    pub fn opposite(self) -> (r: Color)
        ensures
            r == self.other(),
    {
        match self {
            Color::P1 => Color::P2,
            Color::P2 => Color::P1,
        }
    }

    pub fn to_char(self) -> (r: char)
        ensures
            r == self.digit(),
    {
        match self {
            Color::P1 => '1',
            Color::P2 => '2',
        }
    }
}

} // verus!
