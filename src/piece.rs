use crate::color::Color;
use vstd::prelude::*;

verus! {

/// The kind of a tile, or `Absent` for no tile.
#[derive(Copy, Clone, Debug, PartialEq, Eq, Structural)]
pub enum PieceType {
    Flat,
    Wall,
    Cap,
    Absent,
}

/// A tile of one colour and kind, or `Empty` for an empty square.
#[derive(Copy, Clone, Debug, PartialEq, Eq, Structural)]
pub enum Piece {
    P1Flat,
    P2Flat,
    P1Wall,
    P2Wall,
    P1Cap,
    P2Cap,
    Empty,
}

impl Default for PieceType {
    fn default() -> (r: PieceType)
        ensures
            r == PieceType::Absent,
    {
        PieceType::Absent
    }
}

impl Default for Piece {
    fn default() -> (r: Piece)
        ensures
            r == Piece::Empty,
    {
        Piece::Empty
    }
}

impl PieceType {
    pub const NUM: usize = 3;

    pub open spec fn index(self) -> nat {
        match self {
            PieceType::Flat => 0,
            PieceType::Wall => 1,
            PieceType::Cap => 2,
            PieceType::Absent => 3,
        }
    }

    pub fn from_index(index: usize) -> (r: PieceType)
        requires
            index <= 3,
        ensures
            r.index() == index,
    {
        match index {
            0 => PieceType::Flat,
            1 => PieceType::Wall,
            2 => PieceType::Cap,
            _ => PieceType::Absent,
        }
    }

    pub fn is_some(&self) -> (r: bool)
        ensures
            r == (*self != PieceType::Absent),
    {
        *self != PieceType::Absent
    }

    pub fn to_index(self) -> (r: usize)
        ensures
            r == self.index(),
    {
        match self {
            PieceType::Flat => 0,
            PieceType::Wall => 1,
            PieceType::Cap => 2,
            PieceType::Absent => 3,
        }
    }

    /// This kind, or `or` where this is `Absent`.
    pub fn some_or(self, or: PieceType) -> (r: PieceType)
        ensures
            r == (if self != PieceType::Absent {
                self
            } else {
                or
            }),
    {
        if self.is_some() {
            self
        } else {
            or
        }
    }
}

impl Piece {
    pub const NUM: usize = 6;

    /// `color + 2 * kind` for a tile, 6 for `Empty`.
    pub open spec fn index(self) -> nat {
        match self {
            Piece::P1Flat => 0,
            Piece::P2Flat => 1,
            Piece::P1Wall => 2,
            Piece::P2Wall => 3,
            Piece::P1Cap => 4,
            Piece::P2Cap => 5,
            Piece::Empty => 6,
        }
    }

    /// The tile of colour `c` and kind `pt`; `Empty` where `pt` is `Absent`.
    pub open spec fn of(c: Color, pt: PieceType) -> Piece {
        match pt {
            PieceType::Flat => if c == Color::P1 { Piece::P1Flat } else { Piece::P2Flat },
            PieceType::Wall => if c == Color::P1 { Piece::P1Wall } else { Piece::P2Wall },
            PieceType::Cap => if c == Color::P1 { Piece::P1Cap } else { Piece::P2Cap },
            PieceType::Absent => Piece::Empty,
        }
    }

    pub open spec fn kind(self) -> PieceType {
        match self {
            Piece::P1Flat | Piece::P2Flat => PieceType::Flat,
            Piece::P1Wall | Piece::P2Wall => PieceType::Wall,
            Piece::P1Cap | Piece::P2Cap => PieceType::Cap,
            Piece::Empty => PieceType::Absent,
        }
    }

    /// The colour of a tile (the first player's for `Empty`).
    pub open spec fn owner(self) -> Color {
        match self {
            Piece::P2Flat | Piece::P2Wall | Piece::P2Cap => Color::P2,
            _ => Color::P1,
        }
    }

    pub fn new(c: Color, pt: PieceType) -> (r: Piece)
        ensures
            r == Piece::of(c, pt),
            pt != PieceType::Absent ==> r.kind() == pt && r.owner() == c,
    {
        if pt == PieceType::Absent {
            Piece::Empty
        } else {
            Piece::from_index(c.to_index() + pt.to_index() * 2)
        }
    }

    pub fn from_index(index: usize) -> (r: Piece)
        requires
            index <= 6,
        ensures
            r.index() == index,
    {
        match index {
            0 => Piece::P1Flat,
            1 => Piece::P2Flat,
            2 => Piece::P1Wall,
            3 => Piece::P2Wall,
            4 => Piece::P1Cap,
            5 => Piece::P2Cap,
            _ => Piece::Empty,
        }
    }

    pub fn to_index(self) -> (r: usize)
        ensures
            r == self.index(),
    {
        match self {
            Piece::P1Flat => 0,
            Piece::P2Flat => 1,
            Piece::P1Wall => 2,
            Piece::P2Wall => 3,
            Piece::P1Cap => 4,
            Piece::P2Cap => 5,
            Piece::Empty => 6,
        }
    }

    pub fn is_some(&self) -> (r: bool)
        ensures
            r == (*self != Piece::Empty),
    {
        *self != Piece::Empty
    }

    pub fn is_none(&self) -> (r: bool)
        ensures
            r == (*self == Piece::Empty),
    {
        *self == Piece::Empty
    }

    pub fn piece_type(&self) -> (r: PieceType)
        ensures
            r == self.kind(),
    {
        PieceType::from_index(self.to_index() / 2)
    }

    pub fn color(&self) -> (r: Color)
        ensures
            r == self.owner(),
    {
        match self {
            Piece::P2Flat | Piece::P2Wall | Piece::P2Cap => Color::P2,
            _ => Color::P1,
        }
    }
}

} // verus!
