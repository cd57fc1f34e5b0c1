use crate::piece::PieceType;
use crate::square::Square;
use vstd::prelude::*;

verus! {

/// A direction along the board: north is up the ranks, east is up the files.
#[derive(Copy, Clone, Debug, PartialEq, Eq, Structural)]
pub enum Dir {
    North,
    East,
    South,
    West,
}

impl Dir {
    pub const NUM: usize = 4;

    pub open spec fn index(self) -> nat {
        match self {
            Dir::North => 0,
            Dir::East => 1,
            Dir::South => 2,
            Dir::West => 3,
        }
    }

    /// The character for this direction in move strings.
    pub open spec fn symbol(self) -> char {
        match self {
            Dir::North => '+',
            Dir::South => '-',
            Dir::East => '>',
            Dir::West => '<',
        }
    }

    pub fn from_index(index: usize) -> (r: Dir)
        requires
            index < 4,
        ensures
            r.index() == index,
    {
        match index {
            0 => Dir::North,
            1 => Dir::East,
            2 => Dir::South,
            _ => Dir::West,
        }
    }

    pub fn to_index(self) -> (r: usize)
        ensures
            r == self.index(),
    {
        match self {
            Dir::North => 0,
            Dir::East => 1,
            Dir::South => 2,
            Dir::West => 3,
        }
    }

    pub fn to_char(self) -> (r: char)
        ensures
            r == self.symbol(),
    {
        match self {
            Dir::North => '+',
            Dir::South => '-',
            Dir::East => '>',
            Dir::West => '<',
        }
    }
}

/// The source square of a move word (bits 0-5).
pub open spec fn word_sq(w: u16) -> nat {
    (w % 64) as nat
}

/// The drop pattern of a move word (bits 6-11); zero for a placement.
pub open spec fn word_splat(w: u16) -> nat {
    ((w / 64) % 64) as nat
}

/// The flag bits of a move word (bits 12-15): `1 + kind` for a placement, the direction
/// for a spread.
pub open spec fn word_flags(w: u16) -> nat {
    (w / 4096) as nat
}

/// A word that encodes a move: a real source square, and a kind of tile for a placement
/// or a direction for a spread.
pub open spec fn valid_word(w: u16) -> bool {
    &&& word_sq(w) < 36
    &&& word_splat(w) == 0 ==> 1 <= word_flags(w) <= 3
    &&& word_splat(w) != 0 ==> word_flags(w) <= 3
}

/// A move packed in 16 bits: source square, drop pattern and flags.
#[derive(Copy, Clone, Debug, PartialEq, Eq, Hash, Structural)]
pub struct Move {
    raw: u16,
}

impl Move {
    #[verifier::type_invariant]
    spec fn inv(self) -> bool {
        valid_word(self.raw)
    }

    /// The 16-bit word of this move.
    pub closed spec fn bits(self) -> u16 {
        self.raw
    }

    pub open spec fn place_word(pt: PieceType, sq: Square) -> nat {
        (pt.index() + 1) * 4096 + sq.index()
    }

    pub open spec fn spread_word(sq: Square, dir: Dir, splat: nat) -> nat {
        dir.index() * 4096 + splat * 64 + sq.index()
    }

    /// The word of a move is below `2^16`.
    pub proof fn lemma_word(self)
        ensures
            (self.bits() as nat) < 0x10000,
    {
    }

    /// Placing a tile of kind `pt` on `sq`.
    pub fn place(pt: PieceType, sq: Square) -> (r: Move)
        requires
            pt != PieceType::Absent,
            sq.is_real(),
        ensures
            r.bits() == Move::place_word(pt, sq),
            word_sq(r.bits()) == sq.index(),
            word_splat(r.bits()) == 0,
            word_flags(r.bits()) == pt.index() + 1,
    {
        let raw = ((pt.to_index() as u16) + 1) * 4096 + sq.to_index() as u16;
        Move { raw }
    }

    /// Spreading from `sq` towards `dir` with drop pattern `splat`.
    pub fn spread(sq: Square, dir: Dir, splat: u8) -> (r: Move)
        requires
            sq.is_real(),
            0 < splat < 64,
        ensures
            r.bits() == Move::spread_word(sq, dir, splat as nat),
            word_sq(r.bits()) == sq.index(),
            word_splat(r.bits()) == splat,
            word_flags(r.bits()) == dir.index(),
    {
        let raw = (dir.to_index() as u16) * 4096 + (splat as u16) * 64 + sq.to_index() as u16;
        Move { raw }
    }

    pub fn raw(self) -> (r: u16)
        ensures
            r == self.bits(),
            valid_word(r),
            r != 0,
    {
        proof {
            use_type_invariant(self);
        }
        self.raw
    }

    pub fn splat(self) -> (r: u8)
        ensures
            r == word_splat(self.bits()),
    {
        ((self.raw / 64) % 64) as u8
    }

    pub fn flags(self) -> (r: u16)
        ensures
            r == word_flags(self.bits()),
    {
        self.raw / 4096
    }

    pub fn is_place(self) -> (r: bool)
        ensures
            r == (word_splat(self.bits()) == 0),
    {
        self.splat() == 0
    }

    pub fn is_spread(self) -> (r: bool)
        ensures
            r == (word_splat(self.bits()) != 0),
    {
        self.splat() != 0
    }

    pub fn sq(self) -> (r: Square)
        ensures
            r.index() == word_sq(self.bits()),
            r.is_real(),
    {
        proof {
            use_type_invariant(self);
        }
        Square::new((self.raw % 64) as u8)
    }

    /// The kind of tile that a placement puts down.
    pub fn piece_type(self) -> (r: PieceType)
        requires
            word_splat(self.bits()) == 0,
        ensures
            r.index() + 1 == word_flags(self.bits()),
            r != PieceType::Absent,
    {
        proof {
            use_type_invariant(self);
        }
        PieceType::from_index((self.flags() - 1) as usize)
    }

    /// The direction of a spread.
    pub fn dir(self) -> (r: Dir)
        requires
            word_splat(self.bits()) != 0,
        ensures
            r.index() == word_flags(self.bits()),
    {
        proof {
            use_type_invariant(self);
        }
        Dir::from_index(self.flags() as usize)
    }
}

} // verus!
