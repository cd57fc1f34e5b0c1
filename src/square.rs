use crate::bitboard::Bitboard;
use crate::moves::Dir;
use vstd::prelude::*;

verus! {

/// A square of the 6x6 board, numbered `file + 6 * rank`, or the sentinel `Absent`.
#[derive(Copy, Clone, Debug, PartialEq, Eq, Structural)]
pub enum Square {
    A1, B1, C1, D1, E1, F1,
    A2, B2, C2, D2, E2, F2,
    A3, B3, C3, D3, E3, F3,
    A4, B4, C4, D4, E4, F4,
    A5, B5, C5, D5, E5, F5,
    A6, B6, C6, D6, E6, F6,
    Absent,
}

/// Why a square string could not be read.
#[derive(Copy, Clone, Debug, PartialEq, Eq, Structural)]
pub enum SquareParseError {
    InvalidLength,
    InvalidFile,
    InvalidRank,
}

impl Default for Square {
    fn default() -> (r: Square)
        ensures
            r == Square::Absent,
    {
        Square::Absent
    }
}

impl Square {
    pub const NUM: usize = 36;

    /// The square's number, 36 for the sentinel.
    pub open spec fn index(self) -> nat {
        match self {
            Square::A1 => 0,
            Square::B1 => 1,
            Square::C1 => 2,
            Square::D1 => 3,
            Square::E1 => 4,
            Square::F1 => 5,
            Square::A2 => 6,
            Square::B2 => 7,
            Square::C2 => 8,
            Square::D2 => 9,
            Square::E2 => 10,
            Square::F2 => 11,
            Square::A3 => 12,
            Square::B3 => 13,
            Square::C3 => 14,
            Square::D3 => 15,
            Square::E3 => 16,
            Square::F3 => 17,
            Square::A4 => 18,
            Square::B4 => 19,
            Square::C4 => 20,
            Square::D4 => 21,
            Square::E4 => 22,
            Square::F4 => 23,
            Square::A5 => 24,
            Square::B5 => 25,
            Square::C5 => 26,
            Square::D5 => 27,
            Square::E5 => 28,
            Square::F5 => 29,
            Square::A6 => 30,
            Square::B6 => 31,
            Square::C6 => 32,
            Square::D6 => 33,
            Square::E6 => 34,
            Square::F6 => 35,
            Square::Absent => 36,
        }
    }

    pub open spec fn is_real(self) -> bool {
        self.index() < 36
    }

    pub open spec fn file_of(self) -> nat {
        self.index() % 6
    }

    pub open spec fn rank_of(self) -> nat {
        self.index() / 6
    }

    pub fn new(value: u8) -> (r: Square)
        requires
            value <= 36,
        ensures
            r.index() == value,
    {
        match value {
            0 => Square::A1,
            1 => Square::B1,
            2 => Square::C1,
            3 => Square::D1,
            4 => Square::E1,
            5 => Square::F1,
            6 => Square::A2,
            7 => Square::B2,
            8 => Square::C2,
            9 => Square::D2,
            10 => Square::E2,
            11 => Square::F2,
            12 => Square::A3,
            13 => Square::B3,
            14 => Square::C3,
            15 => Square::D3,
            16 => Square::E3,
            17 => Square::F3,
            18 => Square::A4,
            19 => Square::B4,
            20 => Square::C4,
            21 => Square::D4,
            22 => Square::E4,
            23 => Square::F4,
            24 => Square::A5,
            25 => Square::B5,
            26 => Square::C5,
            27 => Square::D5,
            28 => Square::E5,
            29 => Square::F5,
            30 => Square::A6,
            31 => Square::B6,
            32 => Square::C6,
            33 => Square::D6,
            34 => Square::E6,
            35 => Square::F6,
            _ => Square::Absent,
        }
    }

    pub fn from_file_and_rank(file: usize, rank: usize) -> (r: Square)
        requires
            file < 6,
            rank < 6,
        ensures
            r.index() == file + 6 * rank,
            r.file_of() == file,
            r.rank_of() == rank,
    {
        Square::new((file + rank * 6) as u8)
    }

    pub fn to_file_and_rank(self) -> (r: (usize, usize))
        ensures
            r.0 == self.file_of(),
            r.1 == self.rank_of(),
    {
        (self.file(), self.rank())
    }

    pub fn file(self) -> (r: usize)
        ensures
            r == self.file_of(),
    {
        self.to_index() % 6
    }

    pub fn rank(self) -> (r: usize)
        ensures
            r == self.rank_of(),
    {
        self.to_index() / 6
    }

    pub fn is_none(self) -> (r: bool)
        ensures
            r == (self == Square::Absent),
    {
        self == Square::Absent
    }

    pub fn is_some(self) -> (r: bool)
        ensures
            r == (self != Square::Absent),
            r == self.is_real(),
    {
        self != Square::Absent
    }

    pub fn to_index(self) -> (r: usize)
        ensures
            r == self.index(),
    {
        match self {
            Square::A1 => 0,
            Square::B1 => 1,
            Square::C1 => 2,
            Square::D1 => 3,
            Square::E1 => 4,
            Square::F1 => 5,
            Square::A2 => 6,
            Square::B2 => 7,
            Square::C2 => 8,
            Square::D2 => 9,
            Square::E2 => 10,
            Square::F2 => 11,
            Square::A3 => 12,
            Square::B3 => 13,
            Square::C3 => 14,
            Square::D3 => 15,
            Square::E3 => 16,
            Square::F3 => 17,
            Square::A4 => 18,
            Square::B4 => 19,
            Square::C4 => 20,
            Square::D4 => 21,
            Square::E4 => 22,
            Square::F4 => 23,
            Square::A5 => 24,
            Square::B5 => 25,
            Square::C5 => 26,
            Square::D5 => 27,
            Square::E5 => 28,
            Square::F5 => 29,
            Square::A6 => 30,
            Square::B6 => 31,
            Square::C6 => 32,
            Square::D6 => 33,
            Square::E6 => 34,
            Square::F6 => 35,
            Square::Absent => 36,
        }
    }

    /// The one-square bitboard of a real square.
    pub fn to_bitboard(self) -> (r: Bitboard)
        requires
            self.is_real(),
        ensures
            r.0 == 1u64 << self.index(),
            r.wf(),
    {
        let i = self.to_index() as u64;
        proof {
            crate::bitboard::lemma_single_bit_wf(i);
        }
        Bitboard(1u64 << i)
    }

    /// The neighbouring square in direction `dir`, which must lie on the board.
    pub fn step(self, dir: Dir) -> (r: Square)
        requires
            self.is_real(),
            self.can_step(dir),
        ensures
            r.index() == self.step_index(dir),
    {
        let (file, rank) = self.to_file_and_rank();
        match dir {
            Dir::North => Square::from_file_and_rank(file, rank + 1),
            Dir::South => Square::from_file_and_rank(file, rank - 1),
            Dir::East => Square::from_file_and_rank(file + 1, rank),
            Dir::West => Square::from_file_and_rank(file - 1, rank),
        }
    }

    /// Whether the neighbour in direction `dir` lies on the board.
    pub open spec fn can_step(self, dir: Dir) -> bool {
        match dir {
            Dir::North => self.rank_of() < 5,
            Dir::South => self.rank_of() > 0,
            Dir::East => self.file_of() < 5,
            Dir::West => self.file_of() > 0,
        }
    }

    /// The number of the neighbour in direction `dir`.
    pub open spec fn step_index(self, dir: Dir) -> int {
        match dir {
            Dir::North => self.index() as int + 6,
            Dir::South => self.index() - 6,
            Dir::East => self.index() as int + 1,
            Dir::West => self.index() - 1,
        }
    }
}

} // verus!
