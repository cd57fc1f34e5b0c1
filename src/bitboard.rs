use crate::square::Square;
use vstd::prelude::*;
use vstd::std_specs::bits::{u64_leading_zeros, u64_trailing_zeros};

verus! {

/// The low 36 bits, one for each square.
pub const BOARD_BITS: u64 = 0xF_FFFF_FFFF;

/// Whether bit `i` of `x` is set.
pub open spec fn bit(x: u64, i: u64) -> bool {
    (x >> i) & 1u64 == 1u64
}

/// A set of squares: bit `i` stands for square `i`; bits 36 and up stay clear.
#[derive(Copy, Clone, Debug, PartialEq, Eq, Structural)]
pub struct Bitboard(pub u64);

pub proof fn lemma_single_bit_wf(i: u64)
    requires
        i < 36,
    ensures
        (1u64 << i) <= BOARD_BITS,
        forall|j: u64| j < 64 ==> (#[trigger] bit(1u64 << i, j) <==> j == i),
{
    assert((1u64 << i) <= 0xF_FFFF_FFFFu64 && forall|j: u64|
        j < 64 ==> (#[trigger] bit(1u64 << i, j) <==> j == i))
        by (bit_vector)
        requires
            i < 36,
    ;
}

pub proof fn lemma_zero_bits(j: u64)
    ensures
        0u64 >> j == 0,
        !bit(0u64, j),
{
    assert(0u64 >> j == 0 && (0u64 >> j) & 1u64 != 1u64) by (bit_vector);
}

/// Setting or clearing bit `s` changes no other bit.
pub proof fn lemma_set_clear(x: u64, s: u64)
    requires
        s < 64,
    ensures
        forall|j: u64| j < 64 ==> #[trigger] bit(x | (1u64 << s), j) == (bit(x, j) || j == s),
        forall|j: u64| j < 64 ==> #[trigger] bit(x & !(1u64 << s), j) == (bit(x, j) && j != s),
{
    assert(forall|j: u64| j < 64 ==> #[trigger] bit(x | (1u64 << s), j) == (bit(x, j) || j == s))
        by (bit_vector)
        requires
            s < 64,
    ;
    assert(forall|j: u64| j < 64 ==> #[trigger] bit(x & !(1u64 << s), j) == (bit(x, j) && j != s))
        by (bit_vector)
        requires
            s < 64,
    ;
}

/// The board bits stay within the board after setting or clearing a square's bit.
pub proof fn lemma_set_clear_wf(x: u64, s: u64)
    requires
        s < 36,
        x <= BOARD_BITS,
    ensures
        x | (1u64 << s) <= BOARD_BITS,
        x & !(1u64 << s) <= BOARD_BITS,
{
    assert(x | (1u64 << s) <= 0xF_FFFF_FFFFu64 && x & !(1u64 << s) <= 0xF_FFFF_FFFFu64)
        by (bit_vector)
        requires
            s < 36,
            x <= 0xF_FFFF_FFFFu64,
    ;
}

/// The squares of rank `rank`.
pub proof fn lemma_rank_bits(rank: u64)
    requires
        rank < 6,
    ensures
        0x3Fu64 << (rank * 6) as u64 <= BOARD_BITS,
        forall|i: u64|
            i < 64 ==> (#[trigger] bit(0x3Fu64 << (rank * 6) as u64, i) <==> (i < 36 && i / 6
                == rank)),
{
    let shift = (rank * 6) as u64;
    let x = 0x3Fu64 << shift;
    assert(x <= 0xF_FFFF_FFFFu64 && forall|i: u64|
        i < 64 ==> (#[trigger] bit(x, i) <==> (i < 36 && i / 6 == shift / 6))) by (bit_vector)
        requires
            shift < 36,
            shift % 6 == 0,
            x == 0x3Fu64 << shift,
    ;
}

/// The squares of file `f`.
pub proof fn lemma_file_bits(f: u64)
    requires
        f < 6,
    ensures
        0x0_0041_0410_41u64 << f <= BOARD_BITS,
        forall|i: u64|
            i < 64 ==> (#[trigger] bit(0x0_0041_0410_41u64 << f, i) <==> (i < 36 && i % 6 == f)),
{
    let x = 0x0_0041_0410_41u64 << f;
    assert(x <= 0xF_FFFF_FFFFu64 && forall|i: u64|
        i < 64 ==> (#[trigger] bit(x, i) <==> (i < 36 && i % 6 == f))) by (bit_vector)
        requires
            f < 6,
            x == 0x0_0041_0410_41u64 << f,
    ;
}

/// The squares numbered `s` and up.
pub proof fn lemma_above_bits(s: u64)
    requires
        1 <= s <= 36,
    ensures
        (BOARD_BITS >> s) << s <= BOARD_BITS,
        forall|j: u64| j < 64 ==> (#[trigger] bit((BOARD_BITS >> s) << s, j) <==> (s <= j && j < 36)),
{
    let x = (BOARD_BITS >> s) << s;
    assert(x <= 0xF_FFFF_FFFFu64 && forall|j: u64|
        j < 64 ==> (#[trigger] bit(x, j) <==> (s <= j && j < 36))) by (bit_vector)
        requires
            1 <= s <= 36,
            x == (0xF_FFFF_FFFFu64 >> s) << s,
    ;
}

/// The squares numbered below `s`.
pub proof fn lemma_below_bits(s: u64)
    requires
        s < 36,
    ensures
        1u64 << s >= 1,
        ((1u64 << s) - 1) as u64 <= BOARD_BITS,
        forall|j: u64| j < 64 ==> (#[trigger] bit(((1u64 << s) - 1) as u64, j) <==> j < s),
{
    assert(1u64 << s >= 1) by (bit_vector)
        requires
            s < 36,
    ;
    let x = ((1u64 << s) - 1) as u64;
    assert(x <= 0xF_FFFF_FFFFu64 && forall|j: u64| j < 64 ==> (#[trigger] bit(x, j) <==> j < s))
        by (bit_vector)
        requires
            s < 36,
            x == ((1u64 << s) - 1) as u64,
    ;
}

/// A set of squares is fixed by which of the 36 squares it holds.
pub proof fn lemma_bits_determine(x: u64, y: u64)
    requires
        x <= BOARD_BITS,
        y <= BOARD_BITS,
        forall|j: u64| j < 36 ==> #[trigger] bit(x, j) == bit(y, j),
    ensures
        x == y,
{
    assert(bit(x, 0) == bit(y, 0));
    assert(bit(x, 1) == bit(y, 1));
    assert(bit(x, 2) == bit(y, 2));
    assert(bit(x, 3) == bit(y, 3));
    assert(bit(x, 4) == bit(y, 4));
    assert(bit(x, 5) == bit(y, 5));
    assert(bit(x, 6) == bit(y, 6));
    assert(bit(x, 7) == bit(y, 7));
    assert(bit(x, 8) == bit(y, 8));
    assert(bit(x, 9) == bit(y, 9));
    assert(bit(x, 10) == bit(y, 10));
    assert(bit(x, 11) == bit(y, 11));
    assert(bit(x, 12) == bit(y, 12));
    assert(bit(x, 13) == bit(y, 13));
    assert(bit(x, 14) == bit(y, 14));
    assert(bit(x, 15) == bit(y, 15));
    assert(bit(x, 16) == bit(y, 16));
    assert(bit(x, 17) == bit(y, 17));
    assert(bit(x, 18) == bit(y, 18));
    assert(bit(x, 19) == bit(y, 19));
    assert(bit(x, 20) == bit(y, 20));
    assert(bit(x, 21) == bit(y, 21));
    assert(bit(x, 22) == bit(y, 22));
    assert(bit(x, 23) == bit(y, 23));
    assert(bit(x, 24) == bit(y, 24));
    assert(bit(x, 25) == bit(y, 25));
    assert(bit(x, 26) == bit(y, 26));
    assert(bit(x, 27) == bit(y, 27));
    assert(bit(x, 28) == bit(y, 28));
    assert(bit(x, 29) == bit(y, 29));
    assert(bit(x, 30) == bit(y, 30));
    assert(bit(x, 31) == bit(y, 31));
    assert(bit(x, 32) == bit(y, 32));
    assert(bit(x, 33) == bit(y, 33));
    assert(bit(x, 34) == bit(y, 34));
    assert(bit(x, 35) == bit(y, 35));
    assert((x <= 0xF_FFFF_FFFFu64 && y <= 0xF_FFFF_FFFFu64 && bit(x, 0) == bit(y, 0) && bit(x, 1) == bit(y, 1) && bit(x, 2) == bit(y, 2) && bit(x, 3) == bit(y, 3) && bit(x, 4) == bit(y, 4) && bit(x, 5) == bit(y, 5) && bit(x, 6) == bit(y, 6) && bit(x, 7) == bit(y, 7) && bit(x, 8) == bit(y, 8) && bit(x, 9) == bit(y, 9) && bit(x, 10) == bit(y, 10) && bit(x, 11) == bit(y, 11) && bit(x, 12) == bit(y, 12) && bit(x, 13) == bit(y, 13) && bit(x, 14) == bit(y, 14) && bit(x, 15) == bit(y, 15) && bit(x, 16) == bit(y, 16) && bit(x, 17) == bit(y, 17) && bit(x, 18) == bit(y, 18) && bit(x, 19) == bit(y, 19) && bit(x, 20) == bit(y, 20) && bit(x, 21) == bit(y, 21) && bit(x, 22) == bit(y, 22) && bit(x, 23) == bit(y, 23) && bit(x, 24) == bit(y, 24) && bit(x, 25) == bit(y, 25) && bit(x, 26) == bit(y, 26) && bit(x, 27) == bit(y, 27) && bit(x, 28) == bit(y, 28) && bit(x, 29) == bit(y, 29) && bit(x, 30) == bit(y, 30) && bit(x, 31) == bit(y, 31) && bit(x, 32) == bit(y, 32) && bit(x, 33) == bit(y, 33) && bit(x, 34) == bit(y, 34) && bit(x, 35) == bit(y, 35)) ==> x == y)
        by (bit_vector);
}

pub proof fn lemma_low_bit(x: u64)
    ensures
        (x & 1u64) != 0u64 ==> (x & 1u64) == 1u64,
{
    assert((x & 1u64) != 0u64 ==> (x & 1u64) == 1u64) by (bit_vector);
}

pub proof fn lemma_and_bits(x: u64, y: u64, j: u64)
    requires
        j < 64,
    ensures
        bit(x & y, j) == (bit(x, j) && bit(y, j)),
{
    assert(bit(x & y, j) == (bit(x, j) && bit(y, j))) by (bit_vector)
        requires
            j < 64,
    ;
}

pub proof fn lemma_or_bits(x: u64, y: u64, j: u64)
    requires
        j < 64,
    ensures
        bit(x | y, j) == (bit(x, j) || bit(y, j)),
{
    assert(bit(x | y, j) == (bit(x, j) || bit(y, j))) by (bit_vector)
        requires
            j < 64,
    ;
}

impl Default for Bitboard {
    fn default() -> (r: Bitboard)
        ensures
            r.0 == 0,
    {
        Bitboard(0)
    }
}

impl Bitboard {
    /// No bit at or above 36 is set.
    pub open spec fn wf(self) -> bool {
        self.0 <= BOARD_BITS
    }

    /// Whether square number `i` is in the set.
    pub open spec fn has(self, i: int) -> bool {
        0 <= i < 64 && bit(self.0, i as u64)
    }

    /// Every square of one rank (row).
    pub fn rank_mask(rank: usize) -> (r: Bitboard)
        requires
            rank < 6,
        ensures
            r.wf(),
            r.0 == 0x3Fu64 << (rank * 6) as u64,
            forall|i: u64| i < 64 ==> (#[trigger] bit(r.0, i) <==> (i < 36 && i / 6 == rank)),
    {
        let shift = (rank * 6) as u64;
        proof {
            lemma_rank_bits(rank as u64);
        }
        Bitboard(0x3Fu64 << shift)
    }

    /// Every square of one file (column).
    pub fn file_mask(file: usize) -> (r: Bitboard)
        requires
            file < 6,
        ensures
            r.wf(),
            r.0 == 0x0_0041_0410_41u64 << file as u64,
            forall|i: u64| i < 64 ==> (#[trigger] bit(r.0, i) <==> (i < 36 && i % 6 == file)),
    {
        let f = file as u64;
        proof {
            lemma_file_bits(f);
        }
        Bitboard(0x0_0041_0410_41u64 << f)
    }

    pub fn set(&mut self, sq: Square)
        requires
            sq.is_real(),
        ensures
            final(self).0 == old(self).0 | (1u64 << sq.index()),
            old(self).wf() ==> final(self).wf(),
    {
        let y = sq.to_bitboard().0;
        let x = self.0;
        assert(x <= 0xF_FFFF_FFFFu64 && y <= 0xF_FFFF_FFFFu64 ==> (x | y) <= 0xF_FFFF_FFFFu64)
            by (bit_vector);
        self.0 = x | y;
    }

    pub fn unset(&mut self, sq: Square)
        requires
            sq.is_real(),
        ensures
            final(self).0 == old(self).0 & !(1u64 << sq.index()) & BOARD_BITS,
            final(self).wf(),
    {
        let y = sq.to_bitboard().0;
        let x = self.0;
        assert((x & !y) & 0xF_FFFF_FFFFu64 <= 0xF_FFFF_FFFFu64) by (bit_vector);
        self.0 = x & !y & BOARD_BITS;
    }

    pub fn get(self, sq: Square) -> (r: bool)
        requires
            sq.is_real(),
        ensures
            r == bit(self.0, sq.index() as u64),
    {
        let y = sq.to_bitboard().0;
        let x = self.0;
        let i = sq.to_index() as u64;
        assert(i < 64 && y == 1u64 << i ==> (((x & y) != 0) == (((x >> i) & 1u64) == 1u64)))
            by (bit_vector);
        (x & y) != 0
    }

    /// This set with square `sq` put in (`on`) or taken out.
    pub fn with(self, sq: Square, on: bool) -> (r: Bitboard)
        requires
            sq.is_real(),
            self.wf(),
        ensures
            r.wf(),
            forall|j: u64| j < 64 ==> #[trigger] bit(r.0, j) == if j == sq.index() {
                on
            } else {
                bit(self.0, j)
            },
    {
        let y = sq.to_bitboard().0;
        let s = sq.to_index() as u64;
        proof {
            lemma_set_clear(self.0, s);
            lemma_set_clear_wf(self.0, s);
        }
        if on {
            Bitboard(self.0 | y)
        } else {
            Bitboard(self.0 & !y)
        }
    }

    /// The squares numbered above `sq`.
    pub fn above(sq: Square) -> (r: Bitboard)
        requires
            sq.is_real(),
        ensures
            r.wf(),
            r.0 == (BOARD_BITS >> (sq.index() + 1) as u64) << (sq.index() + 1) as u64,
            forall|j: u64| j < 64 ==> (#[trigger] bit(r.0, j) <==> (sq.index() < j && j < 36)),
    {
        let s = sq.to_index() as u64 + 1;
        proof {
            lemma_above_bits(s);
        }
        Bitboard((BOARD_BITS >> s) << s)
    }

    /// The squares numbered below `sq`.
    pub fn below(sq: Square) -> (r: Bitboard)
        requires
            sq.is_real(),
        ensures
            r.wf(),
            r.0 == ((1u64 << sq.index() as u64) - 1) as u64,
            forall|j: u64| j < 64 ==> (#[trigger] bit(r.0, j) <==> j < sq.index()),
    {
        let s = sq.to_index() as u64;
        proof {
            lemma_below_bits(s);
        }
        Bitboard((1u64 << s) - 1)
    }

    pub fn is_some(self) -> (r: bool)
        ensures
            r == (self.0 != 0),
    {
        self.0 != 0
    }

    pub fn is_empty(self) -> (r: bool)
        ensures
            r == (self.0 == 0),
    {
        self.0 == 0
    }

    /// The lowest square in the set, or `Absent` for the empty set.
    pub fn lsb(self) -> (r: Square)
        requires
            self.wf(),
        ensures
            self.0 == 0 ==> r == Square::Absent,
            self.0 != 0 ==> r.index() == u64_trailing_zeros(self.0) && r.is_real(),
            self.0 != 0 ==> bit(self.0, r.index() as u64),
            self.0 != 0 ==> forall|j: u64| j < r.index() ==> !#[trigger] bit(self.0, j),
    {
        broadcast use vstd::std_specs::bits::axiom_u64_trailing_zeros;

        if self.0 == 0 {
            Square::Absent
        } else {
            let x = self.0;
            let t = x.trailing_zeros();
            assert(x != 0 && x <= 0xF_FFFF_FFFFu64 && ((x >> t as u64) & 1u64) == 1u64 ==> t < 36)
                by (bit_vector);
            Square::new(t as u8)
        }
    }

    /// The highest square in the set, or `Absent` for the empty set.
    pub fn msb(self) -> (r: Square)
        requires
            self.wf(),
        ensures
            self.0 == 0 ==> r == Square::Absent,
            self.0 != 0 ==> r.index() == 63 - u64_leading_zeros(self.0) && r.is_real(),
            self.0 != 0 ==> bit(self.0, r.index() as u64),
            self.0 != 0 ==> forall|j: u64| r.index() < j < 64 ==> !#[trigger] bit(self.0, j),
    {
        broadcast use vstd::std_specs::bits::axiom_u64_leading_zeros;

        if self.0 == 0 {
            Square::Absent
        } else {
            let x = self.0;
            let z = x.leading_zeros();
            let t: u64 = (63 - z) as u64;
            assert((x >> t) & 1u64 != 0u64);
            assert(x <= 0xF_FFFF_FFFFu64 && (x >> t) & 1u64 != 0u64 && t < 64 ==> t < 36 && (x
                >> t) & 1u64 == 1u64) by (bit_vector);
            Square::new((63 - z) as u8)
        }
    }

    /// The squares outside the set.
    pub fn complement(self) -> (r: Bitboard)
        ensures
            r.0 == !self.0 & BOARD_BITS,
            r.wf(),
            forall|i: u64| i < 64 ==> (#[trigger] bit(r.0, i) <==> (i < 36 && !bit(self.0, i))),
    {
        let x = self.0;
        assert((!x & 0xF_FFFF_FFFFu64) <= 0xF_FFFF_FFFFu64 && forall|i: u64|
            i < 64 ==> (#[trigger] bit(!x & 0xF_FFFF_FFFFu64, i) <==> (i < 36
                && !((x >> i) & 1u64 == 1u64)))) by (bit_vector);
        Bitboard(!x & BOARD_BITS)
    }

    pub fn union(self, o: Bitboard) -> (r: Bitboard)
        ensures
            r.0 == self.0 | o.0,
            self.wf() && o.wf() ==> r.wf(),
            forall|i: u64| i < 64 ==> (#[trigger] bit(r.0, i) <==> (bit(self.0, i) || bit(o.0, i))),
    {
        let (x, y) = (self.0, o.0);
        assert(((x <= 0xF_FFFF_FFFFu64 && y <= 0xF_FFFF_FFFFu64) ==> (x | y) <= 0xF_FFFF_FFFFu64)
            && forall|i: u64|
            i < 64 ==> (#[trigger] bit(x | y, i) <==> (((x >> i) & 1u64 == 1u64)
                || ((y >> i) & 1u64 == 1u64)))) by (bit_vector);
        Bitboard(x | y)
    }

    pub fn intersection(self, o: Bitboard) -> (r: Bitboard)
        ensures
            r.0 == self.0 & o.0,
            self.wf() || o.wf() ==> r.wf(),
            forall|i: u64| i < 64 ==> (#[trigger] bit(r.0, i) <==> (bit(self.0, i) && bit(o.0, i))),
    {
        let (x, y) = (self.0, o.0);
        assert(((x <= 0xF_FFFF_FFFFu64 || y <= 0xF_FFFF_FFFFu64) ==> (x & y) <= 0xF_FFFF_FFFFu64)
            && forall|i: u64|
            i < 64 ==> (#[trigger] bit(x & y, i) <==> (((x >> i) & 1u64 == 1u64)
                && ((y >> i) & 1u64 == 1u64)))) by (bit_vector);
        Bitboard(x & y)
    }
}

} // verus!
