use crate::bitboard::bit;
use crate::color::Color;
use crate::position::{count_ones, ones, Position};
use vstd::prelude::*;

verus! {

/// The squares of rank 6.
pub const NORTH_EDGE: u64 = 0xF_C000_0000;

/// The squares of file f.
pub const EAST_EDGE: u64 = 0x8_2082_0820;

/// The squares of rank 1.
pub const SOUTH_EDGE: u64 = 0x3F;

/// The squares of file a.
pub const WEST_EDGE: u64 = 0x0_4104_1041;

/// Flats added to the second player's count when flats decide the game.
pub const KOMI: u32 = 2;

/// How a finished game ended.
#[derive(Copy, Clone, Debug, PartialEq, Eq, Structural)]
pub enum Terminal {
    P1Won,
    P2Won,
    Draw,
}

impl Terminal {
    /// The winning player, or `None` for a draw.
    pub fn winner(self) -> (r: Option<Color>)
        ensures
            r == match self {
                Terminal::P1Won => Some(Color::P1),
                Terminal::P2Won => Some(Color::P2),
                Terminal::Draw => None,
            },
    {
        match self {
            Terminal::P1Won => Some(Color::P1),
            Terminal::P2Won => Some(Color::P2),
            Terminal::Draw => None,
        }
    }
}

/// One round of growth: the squares of `b` that are in `x` or next to a square of `x`.
pub open spec fn grow(x: u64, b: u64) -> u64 {
    (x | ((x & !EAST_EDGE) << 1u64) | ((x & !WEST_EDGE) >> 1u64) | (x << 6u64) | (x >> 6u64)) & b
}

/// The squares of `b` reached from `start` in `k` rounds of growth.
pub open spec fn reach(b: u64, start: u64, k: nat) -> u64
    decreases k,
{
    if k == 0 {
        start & b
    } else {
        grow(reach(b, start, (k - 1) as nat), b)
    }
}

/// After `k` rounds, what grew from the north edge meets what grew from the south edge,
/// or east meets west.
pub open spec fn meets(b: u64, k: nat) -> bool {
    reach(b, NORTH_EDGE, k) & reach(b, SOUTH_EDGE, k) != 0 || reach(b, EAST_EDGE, k) & reach(
        b,
        WEST_EDGE,
        k,
    ) != 0
}

/// The squares `b` hold a road: a chain of orthogonally adjacent squares of `b` from one
/// edge to the opposite one.
pub open spec fn has_road(b: u64) -> bool {
    exists|k: nat| meets(b, k)
}

/// A round of growth adds to square `i` exactly where `i` is in `b` and `i` or one of its
/// orthogonal neighbours is in `x`.
pub proof fn lemma_grow_neighbours(x: u64, b: u64)
    requires
        x <= 0xF_FFFF_FFFF,
    ensures
        forall|i: u64|
            i < 36 ==> (#[trigger] bit(grow(x, b), i) <==> bit(b, i) && (bit(x, i) || (i % 6 != 0
                && bit(x, (i - 1) as u64)) || (i % 6 != 5 && bit(x, (i + 1) as u64)) || (i >= 6
                && bit(x, (i - 6) as u64)) || (i < 30 && bit(x, (i + 6) as u64)))),
{
    assert(forall|i: u64|
        i < 36 ==> (#[trigger] bit(grow(x, b), i) <==> bit(b, i) && (bit(x, i) || (i % 6 != 0
            && bit(x, (i - 1) as u64)) || (i % 6 != 5 && bit(x, (i + 1) as u64)) || (i >= 6 && bit(
            x,
            (i - 6) as u64,
        )) || (i < 30 && bit(x, (i + 6) as u64))))) by (bit_vector)
        requires
            x <= 0xF_FFFF_FFFF,
    ;
}

/// Growth keeps what it had and stays within `b`.
proof fn lemma_grow_keeps(x: u64, b: u64)
    requires
        x & b == x,
        b <= 0xF_FFFF_FFFF,
    ensures
        grow(x, b) & x == x,
        grow(x, b) & b == grow(x, b),
        grow(x, b) >= x,
        grow(x, b) <= 0xF_FFFF_FFFF,
{
    assert(grow(x, b) & x == x && grow(x, b) & b == grow(x, b) && grow(x, b) >= x && grow(x, b)
        <= 0xF_FFFF_FFFF) by (bit_vector)
        requires
            x & b == x,
            b <= 0xF_FFFF_FFFF,
    ;
}

/// Once growth stops, it stays stopped.
proof fn lemma_fixpoint(b: u64, start: u64, k: nat, j: nat)
    requires
        reach(b, start, k + 1) == reach(b, start, k),
        k <= j,
    ensures
        reach(b, start, j) == reach(b, start, k),
    decreases j - k,
{
    if j > k {
        lemma_fixpoint(b, start, k, (j - 1) as nat);
    }
}

/// The north and south edges share no square, nor do east and west.
proof fn lemma_no_meet_at_start(b: u64)
    ensures
        !meets(b, 0),
{
    assert((NORTH_EDGE & b) & (SOUTH_EDGE & b) == 0 && (EAST_EDGE & b) & (WEST_EDGE & b) == 0)
        by (bit_vector);
}

impl Position {
    /// The squares whose top is a flat or cap of colour `c`.
    pub open spec fn road_bits(self, c: Color) -> u64 {
        (self.tops[0].0 | self.tops[2].0) & self.colors[c.index() as int].0
    }

    /// Whether colour `c` has a road.
    pub fn road_completed(&self, c: Color) -> (r: bool)
        requires
            self.wf(),
        ensures
            r == has_road(self.road_bits(c)),
    {
        let b = self.roads(c).0;
        let t0 = self.tops[0].0;
        let t2 = self.tops[2].0;
        let cb = self.colors[c.to_index()].0;
        assert(b <= 0xF_FFFF_FFFF) by (bit_vector)
            requires
                b == (t0 | t2) & cb,
                cb <= 0xF_FFFF_FFFF,
        ;
        assert(b == self.road_bits(c));
        let mut n = NORTH_EDGE & b;
        let mut e = EAST_EDGE & b;
        let mut s = SOUTH_EDGE & b;
        let mut w = WEST_EDGE & b;
        let ghost mut k: nat = 0;
        proof {
            lemma_no_meet_at_start(b);
            assert(n == reach(b, NORTH_EDGE, 0) && e == reach(b, EAST_EDGE, 0));
            assert(s == reach(b, SOUTH_EDGE, 0) && w == reach(b, WEST_EDGE, 0));
            assert((NORTH_EDGE & b) & b == NORTH_EDGE & b && (EAST_EDGE & b) & b == EAST_EDGE & b
                && (SOUTH_EDGE & b) & b == SOUTH_EDGE & b && (WEST_EDGE & b) & b == WEST_EDGE & b)
                by (bit_vector);
        }
        loop
            invariant
                b <= 0xF_FFFF_FFFF,
                b == self.road_bits(c),
                n == reach(b, NORTH_EDGE, k),
                e == reach(b, EAST_EDGE, k),
                s == reach(b, SOUTH_EDGE, k),
                w == reach(b, WEST_EDGE, k),
                n & b == n && e & b == e && s & b == s && w & b == w,
                forall|j: nat| j <= k ==> !#[trigger] meets(b, j),
            decreases 4 * 0xF_FFFF_FFFFu64 - n - e - s - w,
        {
            proof {
                lemma_grow_keeps(n, b);
                lemma_grow_keeps(e, b);
                lemma_grow_keeps(s, b);
                lemma_grow_keeps(w, b);
            }
            let n2 = (n | ((n & !EAST_EDGE) << 1) | ((n & !WEST_EDGE) >> 1) | (n << 6) | (n >> 6)) & b;
            let e2 = (e | ((e & !EAST_EDGE) << 1) | ((e & !WEST_EDGE) >> 1) | (e << 6) | (e >> 6)) & b;
            let s2 = (s | ((s & !EAST_EDGE) << 1) | ((s & !WEST_EDGE) >> 1) | (s << 6) | (s >> 6)) & b;
            let w2 = (w | ((w & !EAST_EDGE) << 1) | ((w & !WEST_EDGE) >> 1) | (w << 6) | (w >> 6)) & b;
            if n2 == n && e2 == e && s2 == s && w2 == w {
                proof {
                    assert forall|j: nat| !#[trigger] meets(b, j) by {
                        if j > k {
                            lemma_fixpoint(b, NORTH_EDGE, k, j);
                            lemma_fixpoint(b, EAST_EDGE, k, j);
                            lemma_fixpoint(b, SOUTH_EDGE, k, j);
                            lemma_fixpoint(b, WEST_EDGE, k, j);
                            assert(!meets(b, k));
                        }
                    }
                    assert(!has_road(b));
                }
                return false;
            }
            proof {
                k = k + 1;
            }
            if (n2 & s2) != 0 || (e2 & w2) != 0 {
                assert(n2 == reach(b, NORTH_EDGE, k));
                assert(e2 == reach(b, EAST_EDGE, k));
                assert(s2 == reach(b, SOUTH_EDGE, k));
                assert(w2 == reach(b, WEST_EDGE, k));
                assert(meets(b, k));
                assert(has_road(b));
                return true;
            }
            n = n2;
            e = e2;
            s = s2;
            w = w2;
        }
    }

    /// How the game stands: a road wins (the first player's first), then, once a player
    /// has no tile left to place or the board is full, the count of flats on top decides,
    /// with `KOMI` added to the second player's.
    pub open spec fn outcome(self) -> Option<Terminal> {
        if has_road(self.road_bits(Color::P1)) {
            Some(Terminal::P1Won)
        } else if has_road(self.road_bits(Color::P2)) {
            Some(Terminal::P2Won)
        } else if (self.remaining_stones[0] == 0 && self.remaining_caps[0] == 0) || (
        self.remaining_stones[1] == 0 && self.remaining_caps[1] == 0) || (self.colors[0].0
            | self.colors[1].0) == 0xF_FFFF_FFFF {
            let flats1 = ones(self.tops[0].0 & self.colors[0].0);
            let flats2 = ones(self.tops[0].0 & self.colors[1].0);
            if flats1 > flats2 + KOMI {
                Some(Terminal::P1Won)
            } else if flats1 < flats2 + KOMI {
                Some(Terminal::P2Won)
            } else {
                Some(Terminal::Draw)
            }
        } else {
            None
        }
    }

    /// The result of the game, or `None` while it goes on.
    pub fn terminal(&self) -> (r: Option<Terminal>)
        requires
            self.wf(),
        ensures
            r == self.outcome(),
    {
        if self.road_completed(Color::P1) {
            Some(Terminal::P1Won)
        } else if self.road_completed(Color::P2) {
            Some(Terminal::P2Won)
        } else if (self.remaining_stones[0] == 0 && self.remaining_caps[0] == 0) || (
        self.remaining_stones[1] == 0 && self.remaining_caps[1] == 0) || self.occupied().0
            == 0xF_FFFF_FFFF {
            let flats1 = count_ones(self.flats(Color::P1).0);
            let flats2 = count_ones(self.flats(Color::P2).0);
            if flats1 > flats2 + KOMI {
                Some(Terminal::P1Won)
            } else if flats1 < flats2 + KOMI {
                Some(Terminal::P2Won)
            } else {
                Some(Terminal::Draw)
            }
        } else {
            None
        }
    }
}

} // verus!
