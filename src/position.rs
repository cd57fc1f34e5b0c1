use crate::bitboard::{bit, Bitboard, BOARD_BITS};
use crate::color::Color;
use crate::piece::{Piece, PieceType};
use crate::square::Square;
use vstd::prelude::*;
use vstd::std_specs::bits::u64_leading_zeros;

verus! {

/// Flat stones (walls included) that each player starts with.
pub const STARTING_STONES: u8 = 30;

/// Capstones that each player starts with.
pub const STARTING_CAPS: u8 = 1;

/// Sum of the first `n` entries of `s`.
pub open spec fn sum_u8(s: Seq<u8>, n: int) -> int
    decreases n,
{
    if n <= 0 {
        0
    } else {
        sum_u8(s, n - 1) + s[n - 1]
    }
}

/// Number of set bits of `w`.
pub open spec fn ones(w: u64) -> nat
    decreases w,
{
    if w == 0 {
        0
    } else {
        ones(w / 2) + (w % 2) as nat
    }
}

/// Number of set bits of `w`.
pub fn count_ones(w: u64) -> (r: u32)
    ensures
        r == ones(w),
        r <= 64,
{
    let mut x = w;
    let mut c: u32 = 0;
    while x != 0
        invariant
            c + ones(x) == ones(w),
            c + (64 - u64_leading_zeros(x)) <= 64,
        decreases x,
    {
        proof {
            lemma_shift_halves(x);
        }
        c += (x & 1) as u32;
        x = x >> 1;
    }
    c
}

pub proof fn lemma_shift_halves(x: u64)
    requires
        x != 0,
    ensures
        x >> 1 == x / 2,
        x & 1 == x % 2,
        64 - u64_leading_zeros(x >> 1) + 1 == 64 - u64_leading_zeros(x),
{
    assert(x >> 1 == x / 2) by (bit_vector);
    assert(x & 1 == x % 2) by (bit_vector);
    reveal(u64_leading_zeros);
    assert(u64_leading_zeros(x) == u64_leading_zeros(x / 2) - 1);
}

/// Shifting a stack word up by one tile and putting tile `b` on top.
pub proof fn lemma_ones_push(w: u64, b: u64, h: u64)
    requires
        w >> h == 0,
        h < 62,
        b < 2,
    ensures
        ((w << 1u64) | b) >> (h + 1) as u64 == 0,
        ones((w << 1u64) | b) == ones(w) + b,
        ((w << 1u64) | b) % 2 == b,
{
    assert(((w << 1u64) | b) == 2 * w + b && ((w << 1u64) | b) >> (h + 1) as u64 == 0)
        by (bit_vector)
        requires
            w >> h == 0,
            h < 62,
            b < 2,
    ;
    let y = (w << 1u64) | b;
    assert(y / 2 == w);
    assert(y % 2 == b);
}

/// An empty square's stack word is zero.
pub proof fn lemma_empty_word(w: u64)
    requires
        w >> 0u64 == 0,
    ensures
        w == 0,
        ones(w) == 0,
{
    assert(w >> 0u64 == w) by (bit_vector);
}

/// A word's set bits are its lowest bit's and those of the rest.
pub proof fn lemma_ones_step(x: u64)
    ensures
        ones(x) == x % 2 + ones(x / 2),
{
}

/// A word's set bits are those at and above bit `b` and those below it.
pub proof fn lemma_ones_split(x: u64, b: u64)
    requires
        b < 64,
    ensures
        ones(x) == ones(x >> b) + ones(x & ((1u64 << b) - 1) as u64),
    decreases b,
{
    if b == 0 {
        assert(x >> 0u64 == x && x & ((1u64 << 0u64) - 1) as u64 == 0) by (bit_vector);
    } else {
        lemma_ones_split(x / 2, (b - 1) as u64);
        let m = ((1u64 << b) - 1) as u64;
        let m1 = ((1u64 << (b - 1) as u64) - 1) as u64;
        assert(x >> b == (x / 2) >> (b - 1) as u64 && (x & m) / 2 == (x / 2) & m1 && (x & m) % 2
            == x % 2) by (bit_vector)
            requires
                1 <= b < 64,
                m == ((1u64 << b) - 1) as u64,
                m1 == ((1u64 << (b - 1) as u64) - 1) as u64,
        ;
        lemma_ones_step(x);
        lemma_ones_step(x & m);
    }
}

/// Changing one stack word changes the count of second-player tiles by the difference.
pub proof fn lemma_tiles_update(s: Seq<u64>, n: int, i: int, v: u64)
    requires
        0 <= i < n <= s.len(),
    ensures
        p2_tiles(s.update(i, v), n) == p2_tiles(s, n) - ones(s[i]) + ones(v),
    decreases n,
{
    if n - 1 > i {
        lemma_tiles_update(s, n - 1, i, v);
    } else {
        lemma_tiles_same(s, s.update(i, v), n - 1);
    }
}

pub proof fn lemma_tiles_same(s: Seq<u64>, t: Seq<u64>, n: int)
    requires
        0 <= n <= s.len(),
        n <= t.len(),
        forall|k: int| 0 <= k < n ==> s[k] == t[k],
    ensures
        p2_tiles(s, n) == p2_tiles(t, n),
    decreases n,
{
    if n > 0 {
        lemma_tiles_same(s, t, n - 1);
    }
}

/// A sum of entries of at most 62 is at most 62 for each.
pub proof fn lemma_sum_le(s: Seq<u8>, n: int)
    requires
        0 <= n <= s.len(),
        forall|k: int| 0 <= k < n ==> s[k] <= 62,
    ensures
        sum_u8(s, n) <= 62 * n,
    decreases n,
{
    if n > 0 {
        lemma_sum_le(s, n - 1);
    }
}

/// Number of tiles of the second player among the `n` first squares.
pub open spec fn p2_tiles(stacks: Seq<u64>, n: int) -> int
    decreases n,
{
    if n <= 0 {
        0
    } else {
        p2_tiles(stacks, n - 1) + ones(stacks[n - 1])
    }
}

/// Number of the first `n` squares whose top tile is the capstone of colour `c`.
pub open spec fn cap_count(mailbox: Seq<Piece>, c: Color, n: int) -> int
    decreases n,
{
    if n <= 0 {
        0
    } else {
        cap_count(mailbox, c, n - 1) + if mailbox[n - 1] == Piece::of(c, PieceType::Cap) {
            1int
        } else {
            0int
        }
    }
}

/// Changing one top tile changes the count of a colour's capstones by the difference.
pub proof fn lemma_caps_update(s: Seq<Piece>, c: Color, n: int, i: int, v: Piece)
    requires
        0 <= i < n <= s.len(),
    ensures
        cap_count(s.update(i, v), c, n) == cap_count(s, c, n) - (if s[i] == Piece::of(
            c,
            PieceType::Cap,
        ) {
            1int
        } else {
            0int
        }) + (if v == Piece::of(c, PieceType::Cap) {
            1int
        } else {
            0int
        }),
    decreases n,
{
    if n - 1 > i {
        lemma_caps_update(s, c, n - 1, i, v);
    } else {
        lemma_caps_same(s, s.update(i, v), c, n - 1);
    }
}

pub proof fn lemma_caps_same(s: Seq<Piece>, t: Seq<Piece>, c: Color, n: int)
    requires
        0 <= n <= s.len(),
        n <= t.len(),
        forall|k: int| 0 <= k < n ==> s[k] == t[k],
    ensures
        cap_count(s, c, n) == cap_count(t, c, n),
    decreases n,
{
    if n > 0 {
        lemma_caps_same(s, t, c, n - 1);
    }
}

/// With every square empty there is no capstone on top.
pub proof fn lemma_caps_none(s: Seq<Piece>, c: Color, n: int)
    requires
        0 <= n <= s.len(),
        forall|k: int| 0 <= k < n ==> s[k] == Piece::Empty,
    ensures
        cap_count(s, c, n) == 0,
    decreases n,
{
    if n > 0 {
        lemma_caps_none(s, c, n - 1);
    }
}

/// The board and everything derived from it.
///
/// `stacks[s]` holds the colours of the tiles on square `s`, top tile in bit 0 and a set
/// bit for the second player; `heights[s]` counts them. `mailbox[s]` is the top tile,
/// which the colour bitboards and the bitboards of top kinds (flat, wall, cap) repeat.
#[derive(Copy, Clone, Debug)]
pub struct Position {
    pub stm: Color,
    pub ply: u16,
    pub colors: [Bitboard; 2],
    pub tops: [Bitboard; 3],
    pub mailbox: [Piece; 36],
    pub stacks: [u64; 36],
    pub heights: [u8; 36],
    pub remaining_stones: [u8; 2],
    pub remaining_caps: [u8; 2],
}

impl Position {
    /// What holds of square `i`: the stack word has nothing above the stack's height, the
    /// square is empty exactly where the height is zero, and the top tile agrees with the
    /// stack word's bit 0, with one colour bitboard and with one bitboard of top kinds.
    pub open spec fn square_wf(self, i: int) -> bool {
        self.stack_wf(i) && self.bits_agree(i)
    }

    /// The stack word of square `i` agrees with its height and its top tile.
    pub open spec fn stack_wf(self, i: int) -> bool {
        let h = self.heights[i];
        let w = self.stacks[i];
        let p = self.mailbox[i];
        &&& h < 63
        &&& w >> (h as u64) == 0
        &&& (h == 0) == (p == Piece::Empty)
        &&& p != Piece::Empty ==> p.owner().index() == w % 2
    }

    /// The colour bitboards and the bitboards of top kinds agree with the top tile of
    /// square `i`.
    pub open spec fn bits_agree(self, i: int) -> bool {
        let p = self.mailbox[i];
        &&& bit(self.colors[0].0, i as u64) == (p != Piece::Empty && p.owner() == Color::P1)
        &&& bit(self.colors[1].0, i as u64) == (p != Piece::Empty && p.owner() == Color::P2)
        &&& bit(self.tops[0].0, i as u64) == (p.kind() == PieceType::Flat)
        &&& bit(self.tops[1].0, i as u64) == (p.kind() == PieceType::Wall)
        &&& bit(self.tops[2].0, i as u64) == (p.kind() == PieceType::Cap)
    }

    /// The tiles on the board and in both reserves number 62, the starting stock.
    pub open spec fn stock_total(self) -> int {
        sum_u8(self.heights@, 36) + self.remaining_stones[0] + self.remaining_stones[1]
            + self.remaining_caps[0] + self.remaining_caps[1]
    }

    /// The invariant that every position of the engine keeps.
    pub open spec fn wf(self) -> bool {
        self.board_wf() && self.stock_total() == 62
    }

    /// The invariant, but for the count of tiles.
    pub open spec fn board_wf(self) -> bool {
        &&& forall|i: int| 0 <= i < 36 ==> #[trigger] self.square_wf(i)
        &&& self.colors[0].wf() && self.colors[1].wf()
        &&& self.tops[0].wf() && self.tops[1].wf() && self.tops[2].wf()
        &&& self.remaining_stones[0] <= STARTING_STONES
        &&& self.remaining_stones[1] <= STARTING_STONES
        &&& self.remaining_caps[0] <= STARTING_CAPS
        &&& self.remaining_caps[1] <= STARTING_CAPS
    }

    /// Each player's tiles on the board and in reserve make up the starting stock, and
    /// each player's capstone is either on top of a stack or in reserve (the number of
    /// squares topped by it is the count of that player's caps on top).
    pub open spec fn stock_wf(self) -> bool {
        let tiles2 = p2_tiles(self.stacks@, 36);
        let tiles1 = sum_u8(self.heights@, 36) - tiles2;
        let caps1 = cap_count(self.mailbox@, Color::P1, 36);
        let caps2 = cap_count(self.mailbox@, Color::P2, 36);
        &&& tiles1 + self.remaining_stones[0] + self.remaining_caps[0] == 31
        &&& tiles2 + self.remaining_stones[1] + self.remaining_caps[1] == 31
        &&& caps1 + self.remaining_caps[0] == 1
        &&& caps2 + self.remaining_caps[1] == 1
    }

    /// The empty board with full reserves, first player to move.
    pub open spec fn is_start(self) -> bool {
        &&& self.stm == Color::P1
        &&& self.ply == 0
        &&& self.colors[0].0 == 0 && self.colors[1].0 == 0
        &&& self.tops[0].0 == 0 && self.tops[1].0 == 0 && self.tops[2].0 == 0
        &&& forall|i: int|
            0 <= i < 36 ==> #[trigger] self.mailbox[i] == Piece::Empty && self.stacks[i] == 0
                && self.heights[i] == 0
        &&& self.remaining_stones[0] == STARTING_STONES
        &&& self.remaining_stones[1] == STARTING_STONES
        &&& self.remaining_caps[0] == STARTING_CAPS
        &&& self.remaining_caps[1] == STARTING_CAPS
    }

    pub fn is_empty(&self, sq: Square) -> (r: bool)
        requires
            sq.is_real(),
        ensures
            r == (self.mailbox[sq.index() as int] == Piece::Empty),
    {
        self.mailbox[sq.to_index()].is_none()
    }

    /// The squares with a tile on them.
    pub fn occupied(&self) -> (r: Bitboard)
        ensures
            r.0 == self.colors[0].0 | self.colors[1].0,
    {
        self.colors[0].union(self.colors[1])
    }

    pub fn piece_on(&self, sq: Square) -> (r: Piece)
        requires
            sq.is_real(),
        ensures
            r == self.mailbox[sq.index() as int],
    {
        self.mailbox[sq.to_index()]
    }

    pub fn height(&self, sq: Square) -> (r: u8)
        requires
            sq.is_real(),
        ensures
            r == self.heights[sq.index() as int],
    {
        self.heights[sq.to_index()]
    }

    /// The squares whose top tile has colour `c`.
    pub fn color(&self, c: Color) -> (r: Bitboard)
        ensures
            r == self.colors[c.index() as int],
    {
        self.colors[c.to_index()]
    }

    pub fn all_flats(&self) -> (r: Bitboard)
        ensures
            r == self.tops[0],
    {
        self.tops[PieceType::Flat.to_index()]
    }

    pub fn all_walls(&self) -> (r: Bitboard)
        ensures
            r == self.tops[1],
    {
        self.tops[PieceType::Wall.to_index()]
    }

    pub fn all_caps(&self) -> (r: Bitboard)
        ensures
            r == self.tops[2],
    {
        self.tops[PieceType::Cap.to_index()]
    }

    /// Walls and caps: the tiles that stop a spread.
    pub fn all_royals(&self) -> (r: Bitboard)
        ensures
            r.0 == self.tops[1].0 | self.tops[2].0,
    {
        self.all_walls().union(self.all_caps())
    }

    /// Flats and caps: the tiles that make up roads.
    pub fn all_roads(&self) -> (r: Bitboard)
        ensures
            r.0 == self.tops[0].0 | self.tops[2].0,
    {
        self.all_flats().union(self.all_caps())
    }

    pub fn flats(&self, c: Color) -> (r: Bitboard)
        ensures
            r.0 == self.tops[0].0 & self.colors[c.index() as int].0,
    {
        self.all_flats().intersection(self.color(c))
    }

    pub fn caps(&self, c: Color) -> (r: Bitboard)
        ensures
            r.0 == self.tops[2].0 & self.colors[c.index() as int].0,
    {
        self.all_caps().intersection(self.color(c))
    }

    pub fn roads(&self, c: Color) -> (r: Bitboard)
        ensures
            r.0 == (self.tops[0].0 | self.tops[2].0) & self.colors[c.index() as int].0,
    {
        self.all_roads().intersection(self.color(c))
    }
}

impl Position {
    /// Puts `p` on top of square `sq` in the mailbox and in every bitboard, leaving the
    /// other squares and the stacks as they are.
    pub fn set_top(&mut self, sq: Square, p: Piece)
        requires
            sq.is_real(),
            old(self).colors[0].wf() && old(self).colors[1].wf(),
            old(self).tops[0].wf() && old(self).tops[1].wf() && old(self).tops[2].wf(),
        ensures
            final(self).mailbox@ == old(self).mailbox@.update(sq.index() as int, p),
            final(self).stacks == old(self).stacks,
            final(self).heights == old(self).heights,
            final(self).stm == old(self).stm,
            final(self).ply == old(self).ply,
            final(self).remaining_stones == old(self).remaining_stones,
            final(self).remaining_caps == old(self).remaining_caps,
            final(self).colors[0].wf() && final(self).colors[1].wf(),
            final(self).tops[0].wf() && final(self).tops[1].wf() && final(self).tops[2].wf(),
            final(self).bits_agree(sq.index() as int),
            forall|j: int|
                0 <= j < 36 && j != sq.index() ==> (#[trigger] final(self).bits_agree(j)
                    == old(self).bits_agree(j)),
    {
        let i = sq.to_index();
        let some = p.is_some();
        let c = p.color();
        let pt = p.piece_type();
        self.mailbox[i] = p;
        self.colors[0] = self.colors[0].with(sq, some && c == Color::P1);
        self.colors[1] = self.colors[1].with(sq, some && c == Color::P2);
        self.tops[0] = self.tops[0].with(sq, pt == PieceType::Flat);
        self.tops[1] = self.tops[1].with(sq, pt == PieceType::Wall);
        self.tops[2] = self.tops[2].with(sq, pt == PieceType::Cap);
    }

    /// Whether square `i` satisfies its part of the invariant.
    fn square_ok(&self, i: usize) -> (r: bool)
        requires
            i < 36,
        ensures
            r == self.square_wf(i as int),
    {
        let sq = Square::new(i as u8);
        let h = self.heights[i];
        let w = self.stacks[i];
        let p = self.mailbox[i];
        if h >= 63 || (w >> (h as u64)) != 0 || (h == 0) != p.is_none() {
            return false;
        }
        if p.is_some() && p.color().to_index() as u64 != w % 2 {
            return false;
        }
        let some = p.is_some();
        let c = p.color();
        let pt = p.piece_type();
        self.colors[0].get(sq) == (some && c == Color::P1) && self.colors[1].get(sq) == (some && c
            == Color::P2) && self.tops[0].get(sq) == (pt == PieceType::Flat) && self.tops[1].get(sq)
            == (pt == PieceType::Wall) && self.tops[2].get(sq) == (pt == PieceType::Cap)
    }

    /// Checks every invariant of the position, the per-player stock included.
    pub fn verify(&self) -> (r: bool)
        ensures
            r == (self.wf() && self.stock_wf()),
    {
        if !(self.colors[0].0 <= BOARD_BITS && self.colors[1].0 <= BOARD_BITS) {
            return false;
        }
        if !(self.tops[0].0 <= BOARD_BITS && self.tops[1].0 <= BOARD_BITS && self.tops[2].0
            <= BOARD_BITS) {
            return false;
        }
        if self.remaining_stones[0] > STARTING_STONES || self.remaining_stones[1] > STARTING_STONES
            || self.remaining_caps[0] > STARTING_CAPS || self.remaining_caps[1] > STARTING_CAPS {
            return false;
        }
        let mut i: usize = 0;
        let mut total: u64 = 0;
        let mut tiles2: u64 = 0;
        let mut caps1: u64 = 0;
        let mut caps2: u64 = 0;
        while i < 36
            invariant
                i <= 36,
                forall|j: int| 0 <= j < i ==> #[trigger] self.square_wf(j),
                total == sum_u8(self.heights@, i as int),
                tiles2 == p2_tiles(self.stacks@, i as int),
                caps1 == cap_count(self.mailbox@, Color::P1, i as int),
                caps2 == cap_count(self.mailbox@, Color::P2, i as int),
                total <= 255 * i,
                tiles2 <= 64 * i,
                caps1 <= i && caps2 <= i,
            decreases 36 - i,
        {
            if !self.square_ok(i) {
                return false;
            }
            total += self.heights[i] as u64;
            tiles2 += count_ones(self.stacks[i]) as u64;
            if self.mailbox[i] == Piece::P1Cap {
                caps1 += 1;
            } else if self.mailbox[i] == Piece::P2Cap {
                caps2 += 1;
            }
            i += 1;
        }
        let reserves = self.remaining_stones[0] as u64 + self.remaining_stones[1] as u64
            + self.remaining_caps[0] as u64 + self.remaining_caps[1] as u64;
        if total + reserves != 62 {
            return false;
        }
        if tiles2 > total {
            return false;
        }
        let tiles1 = total - tiles2;
        tiles1 + self.remaining_stones[0] as u64 + self.remaining_caps[0] as u64 == 31 && tiles2
            + self.remaining_stones[1] as u64 + self.remaining_caps[1] as u64 == 31 && caps1
            + self.remaining_caps[0] as u64 == 1 && caps2 + self.remaining_caps[1] as u64 == 1
    }
}

/// The starting position.
pub open spec fn start_position() -> Position {
    choose|p: Position| #[trigger] p.is_start()
}

/// No stack word holds a second-player tile.
pub proof fn lemma_tiles_zero(s: Seq<u64>, n: int)
    requires
        0 <= n <= s.len(),
        forall|k: int| 0 <= k < n ==> s[k] == 0,
    ensures
        p2_tiles(s, n) == 0,
    decreases n,
{
    if n > 0 {
        lemma_tiles_zero(s, n - 1);
    }
}

/// There is one starting position.
pub proof fn lemma_start_unique(a: Position, b: Position)
    requires
        a.is_start(),
        b.is_start(),
    ensures
        a == b,
{
    broadcast use vstd::array::group_array_axioms;

    assert forall|i: int| 0 <= i < 36 implies a.mailbox[i] == b.mailbox[i] && a.stacks[i]
        == b.stacks[i] && a.heights[i] == b.heights[i] by {
        assert(a.mailbox[i] == Piece::Empty);
        assert(b.mailbox[i] == Piece::Empty);
    }
    assert(a.colors[0] == b.colors[0] && a.colors[1] == b.colors[1]);
    assert(a.tops[0] == b.tops[0] && a.tops[1] == b.tops[1] && a.tops[2] == b.tops[2]);
    assert(a.colors =~= b.colors);
    assert(a.tops =~= b.tops);
    assert(a.mailbox =~= b.mailbox);
    assert(a.stacks =~= b.stacks);
    assert(a.heights =~= b.heights);
    assert(a.remaining_stones =~= b.remaining_stones);
    assert(a.remaining_caps =~= b.remaining_caps);
}

impl Default for Position {
    /// The starting position.
    fn default() -> (r: Position)
        ensures
            r.is_start(),
            r == start_position(),
            r.wf(),
            r.stock_wf(),
    {
        let r = Position {
            stm: Color::P1,
            ply: 0,
            colors: [Bitboard(0); 2],
            tops: [Bitboard(0); 3],
            mailbox: [Piece::Empty; 36],
            stacks: [0u64; 36],
            heights: [0u8; 36],
            remaining_stones: [STARTING_STONES; 2],
            remaining_caps: [STARTING_CAPS; 2],
        };
        proof {
            broadcast use vstd::array::group_array_axioms;

            assert(r.mailbox[0] == Piece::Empty);
            assert(r.heights@ =~= Seq::new(36, |i: int| 0u8));
            lemma_sum_zero(r.heights@, 36);
            assert forall|i: int| 0 <= i < 36 implies #[trigger] r.square_wf(i) by {
                crate::bitboard::lemma_zero_bits(i as u64);
                crate::bitboard::lemma_zero_bits(0);
                assert(r.colors[0].0 == 0 && r.colors[1].0 == 0);
                assert(r.tops[0].0 == 0 && r.tops[1].0 == 0 && r.tops[2].0 == 0);
                assert(r.heights[i] == 0 && r.stacks[i] == 0 && r.mailbox[i] == Piece::Empty);
            }
            assert(r.is_start());
            lemma_start_unique(r, start_position());
            assert(r.stacks@ =~= Seq::new(36, |i: int| 0u64));
            lemma_tiles_zero(r.stacks@, 36);
            lemma_caps_none(r.mailbox@, Color::P1, 36);
            lemma_caps_none(r.mailbox@, Color::P2, 36);
        }
        r
    }
}

/// Changing one entry changes the sum by the difference.
pub proof fn lemma_sum_update(s: Seq<u8>, n: int, i: int, v: u8)
    requires
        0 <= i < n <= s.len(),
    ensures
        sum_u8(s.update(i, v), n) == sum_u8(s, n) - s[i] + v,
    decreases n,
{
    if n - 1 > i {
        lemma_sum_update(s, n - 1, i, v);
    } else {
        lemma_sum_same(s, s.update(i, v), n - 1);
    }
}

/// Sums that agree on every entry they add up agree.
pub proof fn lemma_sum_same(s: Seq<u8>, t: Seq<u8>, n: int)
    requires
        0 <= n <= s.len(),
        n <= t.len(),
        forall|k: int| 0 <= k < n ==> s[k] == t[k],
    ensures
        sum_u8(s, n) == sum_u8(t, n),
    decreases n,
{
    if n > 0 {
        lemma_sum_same(s, t, n - 1);
    }
}

/// No entry exceeds the sum.
pub proof fn lemma_sum_bound(s: Seq<u8>, n: int, i: int)
    requires
        0 <= i < n <= s.len(),
    ensures
        s[i] <= sum_u8(s, n),
    decreases n,
{
    if n - 1 > i {
        lemma_sum_bound(s, n - 1, i);
    } else {
        lemma_sum_nonneg(s, n - 1);
    }
}

pub proof fn lemma_sum_nonneg(s: Seq<u8>, n: int)
    requires
        n <= s.len(),
    ensures
        sum_u8(s, n) >= 0,
    decreases n,
{
    if n > 0 {
        lemma_sum_nonneg(s, n - 1);
    }
}

pub proof fn lemma_sum_zero(s: Seq<u8>, n: int)
    requires
        0 <= n <= s.len(),
        forall|i: int| 0 <= i < n ==> s[i] == 0,
    ensures
        sum_u8(s, n) == 0,
    decreases n,
{
    if n > 0 {
        lemma_sum_zero(s, n - 1);
    }
}

} // verus!
