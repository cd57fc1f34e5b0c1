use crate::bitboard::bit;
use crate::color::Color;
use crate::movegen::along;
use crate::moves::{word_flags, word_splat, word_sq, Dir, Move};
use crate::piece::{Piece, PieceType};
use crate::position::{
    cap_count, lemma_caps_update, lemma_sum_bound, lemma_sum_update, lemma_tiles_update, ones,
    p2_tiles, sum_u8, Position,
};
use crate::square::Square;
use vstd::arithmetic::power2::{lemma_pow2_unfold, pow2};
use vstd::prelude::*;

verus! {

/// Number of binary digits of `x`: for a drop pattern, the tiles lifted.
pub open spec fn bit_width(x: nat) -> nat
    decreases x,
{
    if x == 0 {
        0
    } else {
        1 + bit_width(x / 2)
    }
}

/// Number of set bits of `x`: for a drop pattern, the squares dropped on.
pub open spec fn bit_count(x: nat) -> nat
    decreases x,
{
    if x == 0 {
        0
    } else {
        (x % 2) + bit_count(x / 2)
    }
}

/// Size of the first (lowest) drop of a pattern: the position of its lowest set bit, plus one.
pub open spec fn segment_size(x: nat) -> nat
    decreases x,
{
    if x == 0 {
        0
    } else if x % 2 == 1 {
        1
    } else {
        1 + segment_size(x / 2)
    }
}

/// The drop pattern that is left after the first drop.
pub open spec fn segment_rest(x: nat) -> nat
    decreases x,
{
    if x == 0 {
        0
    } else if x % 2 == 1 {
        x / 2
    } else {
        segment_rest(x / 2)
    }
}

/// Squares between square `i` and the edge in direction `d` (0 north, 1 east, 2 south,
/// 3 west).
pub open spec fn room(i: int, d: nat) -> int {
    if d == 0 {
        5 - i / 6
    } else if d == 1 {
        5 - i % 6
    } else if d == 2 {
        i / 6
    } else {
        i % 6
    }
}

pub proof fn lemma_segment(x: nat)
    requires
        x > 0,
    ensures
        bit_width(segment_rest(x)) + segment_size(x) == bit_width(x),
        bit_count(segment_rest(x)) + 1 == bit_count(x),
        segment_size(x) >= 1,
        segment_rest(x) < x,
    decreases x,
{
    if x % 2 == 0 {
        lemma_segment(x / 2);
    }
}

pub proof fn lemma_width_bound(x: nat, n: nat)
    requires
        x < pow2(n),
    ensures
        bit_width(x) <= n,
    decreases n,
{
    if n > 0 && x > 0 {
        lemma_pow2_unfold(n);
        lemma_width_bound(x / 2, (n - 1) as nat);
    } else if n == 0 {
        vstd::arithmetic::power2::lemma2_to64();
    }
}

/// The first drop of a non-empty pattern: its size and the pattern that is left.
pub fn take_segment(splat: u8) -> (r: (u32, u8))
    requires
        splat > 0,
    ensures
        r.0 == segment_size(splat as nat),
        r.1 == segment_rest(splat as nat),
{
    let mut x = splat;
    let mut k: u32 = 1;
    proof {
        lemma_segment(splat as nat);
        vstd::arithmetic::power2::lemma2_to64();
        lemma_width_bound(splat as nat, 8);
    }
    while x % 2 == 0
        invariant
            x > 0,
            k + segment_size(x as nat) == segment_size(splat as nat) + 1,
            segment_rest(x as nat) == segment_rest(splat as nat),
            segment_size(splat as nat) <= bit_width(splat as nat) <= 8,
            segment_size(x as nat) >= 1,
        decreases x,
    {
        proof {
            lemma_segment((x / 2) as nat);
        }
        x = x / 2;
        k += 1;
    }
    (k, x / 2)
}

/// Number of binary digits of `x`.
pub fn width_of(x: u8) -> (r: u32)
    ensures
        r == bit_width(x as nat),
        r <= 8,
{
    let mut y = x;
    let mut w: u32 = 0;
    proof {
        vstd::arithmetic::power2::lemma2_to64();
        lemma_width_bound(x as nat, 8);
    }
    while y != 0
        invariant
            w + bit_width(y as nat) == bit_width(x as nat),
            bit_width(x as nat) <= 8,
        decreases y,
    {
        y = y / 2;
        w += 1;
    }
    w
}

/// A step towards an edge that is not yet reached stays on the board and brings the edge
/// one square closer.
pub proof fn lemma_step_room(sq: Square, dir: Dir)
    requires
        sq.is_real(),
        room(sq.index() as int, dir.index()) >= 1,
    ensures
        sq.can_step(dir),
        0 <= sq.step_index(dir) < 36,
        room(sq.step_index(dir), dir.index()) == room(sq.index() as int, dir.index()) - 1,
{
}

/// The lifted tiles stay below the word's new height; the drop keeps its colours apart.
proof fn lemma_lift(w: u64, h: u64, n: u64)
    requires
        w >> h == 0,
        1 <= n <= h < 64,
    ensures
        (w >> n) >> (h - n) as u64 == 0,
        (w & ((1u64 << n) - 1) as u64) >> n == 0,
        (w & ((1u64 << n) - 1) as u64) % 2 == w % 2,
{
    assert((w >> n) >> (h - n) as u64 == 0 && (w & ((1u64 << n) - 1) as u64) >> n == 0 && (w & ((
    1u64 << n) - 1) as u64) % 2 == w % 2) by (bit_vector)
        requires
            w >> h == 0,
            1 <= n <= h < 64,
    ;
}

/// Dropping `k` tiles onto a stack of height `h`.
proof fn lemma_drop(old: u64, h: u64, hand: u64, hh: u64, k: u64)
    requires
        old >> h == 0,
        1 <= k <= hh <= 6,
        h + k < 64,
    ensures
        ({
            let d = (hand >> (hh - k) as u64) & ((1u64 << k) - 1) as u64;
            &&& ((old << k) | d) >> (h + k) as u64 == 0
            &&& ((old << k) | d) % 2 == d % 2
            &&& hh == k ==> d % 2 == hand % 2
        }),
{
    assert(({
        let d = (hand >> (hh - k) as u64) & ((1u64 << k) - 1) as u64;
        &&& ((old << k) | d) >> (h + k) as u64 == 0
        &&& ((old << k) | d) % 2 == d % 2
        &&& hh == k ==> d % 2 == hand % 2
    })) by (bit_vector)
        requires
            old >> h == 0,
            1 <= k <= hh <= 6,
            h + k < 64,
    ;
}

/// A drop moves its tiles' set bits from the hand onto the stack.
proof fn lemma_drop_tiles(old: u64, h: u64, hand: u64, hh: u64, k: u64)
    requires
        old >> h == 0,
        1 <= k <= hh <= 6,
        h + k < 64,
    ensures
        ({
            let d = (hand >> (hh - k) as u64) & ((1u64 << k) - 1) as u64;
            &&& ones((old << k) | d) == ones(old) + ones(d)
            &&& ones(hand & ((1u64 << hh) - 1) as u64) == ones(d) + ones(
                hand & ((1u64 << (hh - k) as u64) - 1) as u64,
            )
        }),
{
    let d = (hand >> (hh - k) as u64) & ((1u64 << k) - 1) as u64;
    let x = hand & ((1u64 << hh) - 1) as u64;
    let new = (old << k) | d;
    let r = (hh - k) as u64;
    assert(new >> k == old && new & ((1u64 << k) - 1) as u64 == d && x >> r == d && x & ((1u64
        << r) - 1) as u64 == hand & ((1u64 << r) - 1) as u64) by (bit_vector)
        requires
            old >> h == 0,
            1 <= k <= hh <= 6,
            h + k < 64,
            r == hh - k,
            d == (hand >> r) & ((1u64 << k) - 1) as u64,
            x == hand & ((1u64 << hh) - 1) as u64,
            new == (old << k) | d,
    ;
    crate::position::lemma_ones_split(new, k);
    crate::position::lemma_ones_split(x, r);
}

/// Masking twice is masking once; no bit is below bit zero.
proof fn lemma_mask_facts(w: u64, n: u64)
    requires
        n < 64,
    ensures
        (w & ((1u64 << n) - 1) as u64) & ((1u64 << n) - 1) as u64 == w & ((1u64 << n) - 1) as u64,
        w & ((1u64 << 0u64) - 1) as u64 == 0,
{
    assert((w & ((1u64 << n) - 1) as u64) & ((1u64 << n) - 1) as u64 == w & ((1u64 << n) - 1) as u64
        && w & ((1u64 << 0u64) - 1) as u64 == 0) by (bit_vector)
        requires
            n < 64,
    ;
}

/// The word whose `n` low bits are set.
fn low_mask(n: u32) -> (r: u64)
    requires
        n < 64,
    ensures
        r == ((1u64 << n as u64) - 1) as u64,
{
    let s = n as u64;
    assert(1u64 << s >= 1) by (bit_vector)
        requires
            s < 64,
    ;
    (1u64 << s) - 1
}

/// One where `top` is the capstone of colour `c`.
pub open spec fn cap_bonus(top: Piece, c: Color) -> int {
    if top == Piece::of(c, PieceType::Cap) {
        1
    } else {
        0
    }
}

/// The square one step from square `i` in direction `d`.
pub open spec fn step_from(i: int, d: nat) -> int {
    if d == 0 {
        i + 6
    } else if d == 1 {
        i + 1
    } else if d == 2 {
        i - 6
    } else {
        i - 1
    }
}

/// The heights, stack words and top tiles after the drops that are left of a spread, and
/// the square dropped on last: `splat` is the pattern still to drop, `hand` holds the
/// lifted colours of which the `hh` lowest are still in hand, and `at` is the square
/// dropped on last. Each drop of `k` tiles takes the `k` highest of those in hand onto the
/// next square, in the order they were in, and leaves a flat of the colour of its top.
pub open spec fn drop_rest(
    heights: Seq<u8>,
    stacks: Seq<u64>,
    mailbox: Seq<Piece>,
    at: int,
    d: nat,
    splat: nat,
    hand: u64,
    hh: nat,
) -> (Seq<u8>, Seq<u64>, Seq<Piece>, int)
    decreases splat,
{
    if splat == 0 {
        (heights, stacks, mailbox, at)
    } else {
        proof {
            lemma_segment(splat);
        }
        let k = segment_size(splat);
        let next = step_from(at, d);
        let dc = (hand >> (hh - k) as u64) & ((1u64 << k as u64) - 1) as u64;
        drop_rest(
            heights.update(next, (heights[next] + k) as u8),
            stacks.update(next, (stacks[next] << k as u64) | dc),
            mailbox.update(next, Piece::of(Color::of_index((dc % 2) as int), PieceType::Flat)),
            next,
            d,
            segment_rest(splat),
            hand,
            (hh - k) as nat,
        )
    }
}

impl Position {
    /// The heights, stack words and top tiles after the spread `mv`: the top
    /// `bit_width(splat)` tiles leave the source, which keeps a flat of the colour now on
    /// top (or nothing), the drops follow, and a wall or cap that was on top of the source
    /// ends on top of the last square.
    pub open spec fn spread_result(self, mv: Move) -> (Seq<u8>, Seq<u64>, Seq<Piece>) {
        let i = word_sq(mv.bits()) as int;
        let splat = word_splat(mv.bits());
        let n = bit_width(splat);
        let word = self.stacks[i];
        let hand = word & ((1u64 << n as u64) - 1) as u64;
        let left = (self.heights[i] - n) as u8;
        let rest = word >> n as u64;
        let top = self.mailbox[i];
        let (hs, ss, ms, last) = drop_rest(
            self.heights@.update(i, left),
            self.stacks@.update(i, rest),
            self.mailbox@.update(
                i,
                if left == 0 {
                    Piece::Empty
                } else {
                    Piece::of(Color::of_index((rest % 2) as int), PieceType::Flat)
                },
            ),
            i,
            word_flags(mv.bits()),
            splat,
            hand,
            n,
        );
        (hs, ss, if top.kind() != PieceType::Flat {
            ms.update(last, top)
        } else {
            ms
        })
    }

    /// The colour of the tile that a placement puts down: in the first two plies each
    /// player places a flat of the other.
    pub open spec fn placing_color(self) -> Color {
        if self.ply < 2 {
            self.stm.other()
        } else {
            self.stm
        }
    }

    /// What `make_move` needs of a move: a placement goes on an empty square, with a
    /// tile left in the placing player's reserve; a spread lifts no more tiles than the
    /// stack holds and drops on squares of the board.
    pub open spec fn can_apply(self, mv: Move) -> bool {
        self.can_apply_word(mv.bits())
    }

    /// `can_apply` of the move with word `w`.
    pub open spec fn can_apply_word(self, w: u16) -> bool {
        let s = word_sq(w) as int;
        let sp = word_splat(w);
        let c = self.placing_color().index() as int;
        if sp == 0 {
            &&& self.mailbox[s] == Piece::Empty
            &&& word_flags(w) == 3 ==> self.remaining_caps[c] > 0
            &&& word_flags(w) != 3 ==> self.remaining_stones[c] > 0
        } else {
            &&& bit_width(sp) <= self.heights[s]
            &&& bit_count(sp) <= room(s, word_flags(w))
        }
    }

    /// Whether `make_move` accepts `mv` here.
    pub fn accepts(&self, mv: Move) -> (r: bool)
        requires
            self.wf(),
        ensures
            r == self.can_apply(mv),
    {
        let sq = mv.sq();
        let i = sq.to_index();
        if mv.is_place() {
            let c = if self.ply < 2 {
                self.stm.opposite()
            } else {
                self.stm
            };
            let ci = c.to_index();
            if !self.mailbox[i].is_none() {
                return false;
            }
            if mv.flags() == 3 {
                self.remaining_caps[ci] > 0
            } else {
                self.remaining_stones[ci] > 0
            }
        } else {
            let splat = mv.splat();
            let width = width_of(splat);
            let count = crate::notation::count_bits(splat) as usize;
            let (file, rank) = sq.to_file_and_rank();
            let room = match mv.dir() {
                Dir::North => 5 - rank,
                Dir::East => 5 - file,
                Dir::South => rank,
                Dir::West => file,
            };
            width <= self.heights[i] as u32 && count <= room
        }
    }

    /// The position after `mv`.
    pub fn make_move(&self, mv: Move) -> (r: Position)
        requires
            self.wf(),
            self.can_apply(mv),
        ensures
            r.wf(),
            self.moved(mv, r),
            self.stock_wf() && self.legal_word(mv.bits()) ==> r.stock_wf(),
    {
        let mut pos = *self;
        if mv.is_place() {
            pos.apply_place(mv);
        } else {
            pos.apply_spread(mv);
        }
        let ghost pre = pos;
        pos.stm = pos.stm.opposite();
        if pos.ply < 0xFFFF {
            pos.ply = pos.ply + 1;
        }
        proof {
            assert forall|t: int| 0 <= t < 36 implies #[trigger] pos.square_wf(t) by {
                assert(pre.square_wf(t));
            }
        }
        pos
    }

    /// Puts the tile of a placement on the board and takes it from the reserve.
    fn apply_place(&mut self, mv: Move)
        requires
            old(self).wf(),
            old(self).can_apply(mv),
            word_splat(mv.bits()) == 0,
        ensures
            final(self).wf(),
            final(self).placed(*old(self), mv),
            final(self).stm == old(self).stm,
            final(self).ply == old(self).ply,
            old(self).stock_wf() ==> final(self).stock_wf(),
    {
        let sq = mv.sq();
        let i = sq.to_index();
        let c = if self.ply < 2 {
            self.stm.opposite()
        } else {
            self.stm
        };
        let ci = c.to_index();
        let pt = mv.piece_type();
        let ghost before = *self;
        self.heights[i] = 1;
        self.stacks[i] = ci as u64;
        let ghost mid = *self;
        self.set_top(sq, Piece::new(c, pt));
        let ghost topped = *self;
        if pt == PieceType::Cap {
            self.remaining_caps[ci] = self.remaining_caps[ci] - 1;
        } else {
            self.remaining_stones[ci] = self.remaining_stones[ci] - 1;
        }
        proof {
            assert(before.square_wf(i as int));
            assert(self.heights@ =~= before.heights@.update(i as int, 1));
            lemma_sum_update(before.heights@, 36, i as int, 1);
            assert((ci as u64) >> 1u64 == 0) by (bit_vector)
                requires
                    ci < 2,
            ;
            assert(self.stack_wf(i as int));
            assert(self.bits_agree(i as int));
            assert forall|j: int| 0 <= j < 36 implies #[trigger] self.square_wf(j) by {
                if j != i {
                    assert(before.square_wf(j));
                    assert(mid.bits_agree(j));
                    assert(topped.bits_agree(j));
                    assert(self.stack_wf(j));
                    assert(self.bits_agree(j));
                }
            }
            assert(self.board_wf());
            assert(self.stock_total() == 62);
            crate::position::lemma_empty_word(before.stacks[i as int]);
            lemma_tiles_update(before.stacks@, 36, i as int, ci as u64);
            assert(ones(0u64) == 0);
            assert(ones(1u64) == 1) by {
                crate::position::lemma_ones_step(1u64);
            }
            assert(self.stacks@ =~= before.stacks@.update(i as int, ci as u64));
            let p = Piece::of(c, pt);
            lemma_caps_update(before.mailbox@, Color::P1, 36, i as int, p);
            lemma_caps_update(before.mailbox@, Color::P2, 36, i as int, p);
            assert(self.mailbox@ =~= before.mailbox@.update(i as int, p));
        }
    }

    /// Lifts the tiles of a spread and drops them along its direction.
    #[verifier::rlimit(100)]
    fn apply_spread(&mut self, mv: Move)
        requires
            old(self).wf(),
            old(self).can_apply(mv),
            word_splat(mv.bits()) != 0,
        ensures
            final(self).wf(),
            final(self).lifted(*old(self), mv),
            final(self).stm == old(self).stm,
            final(self).ply == old(self).ply,
            old(self).stock_wf() && old(self).legal_word(mv.bits()) ==> final(self).stock_wf(),
    {
        let sq = mv.sq();
        let i = sq.to_index();
        let splat0 = mv.splat();
        let dir = mv.dir();
        let hh0 = width_of(splat0);
        proof {
            vstd::arithmetic::power2::lemma2_to64();
            lemma_width_bound(splat0 as nat, 6);
            assert(self.square_wf(i as int));
        }
        let w0 = self.stacks[i];
        let hand = w0 & low_mask(hh0);
        let top = self.mailbox[i];
        proof {
            lemma_lift(w0, self.heights[i as int] as u64, hh0 as u64);
        }
        let ghost before = *self;
        self.stacks[i] = w0 >> hh0;
        self.heights[i] = self.heights[i] - hh0 as u8;
        if self.heights[i] == 0 {
            self.set_top(sq, Piece::Empty);
        } else {
            let c = Color::from_index((self.stacks[i] % 2) as u8);
            self.set_top(sq, Piece::new(c, PieceType::Flat));
        }
        proof {
            lemma_sum_update(before.heights@, 36, i as int, self.heights[i as int]);
            assert forall|j: int| 0 <= j < 36 implies #[trigger] self.square_wf(j) by {
                if j != i {
                    assert(before.square_wf(j));
                }
            }
        }
        let ghost lifted = *self;
        let ghost left = (before.heights[i as int] - hh0) as u8;
        proof {
            assert(lifted.heights@ =~= old(self).heights@.update(i as int, left));
            assert(lifted.stacks@ =~= old(self).stacks@.update(i as int, w0 >> hh0 as u64));
            assert(lifted.mailbox@ =~= old(self).mailbox@.update(
                i as int,
                if left == 0 {
                    Piece::Empty
                } else {
                    Piece::of(Color::of_index(((w0 >> hh0 as u64) % 2) as int), PieceType::Flat)
                },
            ));
        }
        let ghost legal = old(self).legal_word(mv.bits());
        let ghost d = dir.index();
        let ghost n = bit_count(splat0 as nat) as int;
        let ghost mut steps: int = 0;
        proof {
            let lp = if left == 0 {
                Piece::Empty
            } else {
                Piece::of(Color::of_index(((w0 >> hh0 as u64) % 2) as int), PieceType::Flat)
            };
            lemma_tiles_update(old(self).stacks@, 36, i as int, w0 >> hh0 as u64);
            crate::position::lemma_ones_split(w0, hh0 as u64);
            lemma_mask_facts(w0, hh0 as u64);
            lemma_caps_update(old(self).mailbox@, Color::P1, 36, i as int, lp);
            lemma_caps_update(old(self).mailbox@, Color::P2, 36, i as int, lp);
        }
        let mut splat = splat0;
        let mut hh = hh0;
        let mut curr = sq;
        while splat != 0
            invariant
                p2_tiles(self.stacks@, 36) + ones(hand & ((1u64 << hh as u64) - 1) as u64)
                    == p2_tiles(old(self).stacks@, 36),
                0 <= steps,
                steps + bit_count(splat as nat) == n,
                curr.index() == along(i as int, d, steps),
                d == dir.index(),
                n == bit_count(word_splat(mv.bits())),
                i as int == word_sq(mv.bits()),
                legal == old(self).legal_word(mv.bits()),
                top == old(self).mailbox[i as int],
                legal ==> forall|t: int|
                    steps < t <= n ==> #[trigger] self.mailbox[along(i as int, d, t)] == old(
                        self,
                    ).mailbox[along(i as int, d, t)],
                legal ==> cap_count(self.mailbox@, Color::P1, 36) + cap_bonus(top, Color::P1)
                    == cap_count(old(self).mailbox@, Color::P1, 36),
                legal ==> cap_count(self.mailbox@, Color::P2, 36) + cap_bonus(top, Color::P2)
                    == cap_count(old(self).mailbox@, Color::P2, 36),
                self.board_wf(),
                self.stm == old(self).stm,
                self.ply == old(self).ply,
                self.remaining_stones == old(self).remaining_stones,
                self.remaining_caps == old(self).remaining_caps,
                self.stock_total() + hh == 62,
                hh == bit_width(splat as nat),
                hh <= 6,
                bit_count(splat as nat) <= room(curr.index() as int, dir.index()),
                room(curr.index() as int, dir.index()) <= room(i as int, dir.index()),
                curr != sq ==> room(curr.index() as int, dir.index()) < room(
                    i as int,
                    dir.index(),
                ),
                curr.is_real(),
                i < 36,
                i == sq.index(),
                self.stacks[i as int] == lifted.stacks[i as int],
                self.heights[i as int] == lifted.heights[i as int],
                hh <= hh0 <= 6,
                splat == 0 ==> curr != sq && self.mailbox[curr.index() as int] == Piece::of(
                    top.owner(),
                    PieceType::Flat,
                ),
                top != Piece::Empty,
                top.owner().index() == hand % 2,
                dir.index() == word_flags(mv.bits()),
                drop_rest(
                    self.heights@,
                    self.stacks@,
                    self.mailbox@,
                    curr.index() as int,
                    dir.index(),
                    splat as nat,
                    hand,
                    hh as nat,
                ) == drop_rest(
                    lifted.heights@,
                    lifted.stacks@,
                    lifted.mailbox@,
                    i as int,
                    dir.index(),
                    splat0 as nat,
                    hand,
                    hh0 as nat,
                ),
            decreases splat,
        {
            proof {
                lemma_segment(splat as nat);
            }
            proof {
                lemma_step_room(curr, dir);
            }
            let ghost prev = curr;
            curr = curr.step(dir);
            let (k, rest) = take_segment(splat);
            let j = curr.to_index();
            let dc = (hand >> ((hh - k) as u64)) & low_mask(k);
            let c = Color::from_index((dc % 2) as u8);
            let ghost b = *self;
            assert(b.square_wf(j as int));
            proof {
                lemma_sum_bound(b.heights@, 36, j as int);
            }
            let h_old = self.heights[j];
            let w_old = self.stacks[j];
            proof {
                lemma_drop(w_old, h_old as u64, hand, hh as u64, k as u64);
                lemma_drop_tiles(w_old, h_old as u64, hand, hh as u64, k as u64);
                lemma_tiles_update(b.stacks@, 36, j as int, (w_old << (k as u64)) | dc);
                let p = Piece::of(c, PieceType::Flat);
                lemma_caps_update(b.mailbox@, Color::P1, 36, j as int, p);
                lemma_caps_update(b.mailbox@, Color::P2, 36, j as int, p);
                assert(j == along(i as int, d, steps + 1));
                if legal {
                    assert(b.mailbox[j as int] == old(self).mailbox[along(i as int, d, steps + 1)]);
                    if steps + 1 < n {
                        assert(!old(self).royal_at(along(i as int, d, steps + 1)));
                    }
                }
            }
            self.heights[j] = h_old + k as u8;
            self.stacks[j] = (w_old << (k as u64)) | dc;
            self.set_top(curr, Piece::new(c, PieceType::Flat));
            proof {
                assert(self.heights@ =~= b.heights@.update(j as int, (b.heights[j as int] + k) as u8));
                assert(self.stacks@ =~= b.stacks@.update(j as int, (b.stacks[j as int] << k as u64) | dc));
                assert(j == step_from(prev.index() as int, dir.index()));
            }
            proof {
                lemma_sum_update(b.heights@, 36, j as int, self.heights[j as int]);
                assert forall|t: int| 0 <= t < 36 implies #[trigger] self.square_wf(t) by {
                    if t != j {
                        assert(b.square_wf(t));
                    }
                }
            }
            proof {
                if rest == 0 {
                    assert(hh == k);
                    assert(c.index() == hand % 2);
                    assert(c == top.owner());
                }
            }
            splat = rest;
            hh = hh - k;
            proof {
                steps = steps + 1;
            }
        }
        proof {
            lemma_mask_facts(hand, 0);
        }
        if top.piece_type() != PieceType::Flat {
            let ghost b = *self;
            self.set_top(curr, top);
            proof {
                assert forall|t: int| 0 <= t < 36 implies #[trigger] self.square_wf(t) by {
                    assert(b.square_wf(t));
                }
                lemma_caps_update(b.mailbox@, Color::P1, 36, curr.index() as int, top);
                lemma_caps_update(b.mailbox@, Color::P2, 36, curr.index() as int, top);
            }
        }
        proof {
            assert(sum_u8(self.heights@, 36) == sum_u8(old(self).heights@, 36));
        }
    }

    /// What the position `r` after `mv` is: well formed, the other side to move, one ply
    /// later (the counter stops at its largest value), and the board and reserves as the
    /// placement or spread leaves them.
    pub open spec fn moved(self, mv: Move, r: Position) -> bool {
        &&& r.wf()
        &&& r.stm == self.stm.other()
        &&& r.ply == if self.ply < 0xFFFF {
            self.ply + 1
        } else {
            self.ply as int
        }
        &&& word_splat(mv.bits()) == 0 ==> r.placed(self, mv)
        &&& word_splat(mv.bits()) != 0 ==> r.lifted(self, mv)
    }

    /// The placement `mv` applied to `before`: the square holds one tile of the placing
    /// colour and kind, and the placing player's reserve gave it up.
    pub open spec fn placed(self, before: Position, mv: Move) -> bool {
        let i = word_sq(mv.bits()) as int;
        let kind = word_flags(mv.bits()) as int - 1;
        let c = before.placing_color();
        let ci = c.index() as int;
        let pt = if kind == 0 {
            PieceType::Flat
        } else if kind == 1 {
            PieceType::Wall
        } else {
            PieceType::Cap
        };
        &&& self.heights@ == before.heights@.update(i, 1)
        &&& self.stacks@ == before.stacks@.update(i, ci as u64)
        &&& self.mailbox@ == before.mailbox@.update(i, Piece::of(c, pt))
        &&& pt == PieceType::Cap ==> self.remaining_caps@ == before.remaining_caps@.update(
            ci,
            (before.remaining_caps[ci] - 1) as u8,
        ) && self.remaining_stones == before.remaining_stones
        &&& pt != PieceType::Cap ==> self.remaining_stones@ == before.remaining_stones@.update(
            ci,
            (before.remaining_stones[ci] - 1) as u8,
        ) && self.remaining_caps == before.remaining_caps
    }

    /// The spread `mv` applied to `before`, as far as the source square and the reserves go:
    /// the lifted tiles leave the top of the source stack.
    pub open spec fn lifted(self, before: Position, mv: Move) -> bool {
        let i = word_sq(mv.bits()) as int;
        let n = bit_width(word_splat(mv.bits()));
        &&& self.heights[i] == before.heights[i] - n
        &&& self.stacks[i] == before.stacks[i] >> (n as u64)
        &&& (self.heights@, self.stacks@, self.mailbox@) == before.spread_result(mv)
        &&& self.remaining_stones == before.remaining_stones
        &&& self.remaining_caps == before.remaining_caps
    }
}

/// Whether `r` is what `make_move` gives for the move with word `w` from `p`.
pub open spec fn moved_by(p: Position, w: nat, r: Position) -> bool {
    exists|mv: Move| mv.bits() == w && #[trigger] p.moved(mv, r)
}

/// The position after the move with word `w`: the one that `make_move` gives.
pub open spec fn after(p: Position, w: nat) -> Position {
    choose|r: Position| #[trigger] moved_by(p, w, r)
}

/// `make_move` gives `after(p, mv.bits())`.
pub proof fn lemma_after(p: Position, mv: Move, r: Position)
    requires
        p.wf(),
        p.can_apply(mv),
        p.moved(mv, r),
    ensures
        after(p, mv.bits() as nat) == r,
{
    let w = mv.bits() as nat;
    assert(moved_by(p, w, r));
    let a = after(p, w);
    assert(moved_by(p, w, a));
    let mv2 = choose|m2: Move| m2.bits() == w && #[trigger] p.moved(m2, a);
    assert(p.moved(mv, a));
    lemma_make_move_pure(p, mv, a, r);
}

/// A position that keeps the invariant is fixed by its stacks, top tiles, reserves, side
/// to move and ply: the bitboards follow from the top tiles.
pub proof fn lemma_same_board(a: Position, b: Position)
    requires
        a.wf(),
        b.wf(),
        a.heights@ == b.heights@,
        a.stacks@ == b.stacks@,
        a.mailbox@ == b.mailbox@,
        a.remaining_stones@ == b.remaining_stones@,
        a.remaining_caps@ == b.remaining_caps@,
        a.stm == b.stm,
        a.ply == b.ply,
    ensures
        a == b,
{
    broadcast use vstd::array::group_array_axioms;

    assert forall|k: int| 0 <= k < 2 implies a.colors[k] == b.colors[k] by {
        assert forall|j: u64| j < 36 implies #[trigger] bit(a.colors[k].0, j) == bit(
            b.colors[k].0,
            j,
        ) by {
            assert(a.square_wf(j as int) && b.square_wf(j as int));
            assert(a.mailbox[j as int] == b.mailbox[j as int]);
        }
        crate::bitboard::lemma_bits_determine(a.colors[k].0, b.colors[k].0);
    }
    assert forall|k: int| 0 <= k < 3 implies a.tops[k] == b.tops[k] by {
        assert forall|j: u64| j < 36 implies #[trigger] bit(a.tops[k].0, j) == bit(
            b.tops[k].0,
            j,
        ) by {
            assert(a.square_wf(j as int) && b.square_wf(j as int));
            assert(a.mailbox[j as int] == b.mailbox[j as int]);
        }
        crate::bitboard::lemma_bits_determine(a.tops[k].0, b.tops[k].0);
    }
    assert(a.colors =~= b.colors);
    assert(a.tops =~= b.tops);
    assert(a.heights =~= b.heights);
    assert(a.stacks =~= b.stacks);
    assert(a.mailbox =~= b.mailbox);
    assert(a.remaining_stones =~= b.remaining_stones);
    assert(a.remaining_caps =~= b.remaining_caps);
}

/// Applying a move is a function of the position and the move: two results of the same
/// move on the same position are equal.
pub proof fn lemma_make_move_pure(p: Position, mv: Move, a: Position, b: Position)
    requires
        p.wf(),
        p.can_apply(mv),
        p.moved(mv, a),
        p.moved(mv, b),
    ensures
        a == b,
{
    broadcast use vstd::array::group_array_axioms;

    assert(a.remaining_stones@ == b.remaining_stones@);
    assert(a.remaining_caps@ == b.remaining_caps@);
    lemma_same_board(a, b);
}

} // verus!
