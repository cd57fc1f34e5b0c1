use crate::bitboard::{bit, Bitboard, BOARD_BITS};
use crate::make_move::{bit_count, bit_width, lemma_step_room, lemma_width_bound, room, width_of};
use crate::move_list::{list_words, MoveList};
use crate::moves::{word_flags, word_splat, word_sq, Dir, Move};
use crate::notation::{count_bits, pow2_u8};
use crate::piece::{Piece, PieceType};
use crate::position::Position;
use crate::square::Square;
use vstd::arithmetic::power2::{lemma2_to64, lemma_pow2_unfold, pow2};
use vstd::prelude::*;
use vstd::std_specs::bits::{u64_leading_zeros, u64_trailing_zeros};

verus! {

/// Most moves that one source square can give: four directions of at most 63 patterns
/// and 32 crushes.
pub const MAX_SPREADS_PER_SQUARE: usize = 400;

/// For each direction (north, east, south, west): the squares a spread can cross before
/// the first wall or cap or the edge, and that wall or cap, if any.
struct Limits {
    distance: [usize; 4],
    blocker: [Square; 4],
}

/// The number of drop patterns for each carry limit and most drops, and of crush patterns
/// for each lift and number of drops before the wall.
pub struct SpreadCounts {
    splats: [u64; 49],
    crushes: [u64; 42],
}

impl SpreadCounts {
    /// Entry `7 * lift + most` counts the patterns below `2^lift` with at most `most`
    /// drops; crush entry `7 * k + drops` counts the patterns below `2^k` with exactly
    /// `drops` drops.
    pub closed spec fn wf(self) -> bool {
        &&& forall|j: int|
            0 <= j < 49 ==> #[trigger] self.splats[j] == splat_count(
                pow2((j / 7) as nat),
                (j % 7) as nat,
            )
        &&& forall|j: int|
            0 <= j < 42 ==> #[trigger] self.crushes[j] == crush_count(
                pow2((j / 7) as nat),
                (j % 7) as nat,
            )
    }

    pub fn new() -> (r: SpreadCounts)
        ensures
            r.wf(),
    {
        let mut splats = [0u64; 49];
        let mut crushes = [0u64; 42];
        let mut j: usize = 0;
        while j < 49
            invariant
                j <= 49,
                forall|k: int|
                    0 <= k < j ==> #[trigger] splats[k] == splat_count(
                        pow2((k / 7) as nat),
                        (k % 7) as nat,
                    ),
            decreases 49 - j,
        {
            splats[j] = count_splats((j / 7) as u32, j % 7);
            j += 1;
        }
        j = 0;
        while j < 42
            invariant
                j <= 42,
                forall|k: int|
                    0 <= k < j ==> #[trigger] crushes[k] == crush_count(
                        pow2((k / 7) as nat),
                        (k % 7) as nat,
                    ),
            decreases 42 - j,
        {
            crushes[j] = count_crushes((j / 7) as u32, j % 7);
            j += 1;
        }
        SpreadCounts { splats, crushes }
    }
}

/// Adding the bit just above a pattern's highest bit adds one set bit and one digit.
proof fn lemma_extend(x: nat)
    ensures
        bit_count(x + pow2(bit_width(x))) == bit_count(x) + 1,
        bit_width(x + pow2(bit_width(x))) == bit_width(x) + 1,
        x < pow2(bit_width(x)),
    decreases x,
{
    if x == 0 {
        lemma2_to64();
    } else {
        lemma_extend(x / 2);
        lemma_pow2_unfold(bit_width(x));
    }
}

/// Index of the lowest set bit of `x`; 36 where `x` is empty.
pub open spec fn lowest(x: u64) -> nat {
    if x == 0 {
        36
    } else {
        u64_trailing_zeros(x) as nat
    }
}

/// Index of the highest set bit of `x`; 36 where `x` is empty.
pub open spec fn highest(x: u64) -> nat {
    if x == 0 {
        36
    } else {
        (63 - u64_leading_zeros(x)) as nat
    }
}

/// Drop patterns below `n`, zero left out, with at most `most` drops.
pub open spec fn splat_count(n: nat, most: nat) -> nat
    decreases n,
{
    if n == 0 {
        0
    } else {
        splat_count((n - 1) as nat, most) + if n - 1 >= 1 && bit_count((n - 1) as nat) <= most {
            1nat
        } else {
            0nat
        }
    }
}

/// The spreads from square `i` towards `d` with the patterns below `n` (zero left out)
/// that have at most `most` drops.
pub open spec fn splat_words(i: nat, d: nat, most: nat, n: nat) -> Seq<u16>
    decreases n,
{
    if n == 0 {
        Seq::empty()
    } else {
        let p = splat_words(i, d, most, (n - 1) as nat);
        if n - 1 >= 1 && bit_count((n - 1) as nat) <= most {
            p.push((d * 4096 + (n - 1) * 64 + i) as u16)
        } else {
            p
        }
    }
}

/// The crushes from square `i` towards `d`: for each pattern below `n` with `dist` drops,
/// that pattern followed by the cap alone.
pub open spec fn crush_words(i: nat, d: nat, dist: nat, n: nat) -> Seq<u16>
    decreases n,
{
    if n == 0 {
        Seq::empty()
    } else {
        let p = crush_words(i, d, dist, (n - 1) as nat);
        if bit_count((n - 1) as nat) == dist {
            p.push((d * 4096 + ((n - 1) + pow2(bit_width((n - 1) as nat))) * 64 + i) as u16)
        } else {
            p
        }
    }
}

/// Patterns below `n` with exactly `drops` drops.
pub open spec fn crush_count(n: nat, drops: nat) -> nat
    decreases n,
{
    if n == 0 {
        0
    } else {
        crush_count((n - 1) as nat, drops) + if bit_count((n - 1) as nat) == drops {
            1nat
        } else {
            0nat
        }
    }
}

/// The square `t` steps from square `i` in direction `d`.
pub open spec fn along(i: int, d: nat, t: int) -> int {
    if d == 0 {
        i + 6 * t
    } else if d == 1 {
        i + t
    } else if d == 2 {
        i - 6 * t
    } else {
        i - t
    }
}

/// The last drop of pattern `sp` is a single tile: its highest bit directly follows the
/// one below it, or it is the only one.
pub open spec fn last_drop_single(sp: nat) -> bool {
    bit_width(sp) == 1 || (sp / pow2((bit_width(sp) - 2) as nat)) % 2 == 1
}

pub open spec fn min_nat(a: nat, b: nat) -> nat {
    if a < b {
        a
    } else {
        b
    }
}

impl Position {
    /// Every word in `ws` is a move that `make_move` accepts here.
    pub open spec fn all_apply(self, ws: Seq<u16>) -> bool {
        forall|k: int| 0 <= k < ws.len() ==> self.can_apply_word(#[trigger] ws[k])
    }

    /// Walls and caps.
    pub open spec fn royal_bits(self) -> u64 {
        self.tops[1].0 | self.tops[2].0
    }

    /// The first wall or cap from square `i` in direction `d` (0 north, 1 east, 2 south,
    /// 3 west); 36 where there is none.
    pub open spec fn blocker_at(self, i: nat, d: nat) -> nat {
        let r = self.royal_bits();
        let fm = 0x0_0041_0410_41u64 << (i % 6) as u64;
        let rm = 0x3Fu64 << ((i / 6) * 6) as u64;
        let up = (BOARD_BITS >> (i + 1) as u64) << (i + 1) as u64;
        let down = ((1u64 << i as u64) - 1) as u64;
        if d == 0 {
            lowest(r & fm & up)
        } else if d == 1 {
            lowest(r & rm & up)
        } else if d == 2 {
            highest(r & fm & down)
        } else {
            highest(r & rm & down)
        }
    }

    /// The squares that a spread from `i` in direction `d` can cross before the first wall
    /// or cap or the edge.
    pub open spec fn reach_in(self, i: nat, d: nat) -> int {
        let b = self.blocker_at(i, d);
        if b == 36 {
            room(i as int, d)
        } else if d == 0 {
            b / 6 - 1 - i / 6
        } else if d == 1 {
            b % 6 - 1 - i % 6
        } else if d == 2 {
            i / 6 - (b / 6 + 1)
        } else {
            i % 6 - (b % 6 + 1)
        }
    }

    /// The spreads from square `i` in direction `d`: every pattern that lifts at most the
    /// carry limit and drops on at most the squares that can be crossed, and where a cap
    /// can flatten the wall that stops it, every pattern that ends with the cap alone on
    /// the wall.
    pub open spec fn dir_moves(self, i: nat, d: nat) -> nat {
        let h = self.heights[i as int] as nat;
        let dist = self.reach_in(i, d) as nat;
        let b = self.blocker_at(i, d);
        let most = min_nat(h, dist);
        let lift = min_nat(h, 6);
        let crush = self.mailbox[i as int].kind() == PieceType::Cap && b != 36
            && self.mailbox[b as int].kind() == PieceType::Wall && lift > dist;
        (if most != 0 {
            splat_count(pow2(lift), most)
        } else {
            0
        }) + (if crush {
            crush_count(pow2((lift - 1) as nat), dist)
        } else {
            0
        })
    }

    /// The spreads from square `i` in the directions below `d`.
    pub open spec fn dirs_moves(self, i: nat, d: nat) -> nat
        decreases d,
    {
        if d == 0 {
            0
        } else {
            self.dirs_moves(i, (d - 1) as nat) + self.dir_moves(i, (d - 1) as nat)
        }
    }

    /// The spreads from square `i`: none unless the side to move owns its stack.
    pub open spec fn square_moves(self, i: nat) -> nat {
        if bit(self.colors[self.stm.index() as int].0, i as u64) && self.heights[i as int] > 0 {
            self.dirs_moves(i, 4)
        } else {
            0
        }
    }

    /// The spreads from the squares below `n`.
    pub open spec fn spread_moves(self, n: nat) -> nat
        decreases n,
    {
        if n == 0 {
            0
        } else {
            self.spread_moves((n - 1) as nat) + self.square_moves((n - 1) as nat)
        }
    }

    /// The empty squares below `n`.
    pub open spec fn empty_squares(self, n: nat) -> nat
        decreases n,
    {
        if n == 0 {
            0
        } else {
            self.empty_squares((n - 1) as nat) + if self.mailbox[n - 1] == Piece::Empty {
                1nat
            } else {
                0nat
            }
        }
    }

    /// The number of moves of the side to move: in the first two plies a flat of the other
    /// player on each empty square; later a flat and a wall on each empty square while
    /// stones remain, a cap on each while a capstone remains, and every spread.
    pub open spec fn move_total(self) -> nat {
        let e = self.empty_squares(36);
        if self.ply < 2 {
            if self.remaining_stones[self.stm.other().index() as int] > 0 {
                e
            } else {
                0
            }
        } else {
            (if self.remaining_stones[self.stm.index() as int] > 0 {
                2 * e
            } else {
                0
            }) + (if self.remaining_caps[self.stm.index() as int] > 0 {
                e
            } else {
                0
            }) + self.spread_moves(36)
        }
    }

    /// The placements with flags `f` on the empty squares below `n`, in square order.
    pub open spec fn placement_words(self, f: nat, n: nat) -> Seq<u16>
        decreases n,
    {
        if n == 0 {
            Seq::empty()
        } else {
            let p = self.placement_words(f, (n - 1) as nat);
            if self.mailbox[n - 1] == Piece::Empty {
                p.push((f * 4096 + (n - 1)) as u16)
            } else {
                p
            }
        }
    }

    /// The spreads from square `i` in direction `d`, in the order they are listed.
    pub open spec fn dir_words(self, i: nat, d: nat) -> Seq<u16> {
        let h = self.heights[i as int] as nat;
        let dist = self.reach_in(i, d) as nat;
        let b = self.blocker_at(i, d);
        let most = min_nat(h, dist);
        let lift = min_nat(h, 6);
        let crush = self.mailbox[i as int].kind() == PieceType::Cap && b != 36
            && self.mailbox[b as int].kind() == PieceType::Wall && lift > dist;
        (if most != 0 {
            splat_words(i, d, most, pow2(lift))
        } else {
            Seq::empty()
        }) + (if crush {
            crush_words(i, d, dist, pow2((lift - 1) as nat))
        } else {
            Seq::empty()
        })
    }

    /// The spreads from square `i` in the directions below `d`.
    pub open spec fn dirs_words(self, i: nat, d: nat) -> Seq<u16>
        decreases d,
    {
        if d == 0 {
            Seq::empty()
        } else {
            self.dirs_words(i, (d - 1) as nat) + self.dir_words(i, (d - 1) as nat)
        }
    }

    /// The spreads from square `i`.
    pub open spec fn square_words(self, i: nat) -> Seq<u16> {
        if bit(self.colors[self.stm.index() as int].0, i as u64) && self.heights[i as int] > 0 {
            self.dirs_words(i, 4)
        } else {
            Seq::empty()
        }
    }

    /// The spreads from the squares below `n`.
    pub open spec fn spread_words(self, n: nat) -> Seq<u16>
        decreases n,
    {
        if n == 0 {
            Seq::empty()
        } else {
            self.spread_words((n - 1) as nat) + self.square_words((n - 1) as nat)
        }
    }

    /// The moves of the side to move, in the order `generate_moves` lists them: flats, walls
    /// and caps on the empty squares, then the spreads square by square and direction by
    /// direction.
    pub open spec fn move_list(self) -> Seq<u16> {
        if self.ply < 2 {
            if self.remaining_stones[self.stm.other().index() as int] > 0 {
                self.placement_words(1, 36)
            } else {
                Seq::empty()
            }
        } else {
            (if self.remaining_stones[self.stm.index() as int] > 0 {
                self.placement_words(1, 36) + self.placement_words(2, 36)
            } else {
                Seq::empty()
            }) + (if self.remaining_caps[self.stm.index() as int] > 0 {
                self.placement_words(3, 36)
            } else {
                Seq::empty()
            }) + self.spread_words(36)
        }
    }

    /// Whether a wall or cap is on top of square `j`.
    pub open spec fn royal_at(self, j: int) -> bool {
        self.mailbox[j].kind() == PieceType::Wall || self.mailbox[j].kind() == PieceType::Cap
    }

    /// Whether the move with word `w` is a legal move of the side to move: a placement
    /// `make_move` accepts (a flat in the first two plies), or a spread of an own stack
    /// that lifts at most the carry limit, drops on the board, crosses no wall or cap,
    /// and ends on a wall only where a cap flattens it with a last drop of one tile.
    pub open spec fn legal_word(self, w: u16) -> bool {
        let i = word_sq(w) as int;
        let sp = word_splat(w);
        let d = word_flags(w);
        if sp == 0 {
            self.can_apply_word(w) && (self.ply < 2 ==> d == 1)
        } else {
            let n = bit_count(sp) as int;
            let last = along(i, d, n);
            &&& bit(self.colors[self.stm.index() as int].0, i as u64)
            &&& bit_width(sp) <= 6
            &&& bit_width(sp) <= self.heights[i]
            &&& n <= room(i, d)
            &&& forall|t: int| 1 <= t < n ==> !self.royal_at(#[trigger] along(i, d, t))
            &&& self.royal_at(last) ==> self.mailbox[i].kind() == PieceType::Cap
                && self.mailbox[last].kind() == PieceType::Wall && last_drop_single(sp)
        }
    }

    /// Whether `mv` is a legal move of the side to move here.
    pub fn is_legal(&self, mv: Move) -> (r: bool)
        requires
            self.wf(),
        ensures
            r == self.legal_word(mv.bits()),
    {
        let sq = mv.sq();
        let i = sq.to_index();
        if mv.is_place() {
            return self.accepts(mv) && (self.ply >= 2 || mv.flags() == 1);
        }
        let sp = mv.splat();
        let dir = mv.dir();
        let width = width_of(sp);
        let n = count_bits(sp) as usize;
        if !self.colors[self.stm.to_index()].get(sq) || width > 6 || width > self.heights[i] as u32 {
            return false;
        }
        let (file, rank) = sq.to_file_and_rank();
        let space = match dir {
            Dir::North => 5 - rank,
            Dir::East => 5 - file,
            Dir::South => rank,
            Dir::West => file,
        };
        if n > space {
            return false;
        }
        proof {
            lemma_count_pos(sp as nat);
        }
        let ghost d = dir.index();
        let mut t: usize = 1;
        let mut curr = sq;
        while t < n
            invariant
                1 <= t <= n <= space,
                space == room(i as int, d),
                d == dir.index(),
                i == sq.index(),
                sq.is_real(),
                curr.is_real(),
                curr.index() == along(i as int, d, t - 1),
                room(curr.index() as int, d) == space - (t - 1),
                i as int == word_sq(mv.bits()) as int,
                d == word_flags(mv.bits()),
                n == bit_count(word_splat(mv.bits())),
                forall|u: int| 1 <= u < t ==> !self.royal_at(#[trigger] along(i as int, d, u)),
            decreases n - t,
        {
            proof {
                lemma_step_room(curr, dir);
            }
            let ghost prev = curr;
            curr = curr.step(dir);
            assert(curr.index() == along(i as int, d, t as int));
            let k = self.mailbox[curr.to_index()].piece_type();
            if k == PieceType::Wall || k == PieceType::Cap {
                assert(self.royal_at(along(i as int, d, t as int)));
                assert(word_sq(mv.bits()) as int == i as int);
                assert(word_flags(mv.bits()) == d);
                assert(bit_count(word_splat(mv.bits())) == n);
                assert(1 <= t < n);
                return false;
            }
            t += 1;
        }
        proof {
            lemma_step_room(curr, dir);
        }
        let last = curr.step(dir);
        assert(last.index() == along(i as int, d, n as int));
        let k = self.mailbox[last.to_index()].piece_type();
        if k == PieceType::Wall || k == PieceType::Cap {
            proof {
                if width >= 2 {
                    vstd::arithmetic::power2::lemma_pow2_pos((width - 2) as nat);
                }
            }
            let single = width == 1 || ((sp as u32) / (pow2_u8(width - 2) as u32)) % 2 == 1;
            self.mailbox[i].piece_type() == PieceType::Cap && k == PieceType::Wall && single
        } else {
            true
        }
    }

    /// Every word in `ws` is a legal move here.
    pub open spec fn all_legal(self, ws: Seq<u16>) -> bool {
        forall|k: int| 0 <= k < ws.len() ==> self.legal_word(#[trigger] ws[k])
    }

    /// The squares a spread from `i` towards `d` crosses before the distance it can go
    /// hold no wall or cap.
    pub proof fn lemma_path_clear(self, i: nat, d: nat, t: int)
        requires
            self.wf(),
            i < 36,
            d < 4,
            1 <= t <= self.reach_in(i, d),
        ensures
            0 <= along(i as int, d, t) < 36,
            !self.royal_at(along(i as int, d, t)),
    {
        broadcast use vstd::std_specs::bits::axiom_u64_trailing_zeros,
            vstd::std_specs::bits::axiom_u64_leading_zeros;

        let j = along(i as int, d, t);
        let r = self.royal_bits();
        let f = (i % 6) as u64;
        let k = (i / 6) as u64;
        crate::bitboard::lemma_file_bits(f);
        crate::bitboard::lemma_rank_bits(k);
        crate::bitboard::lemma_above_bits((i + 1) as u64);
        crate::bitboard::lemma_below_bits(i as u64);
        let fm = 0x0_0041_0410_41u64 << f;
        let rm = 0x3Fu64 << (k * 6) as u64;
        let up = (BOARD_BITS >> (i + 1) as u64) << (i + 1) as u64;
        let down = ((1u64 << i as u64) - 1) as u64;
        let line = if d == 0 || d == 2 {
            fm
        } else {
            rm
        };
        let side = if d == 0 || d == 1 {
            up
        } else {
            down
        };
        let set = r & line & side;
        let b = self.blocker_at(i, d);
        assert(set == if d == 0 {
            r & fm & up
        } else if d == 1 {
            r & rm & up
        } else if d == 2 {
            r & fm & down
        } else {
            r & rm & down
        });
        assert(b == if d == 0 || d == 1 {
            lowest(set)
        } else {
            highest(set)
        });
        if set != 0 {
            crate::bitboard::lemma_and_bits(r, line, b as u64);
            crate::bitboard::lemma_and_bits(r & line, side, b as u64);
            if d == 0 || d == 1 {
                assert(b == u64_trailing_zeros(set));
            } else {
                assert(b == 63 - u64_leading_zeros(set));
                crate::bitboard::lemma_low_bit(set >> (63 - u64_leading_zeros(set)) as u64);
            }
            assert(bit(set, b as u64));
        }
        assert(0 <= j < 36);
        if self.royal_at(j) {
            assert(self.square_wf(j));
            crate::bitboard::lemma_or_bits(self.tops[1].0, self.tops[2].0, j as u64);
            crate::bitboard::lemma_and_bits(r, line, j as u64);
            crate::bitboard::lemma_and_bits(r & line, side, j as u64);
            assert(bit(set, j as u64));
            crate::bitboard::lemma_zero_bits(j as u64);
            assert(set != 0);
            if d == 0 || d == 1 {
                assert(b <= j);
            } else {
                assert(b >= j);
            }
        }
    }

    /// The wall or cap that stops a spread from `i` towards `d` lies just past the distance
    /// it can go.
    pub proof fn lemma_blocker_place(self, i: nat, d: nat)
        requires
            self.wf(),
            i < 36,
            d < 4,
            self.blocker_at(i, d) != 36,
        ensures
            self.blocker_at(i, d) == along(i as int, d, self.reach_in(i, d) + 1),
            self.reach_in(i, d) + 1 <= room(i as int, d),
    {
        broadcast use vstd::std_specs::bits::axiom_u64_trailing_zeros,
            vstd::std_specs::bits::axiom_u64_leading_zeros;

        let r = self.royal_bits();
        let f = (i % 6) as u64;
        let k = (i / 6) as u64;
        crate::bitboard::lemma_file_bits(f);
        crate::bitboard::lemma_rank_bits(k);
        crate::bitboard::lemma_above_bits((i + 1) as u64);
        crate::bitboard::lemma_below_bits(i as u64);
        let fm = 0x0_0041_0410_41u64 << f;
        let rm = 0x3Fu64 << (k * 6) as u64;
        let up = (BOARD_BITS >> (i + 1) as u64) << (i + 1) as u64;
        let down = ((1u64 << i as u64) - 1) as u64;
        let line = if d == 0 || d == 2 {
            fm
        } else {
            rm
        };
        let side = if d == 0 || d == 1 {
            up
        } else {
            down
        };
        let set = r & line & side;
        let b = self.blocker_at(i, d);
        assert(set == if d == 0 {
            r & fm & up
        } else if d == 1 {
            r & rm & up
        } else if d == 2 {
            r & fm & down
        } else {
            r & rm & down
        });
        assert(b == if d == 0 || d == 1 {
            lowest(set)
        } else {
            highest(set)
        });
        assert(set != 0);
        crate::bitboard::lemma_and_bits(r, line, b as u64);
        crate::bitboard::lemma_and_bits(r & line, side, b as u64);
        if d == 0 || d == 1 {
            assert(b == u64_trailing_zeros(set));
        } else {
            assert(b == 63 - u64_leading_zeros(set));
            crate::bitboard::lemma_low_bit(set >> (63 - u64_leading_zeros(set)) as u64);
        }
        assert(bit(set, b as u64));
    }

    /// Fills `ml` with the moves of the side to move. In the first two plies a player
    /// places a flat of the other, taken from the other's reserve; where that reserve is
    /// empty there is no move, since a placement may not overdraw a reserve.
    pub fn generate_moves(&self, ml: &mut MoveList)
        requires
            self.wf(),
        ensures
            self.all_apply(list_words(*final(ml))),
            self.all_legal(list_words(*final(ml))),
            list_words(*final(ml)) == self.move_list(),
            list_words(*final(ml)).len() == self.move_total(),
            list_words(*final(ml)).len() <= 3 * 36 + 36 * MAX_SPREADS_PER_SQUARE,
    {
        ml.clear();
        if self.ply < 2 {
            if self.remaining_stones[self.stm.opposite().to_index()] > 0 {
                self.append_placements(ml, PieceType::Flat);
                assert(list_words(*ml) =~= self.move_list());
            }
            return;
        }
        let ci = self.stm.to_index();
        if self.remaining_stones[ci] > 0 {
            self.append_placements(ml, PieceType::Flat);
            self.append_placements(ml, PieceType::Wall);
        }
        if self.remaining_caps[ci] > 0 {
            self.append_placements(ml, PieceType::Cap);
        }
        self.append_spreads(ml);
        assert(list_words(*ml) =~= self.move_list());
    }

    /// The number of moves that `generate_moves` lists, counted without listing them.
    pub fn count_moves(&self) -> (r: u64)
        requires
            self.wf(),
        ensures
            r == self.move_total(),
    {
        let counts = SpreadCounts::new();
        self.count_moves_with(&counts)
    }

    /// `count_moves`, with the pattern counts at hand.
    pub fn count_moves_with(&self, counts: &SpreadCounts) -> (r: u64)
        requires
            self.wf(),
            counts.wf(),
        ensures
            r == self.move_total(),
    {
        let e = self.count_empty();
        if self.ply < 2 {
            return if self.remaining_stones[self.stm.opposite().to_index()] > 0 {
                e
            } else {
                0
            };
        }
        let ci = self.stm.to_index();
        let mut total: u64 = 0;
        if self.remaining_stones[ci] > 0 {
            total = 2 * e;
        }
        if self.remaining_caps[ci] > 0 {
            total = total + e;
        }
        total + self.count_spreads(counts)
    }

    /// The number of empty squares.
    fn count_empty(&self) -> (r: u64)
        requires
            self.wf(),
        ensures
            r == self.empty_squares(36),
            r <= 36,
    {
        let mut i: usize = 0;
        let mut n: u64 = 0;
        while i < 36
            invariant
                i <= 36,
                n == self.empty_squares(i as nat),
                n <= i,
            decreases 36 - i,
        {
            if self.mailbox[i].is_none() {
                n += 1;
            }
            i += 1;
        }
        n
    }

    /// The number of spreads of the side to move.
    fn count_spreads(&self, counts: &SpreadCounts) -> (r: u64)
        requires
            self.wf(),
            counts.wf(),
        ensures
            r == self.spread_moves(36),
            r <= 36 * MAX_SPREADS_PER_SQUARE,
    {
        let own = self.colors[self.stm.to_index()];
        let mut i: usize = 0;
        let mut n: u64 = 0;
        while i < 36
            invariant
                i <= 36,
                self.wf(),
                own == self.colors[self.stm.index() as int],
                n == self.spread_moves(i as nat),
                n <= i * MAX_SPREADS_PER_SQUARE,
                counts.wf(),
            decreases 36 - i,
        {
            let sq = Square::new(i as u8);
            if own.get(sq) && self.heights[i] > 0 {
                n = n + self.count_spreads_from(sq, counts);
            }
            i += 1;
        }
        n
    }

    /// The number of spreads from `sq`.
    #[verifier::rlimit(60)]
    fn count_spreads_from(&self, sq: Square, counts: &SpreadCounts) -> (r: u64)
        requires
            self.wf(),
            sq.is_real(),
            counts.wf(),
        ensures
            r == self.dirs_moves(sq.index(), 4),
            r <= MAX_SPREADS_PER_SQUARE,
    {
        let limits = self.spread_calc(sq);
        let mut d: usize = 0;
        let mut n: u64 = 0;
        while d < 4
            invariant
                d <= 4,
                self.wf(),
                sq.is_real(),
                forall|k: int|
                    0 <= k < 4 ==> #[trigger] limits.distance[k] == self.reach_in(
                        sq.index(),
                        k as nat,
                    ) && limits.blocker[k].index() == self.blocker_at(sq.index(), k as nat),
                forall|k: int|
                    0 <= k < 4 ==> #[trigger] limits.distance[k] <= room(
                        sq.index() as int,
                        k as nat,
                    ),
                forall|k: int|
                    0 <= k < 4 && #[trigger] limits.blocker[k] != Square::Absent
                        ==> limits.blocker[k].is_real(),
                n == self.dirs_moves(sq.index(), d as nat),
                n <= d * 100,
                counts.wf(),
            decreases 4 - d,
        {
            let (most, lift, crush) = self.dir_params(sq, &limits, d);
            let dist = limits.distance[d];
            proof {
                lemma_count_bounds(lift as nat, most as nat, dist as nat);
            }
            let mut c: u64 = 0;
            if most != 0 {
                let j = lift as usize * 7 + most;
                assert(j / 7 == lift && j % 7 == most);
                c = counts.splats[j];
            }
            if crush {
                let j = (lift as usize - 1) * 7 + dist;
                assert(j / 7 == lift - 1 && j % 7 == dist);
                c = c + counts.crushes[j];
            }
            n = n + c;
            d += 1;
        }
        n
    }

    /// For direction `d` from `sq`: the most drops, the most tiles lifted, and whether a
    /// cap can flatten the wall that stops it.
    fn dir_params(&self, sq: Square, limits: &Limits, d: usize) -> (r: (usize, u32, bool))
        requires
            self.wf(),
            sq.is_real(),
            d < 4,
            limits.distance[d as int] == self.reach_in(sq.index(), d as nat),
            limits.blocker[d as int].index() == self.blocker_at(sq.index(), d as nat),
            limits.distance[d as int] <= room(sq.index() as int, d as nat),
            limits.blocker[d as int] != Square::Absent ==> limits.blocker[d as int].is_real(),
        ensures
            r.0 == min_nat(self.heights[sq.index() as int] as nat, limits.distance[d as int] as nat),
            r.1 == min_nat(self.heights[sq.index() as int] as nat, 6),
            r.2 == (self.mailbox[sq.index() as int].kind() == PieceType::Cap
                && self.blocker_at(sq.index(), d as nat) != 36
                && self.mailbox[self.blocker_at(sq.index(), d as nat) as int].kind() == PieceType::Wall
                && r.1 > limits.distance[d as int]),
            r.0 <= 5,
            r.1 <= 6,
            r.2 ==> r.1 >= 1,
    {
        let height = self.heights[sq.to_index()] as usize;
        let dist = limits.distance[d];
        let blocker = limits.blocker[d];
        let most = if height < dist {
            height
        } else {
            dist
        };
        let lift: u32 = if height < 6 {
            height as u32
        } else {
            6
        };
        let crush = self.piece_on(sq).piece_type() == PieceType::Cap && blocker.is_some()
            && self.piece_on(blocker).piece_type() == PieceType::Wall && lift as usize > dist;
        (most, lift, crush)
    }

    /// Adds a placement of kind `pt` on every empty square.
    fn append_placements(&self, ml: &mut MoveList, pt: PieceType)
        requires
            self.wf(),
            pt != PieceType::Absent,
            pt == PieceType::Cap ==> self.remaining_caps[self.placing_color().index() as int] > 0,
            pt != PieceType::Cap ==> self.remaining_stones[self.placing_color().index() as int]
                > 0,
            self.ply < 2 ==> pt == PieceType::Flat,
            self.all_apply(list_words(*old(ml))),
            self.all_legal(list_words(*old(ml))),
            list_words(*old(ml)).len() <= 2 * 36,
        ensures
            self.all_apply(list_words(*final(ml))),
            self.all_legal(list_words(*final(ml))),
            list_words(*final(ml)) == list_words(*old(ml)) + self.placement_words(
                pt.index() + 1,
                36,
            ),
            list_words(*final(ml)).len() == list_words(*old(ml)).len() + self.empty_squares(36),
            self.empty_squares(36) <= 36,
    {
        let empty = self.occupied().complement();
        let mut i: usize = 0;
        while i < 36
            invariant
                i <= 36,
                self.wf(),
                pt != PieceType::Absent,
                pt == PieceType::Cap ==> self.remaining_caps[self.placing_color().index() as int]
                    > 0,
                pt != PieceType::Cap ==> self.remaining_stones[self.placing_color().index() as int]
                    > 0,
                forall|j: u64| j < 64 ==> (#[trigger] bit(empty.0, j) <==> (j < 36 && !bit(
                    self.colors[0].0 | self.colors[1].0,
                    j,
                ))),
                self.all_apply(list_words(*ml)),
                self.all_legal(list_words(*ml)),
                self.ply < 2 ==> pt == PieceType::Flat,
                list_words(*ml).len() == list_words(*old(ml)).len() + self.empty_squares(i as nat),
                list_words(*ml) == list_words(*old(ml)) + self.placement_words(
                    pt.index() + 1,
                    i as nat,
                ),
                self.empty_squares(i as nat) <= i,
                list_words(*old(ml)).len() <= 2 * 36,
            decreases 36 - i,
        {
            let sq = Square::new(i as u8);
            proof {
                crate::bitboard::lemma_or_bits(self.colors[0].0, self.colors[1].0, i as u64);
                assert(self.square_wf(i as int));
            }
            let ghost before = list_words(*ml);
            if empty.get(sq) {
                let m = Move::place(pt, sq);
                ml.push(m);
                assert(list_words(*ml) =~= list_words(*old(ml)) + self.placement_words(
                    pt.index() + 1,
                    (i + 1) as nat,
                ));
            } else {
                assert(list_words(*ml) =~= list_words(*old(ml)) + self.placement_words(
                    pt.index() + 1,
                    (i + 1) as nat,
                ));
            }
            i += 1;
        }
    }

    /// How far a spread from `sq` can go in direction `d`, and the wall or cap that stops it.
    fn limit_toward(&self, sq: Square, d: usize) -> (r: (usize, Square))
        requires
            self.wf(),
            sq.is_real(),
            d < 4,
        ensures
            r.0 == self.reach_in(sq.index(), d as nat),
            r.1.index() == self.blocker_at(sq.index(), d as nat),
            r.0 <= room(sq.index() as int, d as nat),
            r.1 != Square::Absent ==> r.0 < room(sq.index() as int, d as nat) && r.1.is_real(),
    {
        let (file, rank) = sq.to_file_and_rank();
        let royals = self.tops[1].union(self.tops[2]);
        let ghost si = sq.index() as int;
        if d == 0 || d == 2 {
            let line = royals.intersection(Bitboard::file_mask(file));
            if d == 0 {
                let set = line.intersection(Bitboard::above(sq));
                let n = set.lsb();
                if n.is_none() {
                    (5 - rank, n)
                } else {
                    assert(bit(set.0, n.index() as u64));
                    assert(n.index() % 6 == si % 6 && si < n.index());
                    (n.rank() - 1 - rank, n)
                }
            } else {
                let set = line.intersection(Bitboard::below(sq));
                let s = set.msb();
                if s.is_none() {
                    (rank, s)
                } else {
                    assert(bit(set.0, s.index() as u64));
                    assert(s.index() % 6 == si % 6 && s.index() < si);
                    (rank - (s.rank() + 1), s)
                }
            }
        } else {
            let line = royals.intersection(Bitboard::rank_mask(rank));
            if d == 1 {
                let set = line.intersection(Bitboard::above(sq));
                let e = set.lsb();
                if e.is_none() {
                    (5 - file, e)
                } else {
                    assert(bit(set.0, e.index() as u64));
                    assert(e.index() / 6 == si / 6 && si < e.index());
                    (e.file() - 1 - file, e)
                }
            } else {
                let set = line.intersection(Bitboard::below(sq));
                let w = set.msb();
                if w.is_none() {
                    (file, w)
                } else {
                    assert(bit(set.0, w.index() as u64));
                    assert(w.index() / 6 == si / 6 && w.index() < si);
                    (file - (w.file() + 1), w)
                }
            }
        }
    }

    /// How far a spread from `sq` can go in each direction, and what stops it.
    fn spread_calc(&self, sq: Square) -> (r: Limits)
        requires
            self.wf(),
            sq.is_real(),
        ensures
            forall|d: int|
                0 <= d < 4 ==> #[trigger] r.distance[d] <= room(sq.index() as int, d as nat),
            forall|d: int|
                0 <= d < 4 && #[trigger] r.blocker[d] != Square::Absent ==> r.distance[d] < room(
                    sq.index() as int,
                    d as nat,
                ) && r.blocker[d].is_real(),
            forall|d: int|
                0 <= d < 4 ==> #[trigger] r.distance[d] == self.reach_in(sq.index(), d as nat)
                    && r.blocker[d].index() == self.blocker_at(sq.index(), d as nat),
    {
        let (dn, n) = self.limit_toward(sq, 0);
        let (de, e) = self.limit_toward(sq, 1);
        let (ds, s) = self.limit_toward(sq, 2);
        let (dw, w) = self.limit_toward(sq, 3);
        let r = Limits { distance: [dn, de, ds, dw], blocker: [n, e, s, w] };
        assert(r.distance@ =~= seq![dn, de, ds, dw]);
        assert(r.blocker@ =~= seq![n, e, s, w]);
        r
    }

    /// Adds every spread of the side to move.
    fn append_spreads(&self, ml: &mut MoveList)
        requires
            self.wf(),
            self.all_apply(list_words(*old(ml))),
            self.all_legal(list_words(*old(ml))),
            list_words(*old(ml)).len() <= 3 * 36,
        ensures
            self.all_apply(list_words(*final(ml))),
            self.all_legal(list_words(*final(ml))),
            list_words(*final(ml)) == list_words(*old(ml)) + self.spread_words(36),
            list_words(*final(ml)).len() == list_words(*old(ml)).len() + self.spread_moves(36),
            self.spread_moves(36) <= 36 * MAX_SPREADS_PER_SQUARE,
    {
        let own = self.colors[self.stm.to_index()];
        let ghost len0 = list_words(*old(ml)).len();
        let mut i: usize = 0;
        while i < 36
            invariant
                i <= 36,
                self.wf(),
                own == self.colors[self.stm.index() as int],
                len0 <= 3 * 36,
                self.all_apply(list_words(*ml)),
                self.all_legal(list_words(*ml)),
                list_words(*ml).len() == len0 + self.spread_moves(i as nat),
                list_words(*ml) == list_words(*old(ml)) + self.spread_words(i as nat),
                self.spread_moves(i as nat) <= i * MAX_SPREADS_PER_SQUARE,
            decreases 36 - i,
        {
            let sq = Square::new(i as u8);
            if own.get(sq) && self.heights[i] > 0 {
                self.append_spreads_from(ml, sq);
            }
            assert(list_words(*ml) =~= list_words(*old(ml)) + self.spread_words((i + 1) as nat));
            i += 1;
        }
    }

    /// Adds every spread from `sq`.
    #[verifier::rlimit(60)]
    fn append_spreads_from(&self, ml: &mut MoveList, sq: Square)
        requires
            self.wf(),
            sq.is_real(),
            bit(self.colors[self.stm.index() as int].0, sq.index() as u64),
            self.all_apply(list_words(*old(ml))),
            self.all_legal(list_words(*old(ml))),
            list_words(*old(ml)).len() <= 3 * 36 + 35 * MAX_SPREADS_PER_SQUARE,
        ensures
            self.all_apply(list_words(*final(ml))),
            self.all_legal(list_words(*final(ml))),
            list_words(*final(ml)).len() == list_words(*old(ml)).len() + self.dirs_moves(
                sq.index(),
                4,
            ),
            list_words(*final(ml)) == list_words(*old(ml)) + self.dirs_words(sq.index(), 4),
            self.dirs_moves(sq.index(), 4) <= MAX_SPREADS_PER_SQUARE,
    {
        let limits = self.spread_calc(sq);
        let ghost len0 = list_words(*old(ml)).len();
        let mut d: usize = 0;
        proof {
            lemma2_to64();
        }
        while d < 4
            invariant
                d <= 4,
                self.wf(),
                sq.is_real(),
                forall|k: int|
                    0 <= k < 4 ==> #[trigger] limits.distance[k] == self.reach_in(
                        sq.index(),
                        k as nat,
                    ) && limits.blocker[k].index() == self.blocker_at(sq.index(), k as nat),
                forall|k: int|
                    0 <= k < 4 ==> #[trigger] limits.distance[k] <= room(
                        sq.index() as int,
                        k as nat,
                    ),
                forall|k: int|
                    0 <= k < 4 && #[trigger] limits.blocker[k] != Square::Absent
                        ==> limits.distance[k] < room(sq.index() as int, k as nat)
                        && limits.blocker[k].is_real(),
                self.all_apply(list_words(*ml)),
                self.all_legal(list_words(*ml)),
                bit(self.colors[self.stm.index() as int].0, sq.index() as u64),
                list_words(*ml).len() == len0 + self.dirs_moves(sq.index(), d as nat),
                self.dirs_moves(sq.index(), d as nat) <= d * 100,
                len0 <= 3 * 36 + 35 * MAX_SPREADS_PER_SQUARE,
                pow2(6) == 64,
                list_words(*ml) == list_words(*old(ml)) + self.dirs_words(sq.index(), d as nat),
            decreases 4 - d,
        {
            let dir = Dir::from_index(d);
            let dist = limits.distance[d];
            let (most, lift, crush) = self.dir_params(sq, &limits, d);
            let ghost len_d = list_words(*ml).len();
            proof {
                lemma_count_bounds(lift as nat, most as nat, dist as nat);
            }
            if most != 0 {
                self.append_splats(ml, sq, dir, lift, most);
            }
            let ghost len_c = list_words(*ml).len();
            if crush {
                proof {
                    self.lemma_blocker_place(sq.index(), d as nat);
                }
                self.append_crushes(ml, sq, dir, lift, dist);
            }
            assert(list_words(*ml) =~= list_words(*old(ml)) + self.dirs_words(
                sq.index(),
                (d + 1) as nat,
            ));
            d += 1;
        }
    }

    /// Adds the spreads from `sq` towards `dir` that lift at most `lift` tiles and drop on
    /// at most `most` squares.
    fn append_splats(&self, ml: &mut MoveList, sq: Square, dir: Dir, lift: u32, most: usize)
        requires
            self.wf(),
            sq.is_real(),
            1 <= lift <= 6,
            lift <= self.heights[sq.index() as int],
            1 <= most <= room(sq.index() as int, dir.index()),
            most <= self.reach_in(sq.index(), dir.index()),
            bit(self.colors[self.stm.index() as int].0, sq.index() as u64),
            self.all_apply(list_words(*old(ml))),
            self.all_legal(list_words(*old(ml))),
            list_words(*old(ml)).len() <= 3 * 36 + 36 * MAX_SPREADS_PER_SQUARE,
        ensures
            self.all_apply(list_words(*final(ml))),
            self.all_legal(list_words(*final(ml))),
            list_words(*final(ml)).len() == list_words(*old(ml)).len() + splat_count(
                pow2(lift as nat),
                most as nat,
            ),
            list_words(*final(ml)) == list_words(*old(ml)) + splat_words(
                sq.index(),
                dir.index(),
                most as nat,
                pow2(lift as nat),
            ),
    {
        let limit = pow2_u8(lift);
        proof {
            lemma2_to64();
            if lift < 6 {
                vstd::arithmetic::power2::lemma_pow2_strictly_increases(lift as nat, 6);
            }
            vstd::arithmetic::power2::lemma_pow2_pos(lift as nat);
        }
        let ghost len0 = list_words(*old(ml)).len();
        let mut splat: u8 = 1;
        assert(splat_count(0, most as nat) == 0);
        assert(splat_words(sq.index(), dir.index(), most as nat, 0) =~= Seq::<u16>::empty());
        assert(splat_words(sq.index(), dir.index(), most as nat, 1) =~= Seq::<u16>::empty());
        assert(list_words(*ml) =~= list_words(*old(ml)) + Seq::<u16>::empty());
        assert(splat_count(1, most as nat) == 0);
        while splat < limit
            invariant
                1 <= splat <= limit,
                limit == pow2(lift as nat),
                limit <= 64,
                1 <= lift <= 6,
                lift <= self.heights[sq.index() as int],
                most <= room(sq.index() as int, dir.index()),
                most <= self.reach_in(sq.index(), dir.index()),
                self.wf(),
                bit(self.colors[self.stm.index() as int].0, sq.index() as u64),
                sq.is_real(),
                self.all_apply(list_words(*ml)),
                self.all_legal(list_words(*ml)),
                list_words(*ml).len() == len0 + splat_count(splat as nat, most as nat),
                list_words(*ml) == list_words(*old(ml)) + splat_words(
                    sq.index(),
                    dir.index(),
                    most as nat,
                    splat as nat,
                ),
                splat_count(splat as nat, most as nat) <= splat,
                len0 <= 3 * 36 + 36 * MAX_SPREADS_PER_SQUARE,
            decreases limit - splat,
        {
            if count_bits(splat) as usize <= most {
                proof {
                    lemma_width_bound(splat as nat, lift as nat);
                    let i = sq.index();
                    let n = bit_count(splat as nat) as int;
                    assert forall|t: int| 1 <= t <= n implies !self.royal_at(
                        #[trigger] along(i as int, dir.index(), t),
                    ) by {
                        self.lemma_path_clear(i, dir.index(), t);
                    }
                    assert(n >= 1) by {
                        lemma_count_pos(splat as nat);
                    }
                }
                ml.push(Move::spread(sq, dir, splat));
            }
            assert(list_words(*ml) =~= list_words(*old(ml)) + splat_words(
                sq.index(),
                dir.index(),
                most as nat,
                (splat + 1) as nat,
            ));
            splat += 1;
        }
    }

    /// Adds the spreads from `sq` towards `dir` that cross `dist` squares and end with the
    /// cap alone on the wall beyond them.
    fn append_crushes(&self, ml: &mut MoveList, sq: Square, dir: Dir, lift: u32, dist: usize)
        requires
            self.wf(),
            sq.is_real(),
            1 <= lift <= 6,
            lift <= self.heights[sq.index() as int],
            dist < room(sq.index() as int, dir.index()),
            dist == self.reach_in(sq.index(), dir.index()),
            self.blocker_at(sq.index(), dir.index()) == along(
                sq.index() as int,
                dir.index(),
                dist + 1,
            ),
            self.mailbox[sq.index() as int].kind() == PieceType::Cap,
            self.mailbox[along(sq.index() as int, dir.index(), dist + 1)].kind() == PieceType::Wall,
            bit(self.colors[self.stm.index() as int].0, sq.index() as u64),
            self.all_apply(list_words(*old(ml))),
            self.all_legal(list_words(*old(ml))),
            list_words(*old(ml)).len() <= 3 * 36 + 36 * MAX_SPREADS_PER_SQUARE + 64,
        ensures
            self.all_apply(list_words(*final(ml))),
            self.all_legal(list_words(*final(ml))),
            list_words(*final(ml)).len() == list_words(*old(ml)).len() + crush_count(
                pow2((lift - 1) as nat),
                dist as nat,
            ),
            list_words(*final(ml)) == list_words(*old(ml)) + crush_words(
                sq.index(),
                dir.index(),
                dist as nat,
                pow2((lift - 1) as nat),
            ),
    {
        let limit = pow2_u8(lift - 1);
        proof {
            lemma2_to64();
            if lift - 1 < 5 {
                vstd::arithmetic::power2::lemma_pow2_strictly_increases((lift - 1) as nat, 5);
            }
        }
        let ghost len0 = list_words(*old(ml)).len();
        let mut pre: u8 = 0;
        assert(list_words(*ml) =~= list_words(*old(ml)) + Seq::<u16>::empty());
        while pre < limit
            invariant
                pre <= limit,
                limit == pow2((lift - 1) as nat),
                limit <= 32,
                1 <= lift <= 6,
                lift <= self.heights[sq.index() as int],
                dist < room(sq.index() as int, dir.index()),
                dist == self.reach_in(sq.index(), dir.index()),
                self.mailbox[sq.index() as int].kind() == PieceType::Cap,
                self.mailbox[along(sq.index() as int, dir.index(), dist + 1)].kind()
                    == PieceType::Wall,
                self.wf(),
                bit(self.colors[self.stm.index() as int].0, sq.index() as u64),
                sq.is_real(),
                self.all_apply(list_words(*ml)),
                self.all_legal(list_words(*ml)),
                list_words(*ml).len() == len0 + crush_count(pre as nat, dist as nat),
                list_words(*ml) == list_words(*old(ml)) + crush_words(
                    sq.index(),
                    dir.index(),
                    dist as nat,
                    pre as nat,
                ),
                crush_count(pre as nat, dist as nat) <= pre,
                len0 <= 3 * 36 + 36 * MAX_SPREADS_PER_SQUARE + 64,
                pow2(6) == 64,
            decreases limit - pre,
        {
            if count_bits(pre) as usize == dist {
                let w = width_of(pre);
                proof {
                    lemma_width_bound(pre as nat, (lift - 1) as nat);
                    lemma_extend(pre as nat);
                    lemma_pow2_unfold(w as nat + 1);
                    if w + 1 < 6 {
                        vstd::arithmetic::power2::lemma_pow2_strictly_increases((w + 1) as nat, 6);
                    }
                    let i = sq.index();
                    assert forall|t: int| 1 <= t <= dist implies !self.royal_at(
                        #[trigger] along(i as int, dir.index(), t),
                    ) by {
                        self.lemma_path_clear(i, dir.index(), t);
                    }
                    lemma_last_single(pre as nat);
                }
                ml.push(Move::spread(sq, dir, pre + pow2_u8(w)));
            }
            assert(list_words(*ml) =~= list_words(*old(ml)) + crush_words(
                sq.index(),
                dir.index(),
                dist as nat,
                (pre + 1) as nat,
            ));
            pre += 1;
        }
    }
}

/// The drop patterns below `2^lift`, zero left out, with at most `most` drops.
fn count_splats(lift: u32, most: usize) -> (r: u64)
    requires
        lift <= 6,
    ensures
        r == splat_count(pow2(lift as nat), most as nat),
        r <= 64,
{
    let limit = pow2_u8(lift);
    proof {
        lemma2_to64();
        if lift < 6 {
            vstd::arithmetic::power2::lemma_pow2_strictly_increases(lift as nat, 6);
        }
    }
    let mut s: u8 = 0;
    let mut n: u64 = 0;
    while s < limit
        invariant
            s <= limit,
            limit == pow2(lift as nat),
            limit <= 64,
            n == splat_count(s as nat, most as nat),
            n <= s,
        decreases limit - s,
    {
        if s >= 1 && count_bits(s) as usize <= most {
            n += 1;
        }
        s += 1;
    }
    n
}

/// The patterns below `2^k` with exactly `drops` drops.
fn count_crushes(k: u32, drops: usize) -> (r: u64)
    requires
        k <= 5,
    ensures
        r == crush_count(pow2(k as nat), drops as nat),
        r <= 32,
{
    let limit = pow2_u8(k);
    proof {
        lemma2_to64();
        if k < 5 {
            vstd::arithmetic::power2::lemma_pow2_strictly_increases(k as nat, 5);
        }
    }
    let mut s: u8 = 0;
    let mut n: u64 = 0;
    while s < limit
        invariant
            s <= limit,
            limit == pow2(k as nat),
            limit <= 32,
            n == crush_count(s as nat, drops as nat),
            n <= s,
        decreases limit - s,
    {
        if count_bits(s) as usize == drops {
            n += 1;
        }
        s += 1;
    }
    n
}

/// A non-empty pattern has a set bit.
proof fn lemma_count_pos(x: nat)
    requires
        x > 0,
    ensures
        bit_count(x) >= 1,
    decreases x,
{
    if x % 2 == 0 {
        lemma_count_pos(x / 2);
    }
}

/// A non-empty pattern is at least the bit of its highest tile.
proof fn lemma_width_low(x: nat)
    requires
        x > 0,
    ensures
        pow2((bit_width(x) - 1) as nat) <= x,
    decreases x,
{
    lemma2_to64();
    if x / 2 > 0 {
        lemma_width_low(x / 2);
        assert(bit_width(x) == 1 + bit_width(x / 2));
        assert(bit_width(x / 2) >= 1);
        lemma_pow2_unfold(bit_width(x / 2));
        assert(pow2((bit_width(x) - 1) as nat) == 2 * pow2((bit_width(x / 2) - 1) as nat));
    } else {
        assert(x == 1);
        assert(bit_width(0) == 0);
        assert(bit_width(x) == 1);
    }
}

/// A crush pattern ends with a drop of one tile.
proof fn lemma_last_single(pre: nat)
    ensures
        last_drop_single(pre + pow2(bit_width(pre))),
{
    lemma_extend(pre);
    lemma2_to64();
    if pre > 0 {
        let w = bit_width(pre);
        lemma_width_low(pre);
        lemma_pow2_unfold(w);
        let p = pow2((w - 1) as nat);
        assert(p > 0);
        assert((pre + 2 * p) / p == 3) by (nonlinear_arith)
            requires
                p <= pre < 2 * p,
                p > 0,
        ;
    } else {
        assert(bit_width(0) == 0);
        assert(bit_width(1) == 1) by {
            assert(bit_width(0) == 0);
        }
    }
}

/// A direction gives at most 64 + 32 spreads.
proof fn lemma_count_bounds(lift: nat, most: nat, dist: nat)
    requires
        lift <= 6,
    ensures
        splat_count(pow2(lift), most) <= 64,
        lift >= 1 ==> crush_count(pow2((lift - 1) as nat), dist) <= 32,
{
    lemma2_to64();
    if lift < 6 {
        vstd::arithmetic::power2::lemma_pow2_strictly_increases(lift, 6);
    }
    lemma_splat_count_le(pow2(lift), most);
    if lift >= 1 {
        if lift - 1 < 5 {
            vstd::arithmetic::power2::lemma_pow2_strictly_increases((lift - 1) as nat, 5);
        }
        lemma_crush_count_le(pow2((lift - 1) as nat), dist);
    }
}

proof fn lemma_splat_count_le(n: nat, most: nat)
    ensures
        splat_count(n, most) <= n,
    decreases n,
{
    if n > 0 {
        lemma_splat_count_le((n - 1) as nat, most);
    }
}

proof fn lemma_crush_count_le(n: nat, drops: nat)
    ensures
        crush_count(n, drops) <= n,
    decreases n,
{
    if n > 0 {
        lemma_crush_count_le((n - 1) as nat, drops);
    }
}

} // verus!
