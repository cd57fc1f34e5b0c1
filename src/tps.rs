use crate::bitboard::Bitboard;
use crate::color::Color;
use crate::piece::{Piece, PieceType};
use crate::position::{
    cap_count, lemma_caps_none, lemma_caps_update, lemma_ones_push, lemma_tiles_zero, lemma_sum_update, lemma_tiles_update, ones, p2_tiles, sum_u8,
    Position, STARTING_CAPS, STARTING_STONES,
};
use crate::square::Square;
use crate::text::{chars_of, push_char, split_on, split_spec, split_whitespace, words};
use vstd::prelude::*;

verus! {

/// Why a position string could not be read.
#[derive(Copy, Clone, Debug, PartialEq, Eq, Structural)]
pub enum TpsError {
    WrongPartCount,
    WrongRankCount,
    WrongFileCount,
    InvalidEmptySquare,
    NonTrailingPieceType,
    InvalidCharacter,
    TooManyStones,
    TooManyCaps,
    InvalidSideToMove,
    InvalidFullMoveCounter,
}

/// The side to move that a position string names: `1` or `2`.
pub open spec fn side_of(s: Seq<char>) -> Option<Color> {
    if s == seq!['1'] {
        Some(Color::P1)
    } else if s == seq!['2'] {
        Some(Color::P2)
    } else {
        None
    }
}

/// Whether `c` is an ASCII decimal digit.
pub open spec fn is_digit(c: char) -> bool {
    '0' <= c <= '9'
}

/// The value of the decimal digits `s[0..n]`.
pub open spec fn decimal_value(s: Seq<char>, n: int) -> nat
    decreases n,
{
    if n <= 0 {
        0
    } else {
        decimal_value(s, n - 1) * 10 + ((s[n - 1] as u32 - '0' as u32) as nat)
    }
}

/// Where the digits of a move number start: after an optional `+`.
pub open spec fn sign_len(s: Seq<char>) -> int {
    if s.len() > 0 && s[0] == '+' {
        1
    } else {
        0
    }
}

/// The move number of a position string: decimal digits, after an optional `+`, whose
/// value lies in 1..=32768 (the largest whose ply fits 16 bits).
pub open spec fn fullmove_of(s: Seq<char>) -> Option<nat> {
    let d = s.skip(sign_len(s));
    if 0 < d.len() && (forall|i: int| 0 <= i < d.len() ==> is_digit(#[trigger] d[i])) && 1
        <= decimal_value(d, d.len() as int) <= 32768 {
        Some(decimal_value(d, d.len() as int))
    } else {
        None
    }
}

/// Reads a decimal number, or gives `None` where `cs` is empty, holds a non-digit, or
/// exceeds `limit`.
pub(crate) fn parse_number(cs: &Vec<char>, start: usize, limit: u32) -> (r: Option<u32>)
    requires
        start <= cs.len(),
        limit < 100_000,
    ensures
        r == (if start < cs.len() && (forall|i: int| start <= i < cs.len() ==> is_digit(#[trigger] cs@[i]))
            && decimal_value(cs@.skip(start as int), cs.len() - start) <= limit {
            Some(decimal_value(cs@.skip(start as int), cs.len() - start) as u32)
        } else {
            None::<u32>
        }),
{
    if start == cs.len() {
        return None;
    }
    let ghost t = cs@.skip(start as int);
    let mut i: usize = start;
    let mut v: u32 = 0;
    while i < cs.len()
        invariant
            start <= i <= cs.len(),
            t == cs@.skip(start as int),
            forall|k: int| start <= k < i ==> is_digit(#[trigger] cs@[k]),
            v == decimal_value(t, i - start),
            v <= limit,
            limit < 100_000,
        decreases cs.len() - i,
    {
        let c = cs[i];
        if !('0' <= c && c <= '9') {
            return None;
        }
        let d = (c as u32) - ('0' as u32);
        assert(t[i - start] == c);
        assert(v * 10 + d <= 1_000_009) by (nonlinear_arith)
            requires
                v <= limit,
                limit < 100_000,
                d <= 9,
        ;
        v = v * 10 + d;
        if v > limit {
            proof {
                if forall|k: int| start <= k < cs.len() ==> is_digit(#[trigger] cs@[k]) {
                    assert forall|k: int| 0 <= k < cs.len() - start implies is_digit(
                        #[trigger] t[k],
                    ) by {
                        assert(t[k] == cs@[start + k]);
                    }
                    lemma_decimal_grows(t, i - start + 1, cs.len() - start);
                }
            }
            return None;
        }
        i += 1;
    }
    Some(v)
}

/// A longer run of digits has no smaller value.
proof fn lemma_decimal_grows(s: Seq<char>, m: int, n: int)
    requires
        0 <= m <= n <= s.len(),
        forall|i: int| 0 <= i < n ==> is_digit(#[trigger] s[i]),
    ensures
        decimal_value(s, m) <= decimal_value(s, n),
    decreases n - m,
{
    if m < n {
        lemma_decimal_grows(s, m, n - 1);
    }
}

/// After the first `n` characters of a stack cell: the stack word, the height, the kind
/// read for the top so far (`Absent` for none yet) and the second player's tiles; or the
/// first error. A stack taller than 62 tiles holds more than the whole stock: its height
/// is then given as 63 and nothing more is recorded of it.
pub open spec fn stack_prefix(c: Seq<char>, n: int) -> Result<(u64, nat, PieceType, nat), TpsError>
    decreases n,
{
    if n <= 0 {
        Ok((0u64, 0nat, PieceType::Absent, 0nat))
    } else {
        match stack_prefix(c, n - 1) {
            Err(e) => Err(e),
            Ok((w, h, top, twos)) => {
                let ch = c[n - 1];
                if top != PieceType::Absent {
                    Err(TpsError::NonTrailingPieceType)
                } else if ch == 'S' {
                    Ok((w, h, PieceType::Wall, twos))
                } else if ch == 'C' {
                    Ok((w, h, PieceType::Cap, twos))
                } else if ch == '1' || ch == '2' {
                    if h >= 62 {
                        Ok((w, 63nat, PieceType::Absent, twos))
                    } else {
                        let b: u64 = if ch == '2' {
                            1
                        } else {
                            0
                        };
                        Ok(((w << 1u64) | b, h + 1, PieceType::Absent, twos + b as nat))
                    }
                } else {
                    Err(TpsError::InvalidCharacter)
                }
            },
        }
    }
}

/// The stack that a cell names: its word, height, kind on top and second-player tiles.
pub open spec fn stack_cell_spec(c: Seq<char>) -> Result<(u64, nat, PieceType, nat), TpsError> {
    match stack_prefix(c, c.len() as int) {
        Err(e) => Err(e),
        Ok((w, h, top, twos)) => if h == 0 {
            Err(TpsError::InvalidEmptySquare)
        } else {
            Ok(
                (
                    w,
                    h,
                    if top == PieceType::Absent {
                        PieceType::Flat
                    } else {
                        top
                    },
                    twos,
                ),
            )
        },
    }
}

/// The number of empty squares that a cell `x[N]` names (a count above 7 is read as 7,
/// which is already too many for a rank).
pub open spec fn run_cell_spec(c: Seq<char>) -> Result<nat, TpsError> {
    if c.len() == 1 {
        Ok(1)
    } else if forall|i: int| 1 <= i < c.len() ==> is_digit(#[trigger] c[i]) {
        let v = decimal_value(c.skip(1), c.len() - 1);
        Ok(
            if v > 7 {
                7
            } else {
                v
            },
        )
    } else {
        Err(TpsError::InvalidEmptySquare)
    }
}

/// A board being read: heights, stack words and top tiles, and each player's stones and
/// caps counted so far.
pub struct Reading {
    pub heights: Seq<u8>,
    pub stacks: Seq<u64>,
    pub mailbox: Seq<Piece>,
    pub stones: (int, int),
    pub caps: (int, int),
    /// A stack taller than the whole stock was read.
    pub overfull: bool,
}

/// The empty board, nothing counted.
pub open spec fn empty_reading() -> Reading {
    Reading {
        heights: Seq::new(36, |i: int| 0u8),
        stacks: Seq::new(36, |i: int| 0u64),
        mailbox: Seq::new(36, |i: int| Piece::Empty),
        stones: (0, 0),
        caps: (0, 0),
        overfull: false,
    }
}

/// `g` with the stack of word `w`, height `h` and kind `top` on square `i`, its tiles
/// counted: a cap is one of its player's caps instead of a stone.
pub open spec fn put_reading(g: Reading, i: int, w: u64, h: nat, top: PieceType, twos: nat) -> Reading {
    let c = (w % 2) as int;
    let s0 = g.stones.0 + (h - twos);
    let s1 = g.stones.1 + twos;
    let cap = top == PieceType::Cap;
    Reading {
        heights: g.heights.update(i, h as u8),
        stacks: g.stacks.update(i, w),
        mailbox: g.mailbox.update(i, Piece::of(Color::of_index(c), top)),
        stones: if cap && c == 0 {
            (s0 - 1, s1)
        } else if cap {
            (s0, s1 - 1)
        } else {
            (s0, s1)
        },
        caps: if cap && c == 0 {
            (g.caps.0 + 1, g.caps.1)
        } else if cap {
            (g.caps.0, g.caps.1 + 1)
        } else {
            g.caps
        },
        overfull: g.overfull,
    }
}

/// After the first `k` cells of rank `rank`: the file reached and the board; or the first
/// error.
pub open spec fn cells_fold(cells: Seq<Seq<char>>, k: int, rank: nat, g: Reading) -> Result<
    (nat, Reading),
    TpsError,
>
    decreases k,
{
    if k <= 0 {
        Ok((0nat, g))
    } else {
        match cells_fold(cells, k - 1, rank, g) {
            Err(e) => Err(e),
            Ok((file, g1)) => {
                let c = cells[k - 1];
                if file >= 6 {
                    Err(TpsError::WrongFileCount)
                } else if c.len() == 0 {
                    Err(TpsError::InvalidEmptySquare)
                } else if c[0] == 'x' {
                    match run_cell_spec(c) {
                        Err(e) => Err(e),
                        Ok(n) => Ok((file + n, g1)),
                    }
                } else {
                    match stack_cell_spec(c) {
                        Err(e) => Err(e),
                        Ok((w, h, top, twos)) => if h > 62 {
                            Ok((file + 1, Reading { overfull: true, ..g1 }))
                        } else {
                            Ok((file + 1, put_reading(g1, (file + 6 * rank) as int, w, h, top, twos)))
                        },
                    }
                }
            },
        }
    }
}

/// After the first `n` ranks (from rank 6 down): the board; or the first error.
pub open spec fn ranks_fold(ranks: Seq<Seq<char>>, n: int, g: Reading) -> Result<Reading, TpsError>
    decreases n,
{
    if n <= 0 {
        Ok(g)
    } else {
        match ranks_fold(ranks, n - 1, g) {
            Err(e) => Err(e),
            Ok(g1) => {
                let cells = split_spec(ranks[n - 1], ',');
                match cells_fold(cells, cells.len() as int, (6 - n) as nat, g1) {
                    Err(e) => Err(e),
                    Ok((file, g2)) => if file != 6 {
                        Err(TpsError::WrongFileCount)
                    } else {
                        Ok(g2)
                    },
                }
            },
        }
    }
}

/// What a position string's three parts give: the board, the side to move and the move
/// number; or the error that reading them gives.
pub open spec fn tps_spec(board: Seq<char>, stm: Seq<char>, fullmove: Seq<char>) -> Result<
    (Reading, Color, nat),
    TpsError,
> {
    let ranks = split_spec(board, '/');
    if ranks.len() != 6 {
        Err(TpsError::WrongRankCount)
    } else {
        match ranks_fold(ranks, 6, empty_reading()) {
            Err(e) => Err(e),
            Ok(g) => if g.overfull || g.stones.0 > 30 || g.stones.1 > 30 {
                Err(TpsError::TooManyStones)
            } else if g.caps.0 > 1 || g.caps.1 > 1 {
                Err(TpsError::TooManyCaps)
            } else if side_of(stm) is None {
                Err(TpsError::InvalidSideToMove)
            } else if fullmove_of(fullmove) is None {
                Err(TpsError::InvalidFullMoveCounter)
            } else {
                Ok((g, side_of(stm)->0, fullmove_of(fullmove)->0))
            },
        }
    }
}

/// The board of `p` and the given counts, as a reading.
pub open spec fn reading_of(p: Position, s0: int, s1: int, c0: int, c1: int, over: bool) -> Reading {
    Reading {
        heights: p.heights@,
        stacks: p.stacks@,
        mailbox: p.mailbox@,
        stones: (s0, s1),
        caps: (c0, c1),
        overfull: over,
    }
}

/// Once reading the cells of a rank fails, reading more of them fails the same way.
proof fn lemma_cells_err(cells: Seq<Seq<char>>, m: int, n: int, rank: nat, g: Reading)
    requires
        0 <= m <= n,
        cells_fold(cells, m, rank, g) is Err,
    ensures
        cells_fold(cells, n, rank, g) == cells_fold(cells, m, rank, g),
    decreases n - m,
{
    if n > m {
        lemma_cells_err(cells, m, n - 1, rank, g);
    }
}

/// Once reading the ranks fails, reading more of them fails the same way.
proof fn lemma_ranks_err(ranks: Seq<Seq<char>>, m: int, n: int, g: Reading)
    requires
        0 <= m <= n,
        ranks_fold(ranks, m, g) is Err,
    ensures
        ranks_fold(ranks, n, g) == ranks_fold(ranks, m, g),
    decreases n - m,
{
    if n > m {
        lemma_ranks_err(ranks, m, n - 1, g);
    }
}

/// A cell that fails fails the whole board.
proof fn lemma_fail_cell(
    sranks: Seq<Seq<char>>,
    n: int,
    scells: Seq<Seq<char>>,
    k: int,
    rank: nat,
    g0: Reading,
)
    requires
        0 <= n < 6,
        0 <= k < scells.len(),
        sranks.len() == 6,
        scells == split_spec(sranks[n], ','),
        rank == 5 - n,
        ranks_fold(sranks, n, empty_reading()) == Ok::<Reading, TpsError>(g0),
        cells_fold(scells, k + 1, rank, g0) is Err,
    ensures
        ranks_fold(sranks, 6, empty_reading()) == Err::<Reading, TpsError>(
            cells_fold(scells, k + 1, rank, g0)->Err_0,
        ),
{
    lemma_cells_err(scells, k + 1, scells.len() as int, rank, g0);
    assert(ranks_fold(sranks, n + 1, empty_reading()) is Err);
    lemma_ranks_err(sranks, n + 1, 6, empty_reading());
}

/// Once reading a stack cell fails, reading more of it fails the same way.
proof fn lemma_stack_err(c: Seq<char>, m: int, n: int)
    requires
        0 <= m <= n,
        stack_prefix(c, m) is Err,
    ensures
        stack_prefix(c, n) == stack_prefix(c, m),
    decreases n - m,
{
    if n > m {
        lemma_stack_err(c, m, n - 1);
    }
}

/// Reads a stack cell: the colours bottom first as `1` and `2`, then `S` or `C` for a wall
/// or cap on top. Gives the stack word, the height, the kind on top and the number of
/// second-player tiles.
fn parse_stack(cell: &Vec<char>) -> (r: Result<(u64, u8, PieceType, usize), TpsError>)
    ensures
        match r {
            Ok((w, h, top, twos)) => stack_cell_spec(cell@) == Ok::<
                (u64, nat, PieceType, nat),
                TpsError,
            >((w, h as nat, top, twos as nat)),
            Err(e) => stack_cell_spec(cell@) == Err::<(u64, nat, PieceType, nat), TpsError>(e),
        },
        r is Ok ==> ({
            let (w, h, top, twos) = r->Ok_0;
            &&& 1 <= h <= 63
            &&& h <= 62 ==> w >> h as u64 == 0 && ones(w) == twos && twos <= h
            &&& top != PieceType::Absent
        }),
{
    let mut h: u8 = 0;
    let mut w: u64 = 0;
    let mut top = PieceType::Absent;
    let mut twos: usize = 0;
    let mut j: usize = 0;
    proof {
        crate::bitboard::lemma_zero_bits(0);
    }
    while j < cell.len()
        invariant
            j <= cell.len(),
            h <= 63,
            h <= 62 ==> w >> h as u64 == 0 && ones(w) == twos && twos <= h,
            top == PieceType::Absent || top == PieceType::Wall || top == PieceType::Cap,
            stack_prefix(cell@, j as int) == Ok::<(u64, nat, PieceType, nat), TpsError>(
                (w, h as nat, top, twos as nat),
            ),
        decreases cell.len() - j,
    {
        if top.is_some() {
            proof {
                lemma_stack_err(cell@, j + 1, cell.len() as int);
            }
            return Err(TpsError::NonTrailingPieceType);
        }
        let ch = cell[j];
        if ch == 'S' {
            top = PieceType::Wall;
        } else if ch == 'C' {
            top = PieceType::Cap;
        } else if ch == '1' || ch == '2' {
            if h >= 62 {
                h = 63;
            } else {
                let b: u64 = if ch == '2' {
                    1
                } else {
                    0
                };
                proof {
                    lemma_ones_push(w, b, h as u64);
                }
                w = (w << 1u64) | b;
                h = h + 1;
                twos = twos + b as usize;
            }
        } else {
            proof {
                lemma_stack_err(cell@, j + 1, cell.len() as int);
            }
            return Err(TpsError::InvalidCharacter);
        }
        j += 1;
    }
    if h == 0 {
        return Err(TpsError::InvalidEmptySquare);
    }
    Ok((w, h, top.some_or(PieceType::Flat), twos))
}

impl Position {
    /// This position is what the reading `t` gives: its board, reserves of what the board
    /// leaves of the starting stock, side to move, and ply of the move number.
    pub open spec fn read_from(self, t: Result<(Reading, Color, nat), TpsError>) -> bool {
        &&& t is Ok
        &&& ({
            let (g, side, n) = t->Ok_0;
            &&& self.heights@ == g.heights
            &&& self.stacks@ == g.stacks
            &&& self.mailbox@ == g.mailbox
            &&& self.remaining_stones[0] == STARTING_STONES - g.stones.0
            &&& self.remaining_stones[1] == STARTING_STONES - g.stones.1
            &&& self.remaining_caps[0] == STARTING_CAPS - g.caps.0
            &&& self.remaining_caps[1] == STARTING_CAPS - g.caps.1
            &&& self.stm == side
            &&& self.ply == (n - 1) * 2 + side.index()
        })
    }

    /// Square `i` holds nothing yet.
    pub open spec fn untouched(self, i: int) -> bool {
        self.mailbox[i] == Piece::Empty && self.heights[i] == 0 && self.stacks[i] == 0
    }

    /// The tiles counted so far agree with the board: heights add up to all of them, the
    /// stack words hold the second player's, and the caps on top are those counted.
    pub open spec fn tally(self, s0: int, s1: int, c0: int, c1: int) -> bool {
        &&& sum_u8(self.heights@, 36) == s0 + s1 + c0 + c1
        &&& p2_tiles(self.stacks@, 36) == s1 + c1
        &&& cap_count(self.mailbox@, Color::P1, 36) == c0
        &&& cap_count(self.mailbox@, Color::P2, 36) == c1
        &&& 0 <= s0 && 0 <= s1 && 0 <= c0 && 0 <= c1
    }

    /// Puts a stack of height `h` with word `w` and kind `top` on top on the untouched
    /// square `sq`.
    fn put_stack(&mut self, sq: Square, w: u64, h: u8, top: PieceType)
        requires
            old(self).board_wf(),
            sq.is_real(),
            old(self).untouched(sq.index() as int),
            1 <= h <= 62,
            w >> h as u64 == 0,
            top != PieceType::Absent,
        ensures
            final(self).board_wf(),
            final(self).remaining_stones == old(self).remaining_stones,
            final(self).remaining_caps == old(self).remaining_caps,
            final(self).heights@ == old(self).heights@.update(sq.index() as int, h),
            final(self).stacks@ == old(self).stacks@.update(sq.index() as int, w),
            final(self).mailbox@ == old(self).mailbox@.update(
                sq.index() as int,
                Piece::of(Color::of_index((w % 2) as int), top),
            ),
            forall|j: int|
                0 <= j < 36 && j != sq.index() ==> (#[trigger] final(self).untouched(j)
                    == old(self).untouched(j)),
            sum_u8(final(self).heights@, 36) == sum_u8(old(self).heights@, 36) + h,
            p2_tiles(final(self).stacks@, 36) == p2_tiles(old(self).stacks@, 36) + ones(w),
            cap_count(final(self).mailbox@, Color::P1, 36) == cap_count(
                old(self).mailbox@,
                Color::P1,
                36,
            ) + if top == PieceType::Cap && w % 2 == 0 {
                1int
            } else {
                0int
            },
            cap_count(final(self).mailbox@, Color::P2, 36) == cap_count(
                old(self).mailbox@,
                Color::P2,
                36,
            ) + if top == PieceType::Cap && w % 2 == 1 {
                1int
            } else {
                0int
            },
    {
        let i = sq.to_index();
        let c = Color::from_index((w % 2) as u8);
        let ci = c.to_index();
        let ki = top.to_index();
        let ghost b = *self;
        assert(b.square_wf(i as int));
        let s = i as u64;
        proof {
            lemma_tiles_update(b.stacks@, 36, i as int, w);
            lemma_sum_update(b.heights@, 36, i as int, h);
            let p = Piece::of(Color::of_index((w % 2) as int), top);
            lemma_caps_update(b.mailbox@, Color::P1, 36, i as int, p);
            lemma_caps_update(b.mailbox@, Color::P2, 36, i as int, p);
        }
        self.heights[i] = h;
        self.stacks[i] = w;
        self.mailbox[i] = Piece::new(c, top);
        let mut cb = self.colors[ci];
        cb.set(sq);
        self.colors[ci] = cb;
        let mut tb = self.tops[ki];
        tb.set(sq);
        self.tops[ki] = tb;
        proof {
            crate::bitboard::lemma_set_clear(b.colors[ci as int].0, s);
            crate::bitboard::lemma_set_clear(b.tops[ki as int].0, s);
            assert(self.heights@ =~= b.heights@.update(i as int, h));
            assert(self.stacks@ =~= b.stacks@.update(i as int, w));
            assert(self.mailbox@ =~= b.mailbox@.update(
                i as int,
                Piece::of(Color::of_index((w % 2) as int), top),
            ));
            assert forall|j: int| 0 <= j < 36 implies #[trigger] self.square_wf(j) by {
                assert(b.square_wf(j));
            }
        }
    }

    /// Reads a position string: board, side to move and move number, separated by
    /// whitespace.
    pub fn parse(s: &str) -> (r: Result<Position, TpsError>)
        ensures
            r is Ok ==> r->Ok_0.wf() && r->Ok_0.stock_wf(),
            words(s@).len() != 3 ==> r == Err::<Position, TpsError>(TpsError::WrongPartCount),
            words(s@).len() == 3 && r is Ok ==> r->Ok_0.read_from(
                tps_spec(words(s@)[0], words(s@)[1], words(s@)[2]),
            ),
            words(s@).len() == 3 && r is Err ==> tps_spec(words(s@)[0], words(s@)[1], words(s@)[2])
                == Err::<(Reading, Color, nat), TpsError>(r->Err_0),
    {
        let cs = chars_of(s);
        let parts = split_whitespace(&cs);
        if parts.len() == 3 {
            Position::parse_chars(&parts[0], &parts[1], &parts[2])
        } else {
            Err(TpsError::WrongPartCount)
        }
    }

    /// Reads the three parts of a position string.
    pub fn parse_from_parts(board: &str, stm: &str, fullmove: &str) -> (r: Result<
        Position,
        TpsError,
    >)
        ensures
            r is Ok ==> r->Ok_0.wf() && r->Ok_0.stock_wf(),
            r is Ok ==> r->Ok_0.read_from(tps_spec(board@, stm@, fullmove@)),
            r is Err ==> tps_spec(board@, stm@, fullmove@) == Err::<(Reading, Color, nat), TpsError>(
                r->Err_0,
            ),
            r is Ok ==> side_of(stm@) == Some(r->Ok_0.stm),
            r is Ok ==> fullmove_of(fullmove@) is Some && r->Ok_0.ply == (fullmove_of(
                fullmove@,
            )->0 - 1) * 2 + r->Ok_0.stm.index(),
            side_of(stm@) is None ==> r is Err,
            fullmove_of(fullmove@) is None ==> r is Err,
    {
        let b = chars_of(board);
        let st = chars_of(stm);
        let fm = chars_of(fullmove);
        Position::parse_chars(&b, &st, &fm)
    }

    pub(crate) fn parse_chars(board: &Vec<char>, stm: &Vec<char>, fullmove: &Vec<char>) -> (r: Result<
        Position,
        TpsError,
    >)
        ensures
            r is Ok ==> r->Ok_0.wf() && r->Ok_0.stock_wf(),
            r is Ok ==> r->Ok_0.read_from(tps_spec(board@, stm@, fullmove@)),
            r is Err ==> tps_spec(board@, stm@, fullmove@) == Err::<(Reading, Color, nat), TpsError>(
                r->Err_0,
            ),
            r is Ok ==> side_of(stm@) == Some(r->Ok_0.stm),
            r is Ok ==> fullmove_of(fullmove@) is Some && r->Ok_0.ply == (fullmove_of(
                fullmove@,
            )->0 - 1) * 2 + r->Ok_0.stm.index(),
            side_of(stm@) is None ==> r is Err,
            fullmove_of(fullmove@) is None ==> r is Err,
    {
        let ranks = split_on(board, '/');
        let ghost sranks = split_spec(board@, '/');
        if ranks.len() != 6 {
            return Err(TpsError::WrongRankCount);
        }
        let mut pos = Position::default();
        let mut stones: [usize; 2] = [0; 2];
        let mut caps: [usize; 2] = [0; 2];
        proof {
            assert forall|i: int| 0 <= i < 36 implies #[trigger] pos.untouched(i) by {
                assert(pos.mailbox[i] == Piece::Empty);
            }
            assert forall|i: int| 0 <= i < 36 implies pos.heights@[i] == 0 && pos.stacks@[i] == 0 by {
                assert(pos.untouched(i));
            }
            crate::position::lemma_sum_zero(pos.heights@, 36);
            lemma_tiles_zero(pos.stacks@, 36);
            assert(pos.heights@ =~= empty_reading().heights);
            assert(pos.stacks@ =~= empty_reading().stacks);
            assert(pos.mailbox@ =~= empty_reading().mailbox);
            assert(reading_of(pos, 0, 0, 0, 0, false) == empty_reading());
            lemma_caps_none(pos.mailbox@, Color::P1, 36);
            lemma_caps_none(pos.mailbox@, Color::P2, 36);
        }
        let mut overfull = false;
        let mut inv_rank: usize = 0;
        while inv_rank < 6
            invariant
                ranks.len() == 6,
                inv_rank <= 6,
                pos.board_wf(),
                pos.remaining_stones[0] == STARTING_STONES,
                pos.remaining_stones[1] == STARTING_STONES,
                pos.remaining_caps[0] == STARTING_CAPS,
                pos.remaining_caps[1] == STARTING_CAPS,
                forall|i: int| 0 <= i < 36 && i / 6 < 6 - inv_rank ==> #[trigger] pos.untouched(i),
                pos.tally(stones[0] as int, stones[1] as int, caps[0] as int, caps[1] as int),
                sranks == split_spec(board@, '/'),
                sranks.len() == 6,
                forall|q: int| 0 <= q < 6 ==> #[trigger] ranks[q]@ == sranks[q],
                ranks_fold(sranks, inv_rank as int, empty_reading()) == Ok::<Reading, TpsError>(
                    reading_of(
                        pos,
                        stones[0] as int,
                        stones[1] as int,
                        caps[0] as int,
                        caps[1] as int,
                        overfull,
                    ),
                ),
            decreases 6 - inv_rank,
        {
            let rank = 5 - inv_rank;
            let cells = split_on(&ranks[inv_rank], ',');
            let ghost scells = split_spec(sranks[inv_rank as int], ',');
            let ghost g0 = reading_of(
                pos,
                stones[0] as int,
                stones[1] as int,
                caps[0] as int,
                caps[1] as int,
                overfull,
            );
            let mut file: usize = 0;
            let mut k: usize = 0;
            while k < cells.len()
                invariant
                    rank == 5 - inv_rank,
                    inv_rank < 6,
                    ranks.len() == 6,
                    file <= 12,
                    k <= cells.len(),
                    pos.board_wf(),
                    pos.remaining_stones[0] == STARTING_STONES,
                    pos.remaining_stones[1] == STARTING_STONES,
                    pos.remaining_caps[0] == STARTING_CAPS,
                    pos.remaining_caps[1] == STARTING_CAPS,
                    forall|i: int|
                        0 <= i < 36 && (i / 6 < rank || (i / 6 == rank && i % 6 >= file))
                            ==> #[trigger] pos.untouched(i),
                    pos.tally(stones[0] as int, stones[1] as int, caps[0] as int, caps[1] as int),
                    sranks == split_spec(board@, '/'),
                    sranks.len() == 6,
                    forall|q: int| 0 <= q < 6 ==> #[trigger] ranks[q]@ == sranks[q],
                    scells == split_spec(sranks[inv_rank as int], ','),
                    cells.len() == scells.len(),
                    forall|q: int| 0 <= q < cells.len() ==> #[trigger] cells[q]@ == scells[q],
                    ranks_fold(sranks, inv_rank as int, empty_reading()) == Ok::<Reading, TpsError>(
                        g0,
                    ),
                    cells_fold(scells, k as int, rank as nat, g0) == Ok::<(nat, Reading), TpsError>(
                        (
                            file as nat,
                            reading_of(
                                pos,
                                stones[0] as int,
                                stones[1] as int,
                                caps[0] as int,
                                caps[1] as int,
                                overfull,
                            ),
                        ),
                    ),
                decreases cells.len() - k,
            {
                if file >= 6 {
                    proof {
                        self::lemma_fail_cell(sranks, inv_rank as int, scells, k as int, rank as nat, g0);
                    }
                    return Err(TpsError::WrongFileCount);
                }
                let cell = &cells[k];
                assert(cell@ == scells[k as int]);
                if cell.len() == 0 {
                    proof {
                        self::lemma_fail_cell(sranks, inv_rank as int, scells, k as int, rank as nat, g0);
                    }
                    return Err(TpsError::InvalidEmptySquare);
                } else if cell[0] == 'x' {
                    let count: usize = if cell.len() == 1 {
                        1
                    } else {
                        if !all_digits(cell, 1) {
                            proof {
                                self::lemma_fail_cell(
                                    sranks,
                                    inv_rank as int,
                                    scells,
                                    k as int,
                                    rank as nat,
                                    g0,
                                );
                            }
                            return Err(TpsError::InvalidEmptySquare);
                        }
                        match parse_number(cell, 1, 99) {
                            Some(n) => if n > 7 {
                                7
                            } else {
                                n as usize
                            },
                            None => 7,
                        }
                    };
                    file += count;
                } else {
                    let (w, h, top, twos) = match parse_stack(cell) {
                        Ok(t) => t,
                        Err(e) => {
                            proof {
                                self::lemma_fail_cell(
                                    sranks,
                                    inv_rank as int,
                                    scells,
                                    k as int,
                                    rank as nat,
                                    g0,
                                );
                            }
                            return Err(e);
                        },
                    };
                    if h > 62 {
                        overfull = true;
                        file += 1;
                        k += 1;
                        continue;
                    }
                    let sq = Square::from_file_and_rank(file, rank);
                    let ghost before = pos;
                    proof {
                        crate::position::lemma_sum_bound(pos.heights@, 36, sq.index() as int);
                        lemma_sum_le_board(pos);
                    }
                    pos.put_stack(sq, w, h, top);
                    let c = (w % 2) as usize;
                    stones[0] = stones[0] + (h as usize - twos);
                    stones[1] = stones[1] + twos;
                    if top == PieceType::Cap {
                        assert(c == 1 ==> twos >= 1) by {
                            if c == 1 {
                                lemma_odd_has_one(w);
                            }
                        }
                        assert(c == 0 ==> h as usize - twos >= 1) by {
                            if c == 0 {
                                lemma_even_top(w, h as u64);
                            }
                        }
                        stones[c] = stones[c] - 1;
                        caps[c] = caps[c] + 1;
                    }
                    file += 1;
                }
                k += 1;
            }
            if file != 6 {
                proof {
                    lemma_ranks_err(sranks, inv_rank + 1, 6, empty_reading());
                }
                return Err(TpsError::WrongFileCount);
            }
            inv_rank += 1;
        }
        if overfull || stones[0] > STARTING_STONES as usize || stones[1] > STARTING_STONES as usize {
            return Err(TpsError::TooManyStones);
        }
        if caps[0] > STARTING_CAPS as usize || caps[1] > STARTING_CAPS as usize {
            return Err(TpsError::TooManyCaps);
        }
        proof {
            if stm.len() == 1 {
                assert(stm@ =~= seq![stm@[0]]);
            }
        }
        let side = if stm.len() == 1 && stm[0] == '1' {
            Color::P1
        } else if stm.len() == 1 && stm[0] == '2' {
            Color::P2
        } else {
            return Err(TpsError::InvalidSideToMove);
        };
        let start: usize = if fullmove.len() > 0 && fullmove[0] == '+' {
            1
        } else {
            0
        };
        proof {
            let d = fullmove@.skip(start as int);
            assert(forall|i: int| 0 <= i < d.len() ==> d[i] == fullmove@[start + i]);
            assert((forall|i: int| 0 <= i < d.len() ==> is_digit(#[trigger] d[i])) == (forall|
                k: int,
            | start <= k < fullmove.len() ==> is_digit(#[trigger] fullmove@[k]))) by {
                if forall|k: int| start <= k < fullmove.len() ==> is_digit(#[trigger] fullmove@[k]) {
                    assert forall|i: int| 0 <= i < d.len() implies is_digit(#[trigger] d[i]) by {
                        assert(d[i] == fullmove@[start + i]);
                    }
                }
                if forall|i: int| 0 <= i < d.len() ==> is_digit(#[trigger] d[i]) {
                    assert forall|k: int| start <= k < fullmove.len() implies is_digit(
                        #[trigger] fullmove@[k],
                    ) by {
                        assert(d[k - start] == fullmove@[k]);
                    }
                }
            }
        }
        let number = match parse_number(fullmove, start, 32768) {
            Some(n) => {
                if n == 0 {
                    return Err(TpsError::InvalidFullMoveCounter);
                }
                n
            },
            None => return Err(TpsError::InvalidFullMoveCounter),
        };
        let ghost built = pos;
        pos.remaining_stones = [STARTING_STONES - stones[0] as u8, STARTING_STONES - stones[1] as u8];
        pos.remaining_caps = [STARTING_CAPS - caps[0] as u8, STARTING_CAPS - caps[1] as u8];
        pos.stm = side;
        pos.ply = ((number - 1) * 2) as u16 + side.to_index() as u16;
        proof {
            assert forall|t: int| 0 <= t < 36 implies #[trigger] pos.square_wf(t) by {
                assert(built.square_wf(t));
            }
        }
        Ok(pos)
    }
}

/// The heights of a board add up to at most 62 for each square.
proof fn lemma_sum_le_board(p: Position)
    requires
        p.board_wf(),
    ensures
        sum_u8(p.heights@, 36) <= 62 * 36,
{
    assert forall|k: int| 0 <= k < 36 implies p.heights@[k] <= 62 by {
        assert(p.square_wf(k));
    }
    crate::position::lemma_sum_le(p.heights@, 36);
}

/// An odd word has a set bit.
proof fn lemma_odd_has_one(w: u64)
    requires
        w % 2 == 1,
    ensures
        ones(w) >= 1,
{
}

/// The bottom bit of an even word of height `h` is one of its clear bits.
proof fn lemma_even_top(w: u64, h: u64)
    requires
        w % 2 == 0,
        1 <= h <= 62,
        w >> h == 0,
    ensures
        ones(w) + 1 <= h,
{
    assert((w >> h == 0 && w % 2 == 0 && 1 <= h && h <= 62) ==> (w / 2) >> (h - 1) as u64 == 0)
        by (bit_vector);
    lemma_ones_le_height(w / 2, (h - 1) as u64);
}

/// A word with nothing above height `h` has at most `h` set bits.
proof fn lemma_ones_le_height(w: u64, h: u64)
    requires
        w >> h == 0,
        h <= 62,
    ensures
        ones(w) <= h,
    decreases h,
{
    if h == 0 {
        assert(w >> 0u64 == w) by (bit_vector);
    } else if w != 0 {
        assert((w >> h == 0 && h >= 1 && h <= 62) ==> (w / 2) >> (h - 1) as u64 == 0)
            by (bit_vector);
        lemma_ones_le_height(w / 2, (h - 1) as u64);
    }
}

/// The position that a reading gives.
pub open spec fn tps_position(t: Result<(Reading, Color, nat), TpsError>) -> Position {
    choose|q: Position| q.wf() && #[trigger] q.read_from(t)
}

/// A position that keeps the invariant is the one that its reading gives.
pub proof fn lemma_read_unique(p: Position, q: Position, t: Result<(Reading, Color, nat), TpsError>)
    requires
        p.wf(),
        p.read_from(t),
        q == tps_position(t),
    ensures
        p == q,
        q.wf(),
        q.read_from(t),
{
    assert(p.wf() && p.read_from(t));
    assert(q.wf() && q.read_from(t));
    assert(p.remaining_stones@ =~= q.remaining_stones@);
    assert(p.remaining_caps@ =~= q.remaining_caps@);
    crate::make_move::lemma_same_board(p, q);
}

/// The characters from `start` on are digits exactly where those of the rest are.
pub proof fn lemma_skip_digits(cs: Seq<char>, start: int)
    requires
        0 <= start <= cs.len(),
    ensures
        (forall|i: int| 0 <= i < cs.skip(start).len() ==> is_digit(#[trigger] cs.skip(start)[i]))
            == (forall|k: int| start <= k < cs.len() ==> is_digit(#[trigger] cs[k])),
{
    let d = cs.skip(start);
    if forall|k: int| start <= k < cs.len() ==> is_digit(#[trigger] cs[k]) {
        assert forall|i: int| 0 <= i < d.len() implies is_digit(#[trigger] d[i]) by {
            assert(d[i] == cs[start + i]);
        }
    }
    if forall|i: int| 0 <= i < d.len() ==> is_digit(#[trigger] d[i]) {
        assert forall|k: int| start <= k < cs.len() implies is_digit(#[trigger] cs[k]) by {
            assert(d[k - start] == cs[k]);
        }
    }
}

/// Whether `cs[start..]` holds only decimal digits.
fn all_digits(cs: &Vec<char>, start: usize) -> (r: bool)
    requires
        start <= cs.len(),
    ensures
        r == (forall|i: int| start <= i < cs.len() ==> is_digit(#[trigger] cs@[i])),
{
    let mut i = start;
    while i < cs.len()
        invariant
            start <= i <= cs.len(),
            forall|k: int| start <= k < i ==> is_digit(#[trigger] cs@[k]),
        decreases cs.len() - i,
    {
        if !('0' <= cs[i] && cs[i] <= '9') {
            return false;
        }
        i += 1;
    }
    true
}

} // verus!

verus! {

/// `,` before every cell of a rank but the first.
pub open spec fn comma(first: bool) -> Seq<char> {
    if first {
        Seq::empty()
    } else {
        seq![',']
    }
}

/// The cell for a run of `n` empty squares: `x`, or `x` and the count.
pub open spec fn empty_cell(n: nat) -> Seq<char> {
    if n == 1 {
        seq!['x']
    } else {
        seq!['x'] + crate::text::decimal(n)
    }
}

/// The colours of the `h` lowest tiles of stack word `w`, bottom first.
pub open spec fn stack_digits(w: u64, h: nat) -> Seq<char>
    decreases h,
{
    if h == 0 {
        Seq::empty()
    } else {
        seq![if crate::bitboard::bit(w, (h - 1) as u64) { '2' } else { '1' }] + stack_digits(
            w,
            (h - 1) as nat,
        )
    }
}

impl Position {
    /// The cell of the occupied square `i`: its stack, bottom first, and `S` or `C` for a
    /// wall or cap on top.
    pub open spec fn stack_cell(self, i: int) -> Seq<char> {
        let suffix = if self.mailbox[i].kind() == PieceType::Wall {
            seq!['S']
        } else if self.mailbox[i].kind() == PieceType::Cap {
            seq!['C']
        } else {
            Seq::empty()
        };
        stack_digits(self.stacks[i], self.heights[i] as nat) + suffix
    }

    /// The cells of rank `r` from file `f` on, after a run of `run` empty squares; `first`
    /// while no cell has been written.
    pub open spec fn rank_from(self, r: nat, f: nat, run: nat, first: bool) -> Seq<char>
        decreases 6 - f,
    {
        let flush = if run > 0 {
            comma(first) + empty_cell(run)
        } else {
            Seq::empty()
        };
        if f >= 6 {
            flush
        } else if self.mailbox[(f + 6 * r) as int] == Piece::Empty {
            self.rank_from(r, f + 1, run + 1, first)
        } else {
            flush + comma(first && run == 0) + self.stack_cell((f + 6 * r) as int) + self.rank_from(
                r,
                f + 1,
                0,
                false,
            )
        }
    }

    /// Ranks `r` down to 1, separated by `/`.
    pub open spec fn board_from(self, r: nat) -> Seq<char>
        decreases r,
    {
        if r == 0 {
            self.rank_from(0, 0, 0, true)
        } else {
            self.rank_from(r, 0, 0, true) + seq!['/'] + self.board_from((r - 1) as nat)
        }
    }

    /// The position string: board from rank 6 down, side to move, move number.
    pub open spec fn tps(self) -> Seq<char> {
        self.board_from(5) + seq![' ', self.stm.digit(), ' '] + crate::text::decimal(
            (self.ply / 2 + 1) as nat,
        )
    }

    /// Appends the cells of square `i`'s stack.
    fn push_stack(&self, s: &mut String, i: usize)
        requires
            i < 36,
            self.wf(),
        ensures
            final(s)@ == old(s)@ + self.stack_cell(i as int),
    {
        let w = self.stacks[i];
        let mut h = self.heights[i];
        assert(self.square_wf(i as int));
        while h > 0
            invariant
                h <= self.heights[i as int] < 63,
                i < 36,
                s@ + stack_digits(w, h as nat) == old(s)@ + stack_digits(w, self.heights[i as int] as nat),
            decreases h,
        {
            h = h - 1;
            let b = (w >> (h as u64)) & 1;
            let ghost before = s@;
            push_char(s, if b == 1 { '2' } else { '1' });
            assert(before + stack_digits(w, (h + 1) as nat) =~= s@ + stack_digits(w, h as nat));
        }
        let pt = self.mailbox[i].piece_type();
        if pt == PieceType::Wall {
            push_char(s, 'S');
        } else if pt == PieceType::Cap {
            push_char(s, 'C');
        }
        assert(s@ =~= old(s)@ + self.stack_cell(i as int));
    }

    /// Appends a run of empty squares.
    fn push_run(s: &mut String, run: u64, first: bool)
        requires
            run > 0,
        ensures
            final(s)@ == old(s)@ + comma(first) + empty_cell(run as nat),
    {
        if !first {
            push_char(s, ',');
        }
        push_char(s, 'x');
        if run > 1 {
            crate::text::push_decimal(s, run);
        }
        assert(s@ =~= old(s)@ + comma(first) + empty_cell(run as nat));
    }

    #[verifier::rlimit(40)]
    fn push_rank(&self, s: &mut String, r: usize)
        requires
            r < 6,
            self.wf(),
        ensures
            final(s)@ == old(s)@ + self.rank_from(r as nat, 0, 0, true),
    {
        let mut f: usize = 0;
        let mut run: u64 = 0;
        let mut first = true;
        while f < 6
            invariant
                f <= 6,
                run <= f,
                r < 6,
                self.wf(),
                s@ + self.rank_from(r as nat, f as nat, run as nat, first) == old(s)@ + self.rank_from(
                    r as nat,
                    0,
                    0,
                    true,
                ),
            decreases 6 - f,
        {
            let i = f + 6 * r;
            if self.mailbox[i].is_none() {
                run = run + 1;
            } else {
                let ghost before = s@;
                if run > 0 {
                    Position::push_run(s, run, first);
                }
                let ghost mid = s@;
                if !(first && run == 0) {
                    push_char(s, ',');
                }
                self.push_stack(s, i);
                assert(s@ =~= mid + comma(first && run == 0) + self.stack_cell(i as int));
                assert(before + self.rank_from(r as nat, f as nat, run as nat, first) =~= s@
                    + self.rank_from(r as nat, (f + 1) as nat, 0, false));
                run = 0;
                first = false;
            }
            f += 1;
        }
        if run > 0 {
            Position::push_run(s, run, first);
        }
        assert(s@ =~= old(s)@ + self.rank_from(r as nat, 0, 0, true));
    }

    /// The position string of this position.
    pub fn to_string(&self) -> (r: String)
        requires
            self.wf(),
        ensures
            r@ == self.tps(),
    {
        let mut s = String::new();
        let mut r: usize = 6;
        while r > 0
            invariant
                r <= 6,
                self.wf(),
                r >= 1 ==> s@ + self.board_from((r - 1) as nat) == self.board_from(5),
                r == 0 ==> s@ == self.board_from(5),
            decreases r,
        {
            r -= 1;
            let ghost before = s@;
            self.push_rank(&mut s, r);
            if r > 0 {
                push_char(&mut s, '/');
            }
            assert(r == 0 ==> s@ =~= self.board_from(5));
            assert(r >= 1 ==> s@ + self.board_from((r - 1) as nat) =~= self.board_from(5));
        }
        push_char(&mut s, ' ');
        push_char(&mut s, self.stm.to_char());
        push_char(&mut s, ' ');
        crate::text::push_decimal(&mut s, (self.ply / 2 + 1) as u64);
        assert(s@ =~= self.tps());
        s
    }
}

} // verus!

verus! {

impl std::str::FromStr for Position {
    type Err = TpsError;

    fn from_str(s: &str) -> Result<Position, TpsError> {
        Position::parse(s)
    }
}

} // verus!
