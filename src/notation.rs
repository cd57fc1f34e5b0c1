use crate::make_move::{bit_count, bit_width, segment_rest, segment_size, lemma_segment};
use crate::moves::{valid_word, word_flags, word_splat, word_sq, Dir, Move};
use crate::piece::PieceType;
use crate::square::{Square, SquareParseError};
use crate::text::{chars_of, digit_char, push_char};
use vstd::arithmetic::power2::{lemma2_to64, pow2};
use vstd::prelude::*;

verus! {

/// Why a move string could not be read.
#[derive(Copy, Clone, Debug, PartialEq, Eq, Structural)]
pub enum MoveParseError {
    TooShort,
    InvalidLiftCount,
    InvalidDirection,
    InvalidSplat,
    InvalidTrailingCharacter,
    InvalidSquare(SquareParseError),
}

/// The square number that a file letter and a rank digit name.
pub open spec fn square_spec(f: char, r: char) -> Result<nat, SquareParseError> {
    if !('a' <= f <= 'f') {
        Err(SquareParseError::InvalidFile)
    } else if !('1' <= r <= '6') {
        Err(SquareParseError::InvalidRank)
    } else {
        Ok(((f as u32 - 'a' as u32) + 6 * (r as u32 - '1' as u32)) as nat)
    }
}

/// The direction that a character names: `+` north, `-` south, `>` east, `<` west.
pub open spec fn dir_spec(c: char) -> Option<nat> {
    if c == '+' {
        Some(0)
    } else if c == '>' {
        Some(1)
    } else if c == '-' {
        Some(2)
    } else if c == '<' {
        Some(3)
    } else {
        None
    }
}

/// After the first `n` drop digits of `d`: the tiles dropped so far and the pattern built,
/// or the first error.
pub open spec fn drops_spec(d: Seq<char>, n: int, count: nat) -> Result<(nat, nat), MoveParseError>
    decreases n,
{
    if n <= 0 {
        Ok((0, 0))
    } else {
        match drops_spec(d, n - 1, count) {
            Err(e) => Err(e),
            Ok((dropped, splat)) => {
                let ch = d[n - 1];
                if !('1' <= ch <= '6') {
                    Err(MoveParseError::InvalidTrailingCharacter)
                } else {
                    let now = dropped + (ch as u32 - '0' as u32) as nat;
                    if now > count {
                        Err(MoveParseError::InvalidSplat)
                    } else {
                        Ok((now, splat + pow2((now - 1) as nat)))
                    }
                }
            },
        }
    }
}

/// The word of the move that `s` names, or the error that reading it gives.
pub open spec fn move_spec(s: Seq<char>) -> Result<nat, MoveParseError> {
    if s.len() == 0 {
        Err(MoveParseError::TooShort)
    } else {
        let c0 = s[0];
        let kind: int = if c0 == 'F' {
            0
        } else if c0 == 'S' {
            1
        } else if c0 == 'C' {
            2
        } else {
            -1
        };
        let lift: int = if '1' <= c0 <= '6' {
            c0 as u32 - '0' as u32
        } else {
            0
        };
        let start: int = if kind >= 0 || lift > 0 {
            1
        } else {
            0
        };
        if '0' <= c0 <= '9' && lift == 0 {
            Err(MoveParseError::InvalidLiftCount)
        } else if s.len() < start + 2 {
            Err(MoveParseError::TooShort)
        } else {
            match square_spec(s[start], s[start + 1]) {
                Err(e) => Err(MoveParseError::InvalidSquare(e)),
                Ok(sq) => {
                    let rest = s.skip(start + 2);
                    if rest.len() == 0 && lift == 0 {
                        Ok(((if kind >= 0 { kind } else { 0 }) + 1) as nat * 4096 + sq)
                    } else if kind >= 0 {
                        Err(MoveParseError::InvalidTrailingCharacter)
                    } else if rest.len() == 0 || dir_spec(rest[0]) is None {
                        Err(MoveParseError::InvalidDirection)
                    } else {
                        let d = dir_spec(rest[0])->0;
                        let count: nat = if lift > 0 { lift as nat } else { 1 };
                        if rest.len() == 1 {
                            Ok(d * 4096 + pow2((count - 1) as nat) * 64 + sq)
                        } else {
                            let drops = rest.skip(1);
                            match drops_spec(drops, drops.len() as int, count) {
                                Err(e) => Err(e),
                                Ok((dropped, splat)) => if dropped != count {
                                    Err(MoveParseError::InvalidSplat)
                                } else {
                                    Ok(d * 4096 + splat * 64 + sq)
                                },
                            }
                        }
                    }
                },
            }
        }
    }
}

/// The file letter and rank digit of square number `i`.
pub open spec fn square_chars(i: nat) -> Seq<char> {
    seq![(((i % 6) + 97) as u8) as char, (((i / 6) + 49) as u8) as char]
}

/// The drop digits of a pattern, lowest drop first.
pub open spec fn drops_chars(x: nat) -> Seq<char>
    decreases x,
{
    if x == 0 {
        Seq::empty()
    } else {
        proof {
            lemma_segment(x);
        }
        seq![digit_char(segment_size(x))] + drops_chars(segment_rest(x))
    }
}

/// The character of direction number `d`.
pub open spec fn dir_char(d: nat) -> char {
    if d == 0 {
        '+'
    } else if d == 1 {
        '>'
    } else if d == 2 {
        '-'
    } else {
        '<'
    }
}

/// The string of the move with word `w`: a placement is its square, after `S` for a wall
/// or `C` for a cap; a spread is the tiles lifted (left out when one), the square, the
/// direction, and the drop digits where there is more than one drop.
pub open spec fn move_string(w: u16) -> Seq<char> {
    let sq = square_chars(word_sq(w));
    let splat = word_splat(w);
    if splat == 0 {
        if word_flags(w) == 2 {
            seq!['S'] + sq
        } else if word_flags(w) == 3 {
            seq!['C'] + sq
        } else {
            sq
        }
    } else {
        let size = bit_width(splat);
        let d = dir_char(word_flags(w));
        if size == 1 {
            sq.push(d)
        } else if bit_count(splat) == 1 {
            (seq![digit_char(size)] + sq).push(d)
        } else {
            (seq![digit_char(size)] + sq).push(d) + drops_chars(splat)
        }
    }
}

/// `2` to the power `n`.
pub(crate) fn pow2_u8(n: u32) -> (r: u8)
    requires
        n < 8,
    ensures
        r == pow2(n as nat),
{
    proof {
        lemma2_to64();
    }
    match n {
        0 => 1,
        1 => 2,
        2 => 4,
        3 => 8,
        4 => 16,
        5 => 32,
        6 => 64,
        _ => 128,
    }
}

/// Reads a file letter and a rank digit.
fn parse_square(f: char, r: char) -> (res: Result<Square, SquareParseError>)
    ensures
        match res {
            Ok(q) => square_spec(f, r) == Ok::<nat, SquareParseError>(q.index()),
            Err(e) => square_spec(f, r) == Err::<nat, SquareParseError>(e),
        },
{
    if !('a' <= f && f <= 'f') {
        return Err(SquareParseError::InvalidFile);
    }
    if !('1' <= r && r <= '6') {
        return Err(SquareParseError::InvalidRank);
    }
    let file = (f as u32 - 'a' as u32) as usize;
    let rank = (r as u32 - '1' as u32) as usize;
    Ok(Square::from_file_and_rank(file, rank))
}

/// Appends the file letter and rank digit of a square.
fn push_square(s: &mut String, sq: Square)
    requires
        sq.is_real(),
    ensures
        final(s)@ == old(s)@ + square_chars(sq.index()),
{
    let f = sq.file() as u8;
    let r = sq.rank() as u8;
    push_char(s, (f + 97) as char);
    push_char(s, (r + 49) as char);
    assert(s@ =~= old(s)@ + square_chars(sq.index()));
}

/// Number of set bits of `x`.
pub fn count_bits(x: u8) -> (r: u32)
    ensures
        r == bit_count(x as nat),
{
    proof {
        lemma_bit_count_u8(x);
    }
    (x & 1u8) as u32 + ((x >> 1u8) & 1u8) as u32 + ((x >> 2u8) & 1u8) as u32 + ((x >> 3u8) & 1u8) as u32 + ((x >> 4u8) & 1u8) as u32 + ((x >> 5u8) & 1u8) as u32 + ((x >> 6u8) & 1u8) as u32 + ((x >> 7u8) & 1u8) as u32
}

/// A pattern's count of set bits is its lowest bit plus the count of the rest.
proof fn lemma_bit_count_step(x: nat)
    ensures
        bit_count(x) == x % 2 + bit_count(x / 2),
{
}

/// The set bits of a byte, bit by bit.
proof fn lemma_bit_count_u8(x: u8)
    ensures
        bit_count(x as nat) == (x & 1u8) + ((x >> 1u8) & 1u8) + ((x >> 2u8) & 1u8) + ((x >> 3u8) & 1u8) + ((x >> 4u8) & 1u8) + ((x >> 5u8) & 1u8) + ((x >> 6u8) & 1u8) + ((x >> 7u8) & 1u8),
{
    lemma_bit_count_step(x as nat / 1);
    lemma_bit_count_step(x as nat / 2);
    lemma_bit_count_step(x as nat / 4);
    lemma_bit_count_step(x as nat / 8);
    lemma_bit_count_step(x as nat / 16);
    lemma_bit_count_step(x as nat / 32);
    lemma_bit_count_step(x as nat / 64);
    lemma_bit_count_step(x as nat / 128);
    assert((x & 1u8) == x % 2 && ((x >> 1u8) & 1u8) == (x / 2u8) % 2 && ((x >> 2u8) & 1u8) == (x / 4u8) % 2 && ((x >> 3u8) & 1u8) == (x / 8u8) % 2 && ((x >> 4u8) & 1u8) == (x / 16u8) % 2 && ((x >> 5u8) & 1u8) == (x / 32u8) % 2 && ((x >> 6u8) & 1u8) == (x / 64u8) % 2 && ((x >> 7u8) & 1u8) == (x / 128u8) % 2) by (bit_vector);
    assert(x as nat / 256 == 0);
    assert(x as nat / 2 / 2 == x as nat / 4 && x as nat / 4 / 2 == x as nat / 8 && x as nat / 8 / 2
        == x as nat / 16 && x as nat / 16 / 2 == x as nat / 32 && x as nat / 32 / 2 == x as nat / 64
        && x as nat / 64 / 2 == x as nat / 128 && x as nat / 128 / 2 == x as nat / 256);
}

/// Once reading the drop digits fails, reading more of them fails the same way.
proof fn lemma_drops_err(d: Seq<char>, m: int, n: int, count: nat)
    requires
        0 <= m <= n,
        drops_spec(d, m, count) is Err,
    ensures
        drops_spec(d, n, count) == drops_spec(d, m, count),
    decreases n - m,
{
    if n > m {
        lemma_drops_err(d, m, n - 1, count);
    }
}

/// Appends the drop digits of a pattern.
fn push_drops(s: &mut String, splat: u8)
    ensures
        final(s)@ == old(s)@ + drops_chars(splat as nat),
{
    let mut x = splat;
    while x != 0
        invariant
            s@ + drops_chars(x as nat) == old(s)@ + drops_chars(splat as nat),
        decreases x,
    {
        proof {
            lemma_segment(x as nat);
            lemma2_to64();
            crate::make_move::lemma_width_bound(x as nat, 8);
        }
        let (k, rest) = crate::make_move::take_segment(x);
        let ghost before = s@;
        push_char(s, crate::text::to_digit_char(k as u8));
        assert(drops_chars(x as nat) =~= seq![digit_char(k as nat)] + drops_chars(rest as nat));
        assert(s@ + drops_chars(rest as nat) =~= before + drops_chars(x as nat));
        x = rest;
    }
    assert(s@ =~= s@ + drops_chars(0));
}

/// Reads the drop digits `cs[base..]` of a spread that lifts `count` tiles: the tiles
/// dropped and the pattern built.
fn read_drops(cs: &Vec<char>, base: usize, count: u32) -> (r: Result<(u32, u8), MoveParseError>)
    requires
        base <= cs.len(),
        1 <= count <= 6,
    ensures
        match r {
            Ok((dropped, splat)) => drops_spec(cs@.skip(base as int), cs.len() - base, count as nat)
                == Ok::<(nat, nat), MoveParseError>((dropped as nat, splat as nat)) && dropped
                <= count && (dropped > 0 ==> 0 < splat < 64),
            Err(e) => drops_spec(cs@.skip(base as int), cs.len() - base, count as nat) == Err::<
                (nat, nat),
                MoveParseError,
            >(e),
        },
{
    let ghost drops = cs@.skip(base as int);
    let mut k: usize = base;
    let mut dropped: u32 = 0;
    let mut splat: u8 = 0;
    proof {
        lemma2_to64();
    }
    while k < cs.len()
        invariant
            base <= k <= cs.len(),
            drops == cs@.skip(base as int),
            1 <= count <= 6,
            drops_spec(drops, k - base, count as nat) == Ok::<(nat, nat), MoveParseError>(
                (dropped as nat, splat as nat),
            ),
            dropped <= count,
            splat < pow2(dropped as nat),
            dropped > 0 ==> splat > 0,
            pow2(6) == 64,
        decreases cs.len() - k,
    {
        let ch = cs[k];
        assert(drops[k - base] == ch);
        if !('1' <= ch && ch <= '6') {
            proof {
                lemma_drops_err(drops, k - base + 1, drops.len() as int, count as nat);
            }
            return Err(MoveParseError::InvalidTrailingCharacter);
        }
        let now = dropped + (ch as u32 - '0' as u32);
        if now > count {
            proof {
                lemma_drops_err(drops, k - base + 1, drops.len() as int, count as nat);
            }
            return Err(MoveParseError::InvalidSplat);
        }
        proof {
            if dropped < now - 1 {
                vstd::arithmetic::power2::lemma_pow2_strictly_increases(
                    dropped as nat,
                    (now - 1) as nat,
                );
            }
            vstd::arithmetic::power2::lemma_pow2_unfold(now as nat);
            if now < 6 {
                vstd::arithmetic::power2::lemma_pow2_strictly_increases(now as nat, 6);
            }
        }
        splat = splat + pow2_u8(now - 1);
        dropped = now;
        k += 1;
    }
    proof {
        if dropped < 6 && dropped > 0 {
            vstd::arithmetic::power2::lemma_pow2_strictly_increases(dropped as nat, 6);
        }
    }
    Ok((dropped, splat))
}

impl Move {
    /// Reads a move string.
    pub fn parse(s: &str) -> (r: Result<Move, MoveParseError>)
        ensures
            match r {
                Ok(m) => move_spec(s@) == Ok::<nat, MoveParseError>(m.bits() as nat),
                Err(e) => move_spec(s@) == Err::<nat, MoveParseError>(e),
            },
    {
        let cs = chars_of(s);
        Move::parse_chars(&cs)
    }

    #[verifier::rlimit(60)]
    pub(crate) fn parse_chars(cs: &Vec<char>) -> (r: Result<Move, MoveParseError>)
        ensures
            match r {
                Ok(m) => move_spec(cs@) == Ok::<nat, MoveParseError>(m.bits() as nat),
                Err(e) => move_spec(cs@) == Err::<nat, MoveParseError>(e),
            },
    {
        if cs.len() == 0 {
            return Err(MoveParseError::TooShort);
        }
        let c0 = cs[0];
        let kind: i32 = if c0 == 'F' {
            0
        } else if c0 == 'S' {
            1
        } else if c0 == 'C' {
            2
        } else {
            -1
        };
        let lift: u32 = if '1' <= c0 && c0 <= '6' {
            c0 as u32 - '0' as u32
        } else {
            0
        };
        let start: usize = if kind >= 0 || lift > 0 {
            1
        } else {
            0
        };
        if '0' <= c0 && c0 <= '9' && lift == 0 {
            return Err(MoveParseError::InvalidLiftCount);
        }
        if cs.len() < start + 2 {
            return Err(MoveParseError::TooShort);
        }
        let sq = match parse_square(cs[start], cs[start + 1]) {
            Ok(q) => q,
            Err(e) => return Err(MoveParseError::InvalidSquare(e)),
        };
        let ghost rest = cs@.skip(start + 2);
        let n = cs.len() - (start + 2);
        assert(rest.len() == n);
        if n == 0 && lift == 0 {
            let pt = PieceType::from_index(
                if kind >= 0 {
                    kind as usize
                } else {
                    0
                },
            );
            return Ok(Move::place(pt, sq));
        }
        if kind >= 0 {
            return Err(MoveParseError::InvalidTrailingCharacter);
        }
        if n == 0 {
            return Err(MoveParseError::InvalidDirection);
        }
        let dc = cs[start + 2];
        assert(rest[0] == dc);
        let dir = if dc == '+' {
            Dir::North
        } else if dc == '>' {
            Dir::East
        } else if dc == '-' {
            Dir::South
        } else if dc == '<' {
            Dir::West
        } else {
            return Err(MoveParseError::InvalidDirection);
        };
        let count: u32 = if lift > 0 {
            lift
        } else {
            1
        };
        proof {
            lemma2_to64();
        }
        if n == 1 {
            return Ok(Move::spread(sq, dir, pow2_u8(count - 1)));
        }
        let ghost drops = rest.skip(1);
        assert(drops =~= cs@.skip(start as int + 3));
        match read_drops(cs, start + 3, count) {
            Err(e) => Err(e),
            Ok((dropped, splat)) => {
                if dropped != count {
                    return Err(MoveParseError::InvalidSplat);
                }
                Ok(Move::spread(sq, dir, splat))
            },
        }
    }

    /// The move string of this move.
    pub fn to_string(&self) -> (r: String)
        ensures
            r@ == move_string(self.bits()),
    {
        let mut s = String::new();
        let sq = self.sq();
        if self.is_place() {
            let pt = self.piece_type();
            if pt == PieceType::Wall {
                push_char(&mut s, 'S');
            } else if pt == PieceType::Cap {
                push_char(&mut s, 'C');
            }
            push_square(&mut s, sq);
        } else {
            let splat = self.splat();
            let size = crate::make_move::width_of(splat);
            let d = self.dir().to_char();
            if size != 1 {
                push_char(&mut s, crate::text::to_digit_char(size as u8));
            }
            push_square(&mut s, sq);
            push_char(&mut s, d);
            if size != 1 && count_bits(splat) != 1 {
                push_drops(&mut s, splat);
            }
        }
        s
    }
}

} // verus!

verus! {

impl Square {
    /// Reads a square string: a file letter `a`-`f` and a rank digit `1`-`6`.
    pub fn parse(s: &str) -> (r: Result<Square, SquareParseError>)
        ensures
            s@.len() != 2 ==> r == Err::<Square, SquareParseError>(SquareParseError::InvalidLength),
            s@.len() == 2 ==> match r {
                Ok(q) => square_spec(s@[0], s@[1]) == Ok::<nat, SquareParseError>(q.index()),
                Err(e) => square_spec(s@[0], s@[1]) == Err::<nat, SquareParseError>(e),
            },
    {
        let cs = chars_of(s);
        if cs.len() != 2 {
            return Err(SquareParseError::InvalidLength);
        }
        parse_square(cs[0], cs[1])
    }

    /// The file letter and rank digit of this square.
    pub fn to_string(self) -> (r: String)
        requires
            self.is_real(),
        ensures
            r@ == square_chars(self.index()),
    {
        let mut s = String::new();
        push_square(&mut s, self);
        s
    }
}

impl std::str::FromStr for Square {
    type Err = SquareParseError;

    fn from_str(s: &str) -> Result<Square, SquareParseError> {
        Square::parse(s)
    }
}

impl std::str::FromStr for Move {
    type Err = MoveParseError;

    fn from_str(s: &str) -> Result<Move, MoveParseError> {
        Move::parse(s)
    }
}

} // verus!

verus! {

/// A non-empty pattern is its lowest drop's bit times an odd number made of what is left.
proof fn lemma_segment_value(x: nat)
    requires
        x > 0,
    ensures
        x == pow2((segment_size(x) - 1) as nat) * (2 * segment_rest(x) + 1),
    decreases x,
{
    if x % 2 == 0 {
        lemma_segment_value(x / 2);
        lemma_segment(x / 2);
        vstd::arithmetic::power2::lemma_pow2_unfold(segment_size(x / 2));
        let p = pow2((segment_size(x / 2) - 1) as nat);
        let q = 2 * segment_rest(x / 2) + 1;
        assert(x / 2 == p * q);
        assert(segment_size(x) == segment_size(x / 2) + 1);
        assert(segment_rest(x) == segment_rest(x / 2));
        assert(pow2((segment_size(x) - 1) as nat) == 2 * p);
        assert(2 * (p * q) == (2 * p) * q) by (nonlinear_arith);
        assert(x == 2 * (x / 2));
    } else {
        lemma2_to64();
        assert(segment_size(x) == 1);
        assert(segment_rest(x) == x / 2);
        assert(pow2(0) == 1);
        assert(x == 2 * (x / 2) + 1);
        assert(1 * (2 * segment_rest(x) + 1) == 2 * segment_rest(x) + 1);
    }
}

/// Reading digits depends only on the digits read.
proof fn lemma_drops_prefix(d: Seq<char>, e: Seq<char>, n: int, count: nat)
    requires
        0 <= n <= d.len(),
        n <= e.len(),
        forall|i: int| 0 <= i < n ==> d[i] == e[i],
    ensures
        drops_spec(d, n, count) == drops_spec(e, n, count),
    decreases n,
{
    if n > 0 {
        lemma_drops_prefix(d, e, n - 1, count);
    }
}

/// Reading the drop digits of `x` after digits that dropped `a` tiles into pattern `b`.
proof fn lemma_read_drops(p: Seq<char>, x: nat, a: nat, b: nat, count: nat)
    requires
        drops_spec(p, p.len() as int, count) == Ok::<(nat, nat), MoveParseError>((a, b)),
        a + bit_width(x) <= count,
        count <= 6,
    ensures
        drops_spec(p + drops_chars(x), (p + drops_chars(x)).len() as int, count) == Ok::<
            (nat, nat),
            MoveParseError,
        >((a + bit_width(x), b + x * pow2(a))),
    decreases x,
{
    if x == 0 {
        assert(p + drops_chars(x) =~= p);
        assert(0 * pow2(a) == 0);
    } else {
        lemma_segment(x);
        lemma_segment_value(x);
        let k = segment_size(x);
        let rest = segment_rest(x);
        lemma2_to64();
        let q = p.push(digit_char(k));
        assert(q =~= p + seq![digit_char(k)]);
        lemma_drops_prefix(q, p, p.len() as int, count);
        assert(q[p.len() as int] == digit_char(k));
        assert(k <= 6) by {
            lemma_segment_le_width(x);
        }
        let now = a + k;
        let b2 = b + pow2((now - 1) as nat);
        assert(drops_spec(q, q.len() as int, count) == Ok::<(nat, nat), MoveParseError>(
            (now, b2),
        ));
        lemma_read_drops(q, rest, now, b2, count);
        assert(q + drops_chars(rest) =~= p + drops_chars(x));
        vstd::arithmetic::power2::lemma_pow2_adds((k - 1) as nat, a);
        vstd::arithmetic::power2::lemma_pow2_adds(a, k);
        vstd::arithmetic::power2::lemma_pow2_unfold(k);
        let pa = pow2(a);
        let pk = pow2((k - 1) as nat);
        assert(x * pa == pk * (2 * rest + 1) * pa);
        assert(pk * (2 * rest + 1) * pa == pk * pa + rest * (2 * pk * pa)) by (nonlinear_arith);
        assert(pow2((now - 1) as nat) == pk * pa);
        assert(pa * (2 * pk) == 2 * pk * pa) by (nonlinear_arith);
        assert(pow2(now as nat) == 2 * pk * pa);
        assert(rest * pow2(now as nat) == rest * (2 * pk * pa));
        assert(b2 + rest * pow2(now as nat) == b + x * pa);
        assert(now + bit_width(rest) == a + bit_width(x));
    }
}

proof fn lemma_segment_le_width(x: nat)
    requires
        x > 0,
    ensures
        segment_size(x) <= bit_width(x),
    decreases x,
{
    if x % 2 == 0 {
        lemma_segment_le_width(x / 2);
    }
}

/// A pattern with one drop is the bit of its highest tile.
proof fn lemma_single_drop(x: nat)
    requires
        x > 0,
        bit_count(x) == 1,
    ensures
        x == pow2((bit_width(x) - 1) as nat),
    decreases x,
{
    if x % 2 == 0 {
        assert(bit_count(x / 2) == 1);
        lemma_single_drop(x / 2);
        assert(bit_width(x) == bit_width(x / 2) + 1);
        assert(bit_width(x / 2) >= 1);
        vstd::arithmetic::power2::lemma_pow2_unfold(bit_width(x / 2));
        assert(x == 2 * (x / 2));
    } else {
        assert(bit_count(x / 2) == 0);
        lemma_no_bits(x / 2);
        lemma2_to64();
        assert(x == 1);
        assert(bit_width(0) == 0);
        assert(bit_width(x) == 1);
    }
}

proof fn lemma_no_bits(x: nat)
    requires
        bit_count(x) == 0,
    ensures
        x == 0,
    decreases x,
{
    if x > 0 {
        lemma_no_bits(x / 2);
    }
}

/// A square's string reads back as that square.
proof fn lemma_square_round_trip(i: nat)
    requires
        i < 36,
    ensures
        square_spec(square_chars(i)[0], square_chars(i)[1]) == Ok::<nat, SquareParseError>(i),
{
}

/// Reading the string of a placement gives the placement back.
proof fn lemma_place_round_trip(w: u16)
    requires
        valid_word(w),
        word_splat(w) == 0,
    ensures
        move_spec(move_string(w)) == Ok::<nat, MoveParseError>(w as nat),
{
    let sq = word_sq(w);
    let f = word_flags(w);
    let sc = square_chars(sq);
    lemma_square_round_trip(sq);
    assert(w as nat == f * 4096 + sq);
    let s = move_string(w);
    if f == 2 {
        assert(s =~= seq!['S', sc[0], sc[1]]);
        assert(s.skip(3) =~= Seq::<char>::empty());
    } else if f == 3 {
        assert(s =~= seq!['C', sc[0], sc[1]]);
        assert(s.skip(3) =~= Seq::<char>::empty());
    } else {
        assert(s =~= seq![sc[0], sc[1]]);
        assert(s.skip(2) =~= Seq::<char>::empty());
    }
}

/// Reading the string of a spread gives the spread back.
#[verifier::rlimit(50)]
proof fn lemma_spread_round_trip(w: u16)
    requires
        valid_word(w),
        word_splat(w) != 0,
    ensures
        move_spec(move_string(w)) == Ok::<nat, MoveParseError>(w as nat),
{
    let sq = word_sq(w);
    let sp = word_splat(w);
    let f = word_flags(w);
    let sc = square_chars(sq);
    lemma_square_round_trip(sq);
    assert(w as nat == f * 4096 + sp * 64 + sq);
    let s = move_string(w);
    lemma2_to64();
    crate::make_move::lemma_width_bound(sp, 6);
    let size = bit_width(sp);
    let d = dir_char(f);
    assert(dir_spec(d) == Some(f));
    if size == 1 {
        assert(sp == 1) by {
            assert(bit_width(sp / 2) == 0);
            if sp / 2 > 0 {
                assert(bit_width(sp / 2) >= 1);
            }
        }
        assert(s =~= seq![sc[0], sc[1], d]);
        assert(s.skip(2) =~= seq![d]);
    } else if bit_count(sp) == 1 {
        lemma_single_drop(sp);
        assert(s =~= seq![digit_char(size), sc[0], sc[1], d]);
        assert(s.skip(3) =~= seq![d]);
    } else {
        let p = Seq::<char>::empty();
        assert(drops_spec(p, 0, size) == Ok::<(nat, nat), MoveParseError>((0, 0)));
        lemma_read_drops(p, sp, 0, 0, size);
        assert(p + drops_chars(sp) =~= drops_chars(sp));
        assert(sp * pow2(0) == sp);
        assert(s =~= seq![digit_char(size), sc[0], sc[1], d] + drops_chars(sp));
        assert(s.skip(3) =~= seq![d] + drops_chars(sp));
        assert(s.skip(3).skip(1) =~= drops_chars(sp));
        assert(drops_chars(sp).len() > 0);
    }
}

/// Reading the string of a move gives the move back.
pub proof fn lemma_move_round_trip(w: u16)
    requires
        valid_word(w),
    ensures
        move_spec(move_string(w)) == Ok::<nat, MoveParseError>(w as nat),
{
    if word_splat(w) == 0 {
        lemma_place_round_trip(w);
    } else {
        lemma_spread_round_trip(w);
    }
}

} // verus!
