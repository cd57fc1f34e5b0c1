use crate::make_move::after;
use crate::moves::Move;
use crate::move_list::{list_words, MoveList};
use crate::movegen::SpreadCounts;
use crate::position::Position;
use vstd::prelude::*;

verus! {

/// `n`, or the largest `u64` where `n` is larger.
pub open spec fn saturated(n: nat) -> u64 {
    if n > u64::MAX {
        u64::MAX
    } else {
        n as u64
    }
}

/// The number of move sequences of length `depth` from `pos`: one at depth 0, none below a
/// finished game, and otherwise the sum over the moves of the counts one level down.
pub open spec fn perft_count(pos: Position, depth: int) -> nat
    decreases depth, 0int,
{
    if depth <= 0 {
        1
    } else if pos.outcome() is Some {
        0
    } else if depth == 1 {
        pos.move_total()
    } else {
        children_count(pos, pos.move_list(), pos.move_list().len() as int, depth - 1)
    }
}

/// The counts to `depth` below the first `k` moves `ws`, added up.
pub open spec fn children_count(pos: Position, ws: Seq<u16>, k: int, depth: int) -> nat
    decreases depth, k + 1,
{
    if k <= 0 || depth < 0 {
        0
    } else {
        children_count(pos, ws, k - 1, depth) + perft_count(after(pos, ws[k - 1] as nat), depth)
    }
}

/// Adding with saturation: the saturated sum of two counts.
proof fn lemma_saturated_add(a: nat, b: nat)
    ensures
        (if saturated(a) > u64::MAX - saturated(b) {
            u64::MAX
        } else {
            (saturated(a) + saturated(b)) as u64
        }) == saturated(a + b),
{
}

/// The number of move sequences of length `depth` from `pos` that end in a position, where
/// the sequences stop early at a finished game (which counts nothing below it).
pub fn perft(pos: &Position, depth: i32) -> (r: u64)
    requires
        pos.wf(),
    ensures
        r == saturated(perft_count(*pos, depth as int)),
        depth <= 0 ==> r == 1,
        depth > 0 && pos.outcome() is Some ==> r == 0,
        depth == 1 && pos.outcome() is None ==> r == pos.move_total(),
{
    let counts = SpreadCounts::new();
    perft_with(pos, depth, &counts)
}

/// `perft`, with the pattern counts at hand.
pub fn perft_with(pos: &Position, depth: i32, counts: &SpreadCounts) -> (r: u64)
    requires
        pos.wf(),
        counts.wf(),
    ensures
        r == saturated(perft_count(*pos, depth as int)),
        depth <= 0 ==> r == 1,
        depth > 0 && pos.outcome() is Some ==> r == 0,
        depth == 1 && pos.outcome() is None ==> r == pos.move_total(),
    decreases depth,
{
    if depth <= 0 {
        return 1;
    }
    if pos.terminal().is_some() {
        return 0;
    }
    if depth == 1 {
        return pos.count_moves_with(counts);
    }
    let mut moves = MoveList::new();
    pos.generate_moves(&mut moves);
    let mut total: u64 = 0;
    let mut i: usize = 0;
    assert(pos.outcome() is None);
    while i < moves.len()
        invariant
            pos.wf(),
            counts.wf(),
            pos.all_apply(list_words(moves)),
            i <= list_words(moves).len(),
            depth > 1,
            list_words(moves) == pos.move_list(),
            pos.outcome() is None,
            total == saturated(children_count(*pos, pos.move_list(), i as int, depth - 1)),
        decreases list_words(moves).len() - i,
    {
        let mv = moves.get(i);
        let child = pos.make_move(mv);
        proof {
            crate::make_move::lemma_after(*pos, mv, child);
            lemma_saturated_add(
                children_count(*pos, pos.move_list(), i as int, depth - 1),
                perft_count(child, depth - 1),
            );
        }
        let count = perft_with(&child, depth - 1, counts);
        total = if total > u64::MAX - count {
            u64::MAX
        } else {
            total + count
        };
        i += 1;
    }
    total
}

} // verus!

verus! {

/// The count to `depth - 1` below each move of `pos`, in the order of its move list, and
/// the count to `depth` from `pos`.
pub fn perft_split(pos: &Position, depth: i32) -> (r: (Vec<(Move, u64)>, u64))
    requires
        pos.wf(),
    ensures
        r.1 == saturated(perft_count(*pos, depth as int)),
        depth <= 0 || pos.outcome() is Some ==> r.0.len() == 0,
        depth > 0 && pos.outcome() is None ==> r.0.len() == pos.move_list().len(),
        depth > 0 && pos.outcome() is None ==> forall|k: int|
            0 <= k < r.0.len() ==> (#[trigger] r.0[k]).0.bits() == pos.move_list()[k] && r.0[k].1
                == saturated(perft_count(after(*pos, pos.move_list()[k] as nat), depth - 1)),
{
    let mut out: Vec<(Move, u64)> = Vec::new();
    if depth <= 0 {
        return (out, 1);
    }
    if pos.terminal().is_some() {
        return (out, 0);
    }
    let counts = SpreadCounts::new();
    let mut moves = MoveList::new();
    pos.generate_moves(&mut moves);
    let mut total: u64 = 0;
    let mut i: usize = 0;
    while i < moves.len()
        invariant
            pos.wf(),
            counts.wf(),
            pos.all_apply(list_words(moves)),
            i <= list_words(moves).len(),
            depth > 0,
            list_words(moves) == pos.move_list(),
            list_words(moves).len() == pos.move_total(),
            pos.outcome() is None,
            out.len() == i,
            forall|k: int|
                0 <= k < i ==> (#[trigger] out[k]).0.bits() == pos.move_list()[k] && out[k].1
                    == saturated(perft_count(after(*pos, pos.move_list()[k] as nat), depth - 1)),
            total == saturated(children_count(*pos, pos.move_list(), i as int, depth - 1)),
        decreases list_words(moves).len() - i,
    {
        let mv = moves.get(i);
        let child = pos.make_move(mv);
        proof {
            crate::make_move::lemma_after(*pos, mv, child);
            lemma_saturated_add(
                children_count(*pos, pos.move_list(), i as int, depth - 1),
                perft_count(child, depth - 1),
            );
        }
        let count = perft_with(&child, depth - 1, &counts);
        total = if total > u64::MAX - count {
            u64::MAX
        } else {
            total + count
        };
        out.push((mv, count));
        i += 1;
    }
    proof {
        if depth == 1 {
            lemma_children_leaves(*pos, pos.move_list(), pos.move_list().len() as int);
        }
    }
    (out, total)
}

/// Below each move, one sequence of length zero.
proof fn lemma_children_leaves(pos: Position, ws: Seq<u16>, k: int)
    requires
        0 <= k,
    ensures
        children_count(pos, ws, k, 0) == k,
    decreases k,
{
    if k > 0 {
        lemma_children_leaves(pos, ws, k - 1);
        assert(perft_count(after(pos, ws[k - 1] as nat), 0) == 1);
    }
}

} // verus!
