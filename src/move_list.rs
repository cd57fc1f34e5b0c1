use crate::moves::Move;
use smallvec::SmallVec;
use vstd::prelude::*;

verus! {

/// A buffer of moves that holds the usual number of moves without allocating.
#[verifier::external_body]
pub struct MoveList {
    moves: SmallVec<[Move; 256]>,
}

/// The words of the moves in a list, in order.
pub uninterp spec fn list_words(l: MoveList) -> Seq<u16>;

impl MoveList {
    /// Relies on `SmallVec::new`: a new vector is empty.
    #[verifier::external_body]
    pub fn new() -> (r: MoveList)
        ensures
            list_words(r) == Seq::<u16>::empty(),
    {
        MoveList { moves: SmallVec::new() }
    }

    /// Relies on `SmallVec::clear`: every element is removed.
    #[verifier::external_body]
    pub fn clear(&mut self)
        ensures
            list_words(*final(self)) == Seq::<u16>::empty(),
    {
        self.moves.clear()
    }

    /// Relies on `SmallVec::push`: the element goes at the end; it panics only where the
    /// length would overflow `usize`.
    #[verifier::external_body]
    pub fn push(&mut self, m: Move)
        requires
            list_words(*old(self)).len() < usize::MAX,
        ensures
            list_words(*final(self)) == list_words(*old(self)).push(m.bits()),
    {
        self.moves.push(m)
    }

    /// Relies on `SmallVec::len`: the number of elements.
    #[verifier::external_body]
    pub fn len(&self) -> (r: usize)
        ensures
            r == list_words(*self).len(),
    {
        self.moves.len()
    }

    /// Relies on indexing a `SmallVec` (through its slice): element `i`.
    #[verifier::external_body]
    pub fn get(&self, i: usize) -> (r: Move)
        requires
            i < list_words(*self).len(),
        ensures
            r.bits() == list_words(*self)[i as int],
    {
        self.moves[i]
    }
}

} // verus!
