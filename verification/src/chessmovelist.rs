//! A list of at most 255 moves with a fixed backing store.
use vstd::prelude::*;

use crate::chessmove::Move;

verus! {

/// The number of moves a list can hold.
pub const CAPACITY: usize = 255;

/// A list of at most `CAPACITY` moves.
#[derive(Debug)]
pub struct MoveList {
    moves: Vec<Move>,
    len: usize,
}

impl MoveList {
    /// The backing store has `CAPACITY` slots, of which the first `len` are in use.
    pub closed spec fn wf(&self) -> bool {
        &&& self.moves.len() == CAPACITY
        &&& self.len <= CAPACITY
    }

    /// The moves in the list, in the order they were pushed.
    pub closed spec fn view(&self) -> Seq<Move> {
        self.moves@.take(self.len as int)
    }

    /// The move held in slot `i` of the backing store, in use or not.
    pub closed spec fn slot(&self, i: int) -> Move {
        self.moves@[i]
    }

    /// Empties the list.
    pub fn reset(&mut self)
        requires
            old(self).wf(),
        ensures
            final(self).wf(),
            final(self).view() == Seq::<Move>::empty(),
    {
        self.len = 0;
    }

    /// The number of moves in the list.
    pub fn len(&self) -> (n: usize)
        requires
            self.wf(),
        ensures
            n == self.view().len(),
            n <= CAPACITY,
    {
        self.len
    }

    /// The list holds no move.
    pub fn is_empty(&self) -> (b: bool)
        requires
            self.wf(),
        ensures
            b == (self.view().len() == 0),
    {
        self.len == 0
    }

    /// The move in slot `index`; for `index < len()` it is the move pushed at that position.
    pub fn get(&self, index: usize) -> (m: Move)
        requires
            self.wf(),
            index < CAPACITY,
        ensures
            m == self.slot(index as int),
            index < self.view().len() ==> m == self.view()[index as int],
    {
        self.moves[index]
    }

    /// Appends a move.
    pub fn push(&mut self, m: Move)
        requires
            old(self).wf(),
            old(self).view().len() < CAPACITY,
        ensures
            final(self).wf(),
            final(self).view() == old(self).view().push(m),
    {
        let i = self.len;
        self.moves.set(i, m);
        self.len = i + 1;
        proof {
            assert(self.moves@.take(i + 1) =~= old(self).moves@.take(i as int).push(m));
        }
    }
}

impl Default for MoveList {
    fn default() -> (r: MoveList)
        ensures
            r.wf(),
            r.view() == Seq::<Move>::empty(),
    {
        let mut moves: Vec<Move> = Vec::new();
        let mut i: usize = 0;
        while i < CAPACITY
            invariant
                i <= CAPACITY,
                moves.len() == i,
            decreases CAPACITY - i,
        {
            moves.push(Move::null());
            i = i + 1;
        }
        MoveList { moves, len: 0 }
    }
}

} // verus!
