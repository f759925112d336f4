//! Principal Variation (PV): the best line of play found during search.
//!
//! The PV is the sequence of moves that both sides would play if they follow the best path
//! found by the search so far.
use vstd::prelude::*;

use crate::chessmove::{Move, move_text};
use crate::text::{push_char, push_str};

verus! {

/// The number of moves a principal variation can hold.
pub const MAX_DEPTH: usize = 64;

/// The best sequence of moves found during search.
///
/// Updated during alpha-beta search: whenever a move improves alpha, the PV is rebuilt as that
/// move followed by the child's PV.
#[derive(Debug, Clone)]
pub struct PrincipalVariation {
    moves: Vec<Option<Move>>,
    len: usize,
}

/// The moves of a line in coordinate notation, separated by spaces.
pub open spec fn line_text(moves: Seq<Move>) -> Seq<char>
    decreases moves.len(),
{
    if moves.len() == 0 {
        Seq::<char>::empty()
    } else if moves.len() == 1 {
        move_text(moves[0])
    } else {
        line_text(moves.drop_last()) + seq![' '] + move_text(moves.last())
    }
}

impl PrincipalVariation {
    /// The backing store has `MAX_DEPTH` slots and the first `len` hold moves.
    pub closed spec fn wf(&self) -> bool {
        &&& self.moves.len() == MAX_DEPTH
        &&& self.len <= MAX_DEPTH
        &&& forall|i: int| 0 <= i < self.len ==> #[trigger] self.moves@[i] is Some
    }

    /// The moves of the line, from the current position on.
    pub closed spec fn view(&self) -> Seq<Move> {
        Seq::new(self.len as nat, |i: int| self.moves@[i]->0)
    }

    /// An empty line.
    fn new() -> (pv: PrincipalVariation)
        ensures
            pv.wf(),
            pv.view() == Seq::<Move>::empty(),
    {
        let mut moves: Vec<Option<Move>> = Vec::new();
        let mut i: usize = 0;
        while i < MAX_DEPTH
            invariant
                i <= MAX_DEPTH,
                moves.len() == i,
            decreases MAX_DEPTH - i,
        {
            moves.push(None);
            i = i + 1;
        }
        PrincipalVariation { moves, len: 0 }
    }

    /// Returns the best move, or `None` if the PV is empty.
    pub fn best_move(&self) -> (r: Option<Move>)
        requires
            self.wf(),
        ensures
            r == if self.view().len() == 0 {
                None
            } else {
                Some(self.view()[0])
            },
    {
        if self.len == 0 {
            return None;
        }
        self.moves[0]
    }

    /// Replaces this PV with `m` followed by `child`'s PV.
    pub fn update(&mut self, m: Move, child: &PrincipalVariation)
        requires
            old(self).wf(),
            child.wf(),
            child.view().len() < MAX_DEPTH,
        ensures
            final(self).wf(),
            final(self).view() == seq![m] + child.view(),
    {
        self.moves.set(0, Some(m));
        self.len = child.len + 1;
        let mut idx: usize = 0;
        while idx < child.len
            invariant
                child.wf(),
                child.len < MAX_DEPTH,
                self.len == child.len + 1,
                self.moves.len() == MAX_DEPTH,
                idx <= child.len,
                self.moves@[0] == Some(m),
                forall|j: int| 0 <= j < idx ==> #[trigger] self.moves@[j + 1] == child.moves@[j],
            decreases child.len - idx,
        {
            self.moves.set(idx + 1, child.moves[idx]);
            idx = idx + 1;
        }
        proof {
            assert forall|i: int| 0 <= i < self.len implies #[trigger] self.moves@[i] is Some by {
                if i > 0 {
                    assert(self.moves@[(i - 1) + 1] == child.moves@[i - 1]);
                }
            }
            assert(self.view() =~= seq![m] + child.view()) by {
                assert forall|i: int| 0 <= i < self.len implies self.view()[i] == (seq![m] + child.view())[i] by {
                    if i > 0 {
                        assert(self.moves@[(i - 1) + 1] == child.moves@[i - 1]);
                    }
                }
            }
        }
    }

    /// Empties the line.
    pub fn clear(&mut self)
        requires
            old(self).wf(),
        ensures
            final(self).wf(),
            final(self).view() == Seq::<Move>::empty(),
    {
        self.len = 0;
        proof {
            assert(self.view() =~= Seq::<Move>::empty());
        }
    }

    /// The number of moves in the line.
    pub fn len(&self) -> (n: usize)
        requires
            self.wf(),
        ensures
            n == self.view().len(),
    {
        self.len
    }

    /// The move at position `idx` of the line.
    pub fn get(&self, idx: usize) -> (r: Option<Move>)
        requires
            self.wf(),
        ensures
            r == if idx < self.view().len() {
                Some(self.view()[idx as int])
            } else {
                None
            },
    {
        if idx < self.len {
            self.moves[idx]
        } else {
            None
        }
    }
}

impl Default for PrincipalVariation {
    fn default() -> (pv: PrincipalVariation)
        ensures
            pv.wf(),
            pv.view() == Seq::<Move>::empty(),
    {
        PrincipalVariation::new()
    }
}


impl PrincipalVariation {
    /// The line in coordinate notation, moves separated by spaces.
    pub fn to_str(&self) -> (s: String)
        requires
            self.wf(),
        ensures
            s@ == line_text(self.view()),
    {
        let mut s = String::new();
        let mut idx: usize = 0;
        while idx < self.len
            invariant
                self.wf(),
                idx <= self.len,
                s@ == line_text(self.view().take(idx as int)),
            decreases self.len - idx,
        {
            let m = self.moves[idx].unwrap();
            if idx > 0 {
                push_char(&mut s, ' ');
            }
            let text = m.to_str();
            push_str(&mut s, text.as_str());
            proof {
                let t = self.view().take(idx + 1);
                assert(t.drop_last() =~= self.view().take(idx as int));
                assert(t.last() == m);
                if idx == 0 {
                    assert(self.view().take(0) =~= Seq::<Move>::empty());
                }
            }
            idx = idx + 1;
        }
        assert(self.view().take(idx as int) =~= self.view());
        s
    }
}


impl PrincipalVariation {
    /// A copy of the line.
    pub fn duplicate(&self) -> (r: PrincipalVariation)
        requires
            self.wf(),
        ensures
            r.wf(),
            r.view() == self.view(),
    {
        let mut r = PrincipalVariation::new();
        assert(r.view().len() == r.len);
        let mut idx: usize = 0;
        while idx < self.len
            invariant
                self.wf(),
                idx <= self.len,
                r.moves.len() == MAX_DEPTH,
                r.len == 0,
                forall|j: int| 0 <= j < idx ==> #[trigger] r.moves@[j] == self.moves@[j],
            decreases self.len - idx,
        {
            r.moves.set(idx, self.moves[idx]);
            idx = idx + 1;
        }
        r.len = self.len;
        assert(r.view() =~= self.view());
        r
    }
}

} // verus!
