//! A single board cell: either a fixed digit or a set of candidate digits.

use vstd::prelude::*;

verus! {

/// Provenance tag of a cell, used by display adapters only; it has no
/// effect on the solving logic.
#[derive(Clone, Copy, Debug, PartialEq, Eq, Structural)]
pub enum CellState {
    /// Part of the initial puzzle.
    Initial,
    /// Solved in an earlier iteration of the solve loop.
    Solved,
    /// Solved in the most recent iteration.
    New,
    /// Not yet assigned.
    Unsolved,
    /// Provisionally assigned by the backtracking search.
    Guess,
}

/// One cell of the board. While `value == 0` the cell is unassigned and
/// `possible_values` lists the digits it could still hold, in strictly
/// ascending order; once assigned, `possible_values` is empty.
pub struct GameCell {
    pub value: usize,
    pub possible_values: Vec<usize>,
    pub state: CellState,
}

/// The full candidate domain 1..=9 of a freshly opened cell.
pub open spec fn full_domain() -> Seq<usize> {
    seq![1usize, 2, 3, 4, 5, 6, 7, 8, 9]
}

/// A well-formed candidate list: strictly ascending digits in 1..=9.
pub open spec fn candidates_wf(s: Seq<usize>) -> bool {
    &&& forall|a: int, b: int| 0 <= a < b < s.len() ==> s[a] < s[b]
    &&& forall|a: int| 0 <= a < s.len() ==> 1 <= #[trigger] s[a] <= 9
    &&& s.len() <= 9
}

impl GameCell {
    /// Cell invariant: the value is a digit, the candidate list is
    /// well-formed, and an assigned cell has no candidates left.
    pub open spec fn inv(self) -> bool {
        &&& self.value <= 9
        &&& candidates_wf(self.possible_values@)
        &&& self.value != 0 ==> self.possible_values@.len() == 0
    }

    /// Whether `v` is among the remaining candidates.
    pub open spec fn has_candidate(self, v: usize) -> bool {
        self.possible_values@.contains(v)
    }

    /// A new uninitialized cell: value zero, full candidate domain.
    pub fn new() -> (r: GameCell)
        ensures
            r.inv(),
            r.value == 0,
            r.possible_values@ == full_domain(),
            r.state == CellState::Unsolved,
    {
        let pv: Vec<usize> = vec![1, 2, 3, 4, 5, 6, 7, 8, 9];
        let r = GameCell { value: 0, possible_values: pv, state: CellState::Unsolved };
        proof {
            assert(r.possible_values@ =~= full_domain());
        }
        r
    }

    /// Removes a value, if present, from the candidate list; no-op on an
    /// assigned cell.
    pub fn remove_possible_cell_value(&mut self, v: usize)
        requires
            old(self).inv(),
        ensures
            final(self).inv(),
            final(self).value == old(self).value,
            final(self).state == old(self).state,
            old(self).value != 0 ==> final(self).possible_values@ == old(self).possible_values@,
            forall|x: usize|
                final(self).has_candidate(x) <==> old(self).has_candidate(x) && x != v,
            final(self).possible_values@.len() <= old(self).possible_values@.len(),
    {
        if self.value == 0 {
            // rebuilding the list is only needed when the value is present
            let mut present = false;
            let n = self.possible_values.len();
            for i in 0..n
                invariant
                    n == self.possible_values@.len(),
                    self.value == 0,
                    present ==> self.possible_values@.contains(v),
                    !present ==> forall|t: int|
                        0 <= t < i ==> #[trigger] self.possible_values@[t] != v,
            {
                if self.possible_values[i] == v {
                    present = true;
                }
            }
            if !present {
                return;
            }
            let ghost orig = self.possible_values@;
            let mut kept: Vec<usize> = Vec::new();
            for i in 0..n
                invariant
                    n == orig.len(),
                    self.possible_values@ == orig,
                    self.value == 0,
                    candidates_wf(orig),
                    kept@.len() <= i,
                    candidates_wf(kept@),
                    forall|t: int|
                        0 <= t < kept@.len() ==> #[trigger] kept@[t] != v
                            && orig.contains(kept@[t]),
                    i < n ==> forall|t: int|
                        0 <= t < kept@.len() ==> #[trigger] kept@[t] < orig[i as int],
                    forall|u: int|
                        0 <= u < i && orig[u] != v ==> kept@.contains(#[trigger] orig[u]),
            {
                let x = self.possible_values[i];
                if x != v {
                    let ghost prev = kept@;
                    kept.push(x);
                    proof {
                        assert(kept@.last() == x);
                        assert forall|y: usize| prev.contains(y) implies kept@.contains(y) by {
                            let t = choose|t: int| 0 <= t < prev.len() && prev[t] == y;
                            assert(kept@[t] == y);
                        }
                    }
                }
            }
            proof {
                assert forall|x: usize|
                    orig.contains(x) && x != v implies kept@.contains(x) by {
                    let u = choose|u: int| 0 <= u < orig.len() && orig[u] == x;
                    assert(kept@.contains(orig[u]));
                }
            }
            self.possible_values = kept;
        }
    }

    /// Keeps a particular candidate, if present, and removes all others;
    /// no-op on an assigned cell.
    pub fn keep_only_possible_cell_value(&mut self, v: usize)
        requires
            old(self).inv(),
        ensures
            final(self).inv(),
            final(self).value == old(self).value,
            final(self).state == old(self).state,
            old(self).value != 0 ==> final(self).possible_values@ == old(self).possible_values@,
            forall|x: usize|
                final(self).has_candidate(x) <==> old(self).has_candidate(x) && x == v,
            final(self).possible_values@.len() <= old(self).possible_values@.len(),
    {
        if self.value == 0 {
            let ghost orig = self.possible_values@;
            let mut kept: Vec<usize> = Vec::new();
            let n = self.possible_values.len();
            for i in 0..n
                invariant
                    n == orig.len(),
                    self.possible_values@ == orig,
                    self.value == 0,
                    candidates_wf(orig),
                    kept@.len() <= i,
                    candidates_wf(kept@),
                    forall|t: int|
                        0 <= t < kept@.len() ==> #[trigger] kept@[t] == v
                            && orig.contains(kept@[t]),
                    i < n ==> forall|t: int|
                        0 <= t < kept@.len() ==> #[trigger] kept@[t] < orig[i as int],
                    forall|u: int|
                        0 <= u < i && orig[u] == v ==> kept@.contains(#[trigger] orig[u]),
            {
                let x = self.possible_values[i];
                if x == v {
                    let ghost prev = kept@;
                    kept.push(x);
                    proof {
                        assert(kept@.last() == x);
                        assert forall|y: usize| prev.contains(y) implies kept@.contains(y) by {
                            let t = choose|t: int| 0 <= t < prev.len() && prev[t] == y;
                            assert(kept@[t] == y);
                        }
                    }
                }
            }
            proof {
                assert forall|x: usize|
                    orig.contains(x) && x == v implies kept@.contains(x) by {
                    let u = choose|u: int| 0 <= u < orig.len() && orig[u] == x;
                    assert(kept@.contains(orig[u]));
                }
            }
            self.possible_values = kept;
        }
    }

    /// Keeps a particular pair of candidates, if present, and removes all
    /// others; no-op on an assigned cell.
    pub fn keep_only_possible_cell_value_pair(&mut self, v: (usize, usize))
        requires
            old(self).inv(),
        ensures
            final(self).inv(),
            final(self).value == old(self).value,
            final(self).state == old(self).state,
            old(self).value != 0 ==> final(self).possible_values@ == old(self).possible_values@,
            forall|x: usize|
                final(self).has_candidate(x) <==> old(self).has_candidate(x) && (x == v.0 || x
                    == v.1),
            final(self).possible_values@.len() <= old(self).possible_values@.len(),
    {
        if self.value == 0 {
            let ghost orig = self.possible_values@;
            let mut kept: Vec<usize> = Vec::new();
            let n = self.possible_values.len();
            for i in 0..n
                invariant
                    n == orig.len(),
                    self.possible_values@ == orig,
                    self.value == 0,
                    candidates_wf(orig),
                    kept@.len() <= i,
                    candidates_wf(kept@),
                    forall|t: int|
                        0 <= t < kept@.len() ==> (#[trigger] kept@[t] == v.0 || kept@[t] == v.1)
                            && orig.contains(kept@[t]),
                    i < n ==> forall|t: int|
                        0 <= t < kept@.len() ==> #[trigger] kept@[t] < orig[i as int],
                    forall|u: int|
                        0 <= u < i && (orig[u] == v.0 || orig[u] == v.1) ==> kept@.contains(
                            #[trigger] orig[u]),
            {
                let x = self.possible_values[i];
                if x == v.0 || x == v.1 {
                    let ghost prev = kept@;
                    kept.push(x);
                    proof {
                        assert(kept@.last() == x);
                        assert forall|y: usize| prev.contains(y) implies kept@.contains(y) by {
                            let t = choose|t: int| 0 <= t < prev.len() && prev[t] == y;
                            assert(kept@[t] == y);
                        }
                    }
                }
            }
            proof {
                assert forall|x: usize|
                    orig.contains(x) && (x == v.0 || x == v.1) implies kept@.contains(x) by {
                    let u = choose|u: int| 0 <= u < orig.len() && orig[u] == x;
                    assert(kept@.contains(orig[u]));
                }
            }
            self.possible_values = kept;
        }
    }

    /// Sets the value of the cell and clears the candidate list, unless
    /// setting to zero, which re-opens the cell with the full domain.
    pub fn set_value(&mut self, v: usize)
        requires
            old(self).inv(),
            v <= 9,
        ensures
            final(self).inv(),
            final(self).value == v,
            final(self).state == old(self).state,
            v == 0 ==> final(self).possible_values@ == full_domain(),
            v != 0 ==> final(self).possible_values@.len() == 0,
    {
        self.value = v;
        if v == 0 {
            let pv: Vec<usize> = vec![1, 2, 3, 4, 5, 6, 7, 8, 9];
            self.possible_values = pv;
            proof {
                assert(self.possible_values@ =~= full_domain());
            }
        } else {
            self.possible_values.clear();
        }
    }

    /// If exactly one candidate remains, assigns it and marks the cell
    /// newly solved; reports whether a change was made.
    pub fn check_possible(&mut self) -> (r: bool)
        requires
            old(self).inv(),
        ensures
            final(self).inv(),
            r == (old(self).possible_values@.len() == 1),
            r ==> {
                &&& old(self).value == 0
                &&& final(self).value == old(self).possible_values@[0]
                &&& 1 <= final(self).value <= 9
                &&& final(self).possible_values@.len() == 0
                &&& final(self).state == CellState::New
            },
            !r ==> *final(self) == *old(self),
    {
        if self.possible_values.len() == 1 {
            let v = self.possible_values[0];
            self.set_value(v);
            self.set_newly_solved();
            return true;
        }
        false
    }

    /// Tags the cell as part of the initial puzzle when assigned, and as
    /// unsolved otherwise.
    pub fn set_initial(&mut self)
        requires
            old(self).inv(),
        ensures
            final(self).inv(),
            final(self).value == old(self).value,
            final(self).possible_values@ == old(self).possible_values@,
            final(self).state == if old(self).value == 0 {
                CellState::Unsolved
            } else {
                CellState::Initial
            },
    {
        if self.value == 0 {
            self.state = CellState::Unsolved;
        } else {
            self.state = CellState::Initial;
        }
    }

    /// Tags the cell as solved in the current iteration.
    pub fn set_newly_solved(&mut self)
        requires
            old(self).inv(),
        ensures
            final(self).inv(),
            final(self).value == old(self).value,
            final(self).possible_values@ == old(self).possible_values@,
            final(self).state == CellState::New,
    {
        self.state = CellState::New;
    }

    /// Demotes a newly solved cell to previously solved; other tags are
    /// left alone.
    pub fn set_previously_solved(&mut self)
        requires
            old(self).inv(),
        ensures
            final(self).inv(),
            final(self).value == old(self).value,
            final(self).possible_values@ == old(self).possible_values@,
            final(self).state == if old(self).state == CellState::New {
                CellState::Solved
            } else {
                old(self).state
            },
    {
        if self.state == CellState::New {
            self.state = CellState::Solved;
        }
    }

    /// Tags the cell as provisionally assigned by the search.
    pub fn set_guessed(&mut self)
        requires
            old(self).inv(),
        ensures
            final(self).inv(),
            final(self).value == old(self).value,
            final(self).possible_values@ == old(self).possible_values@,
            final(self).state == CellState::Guess,
    {
        self.state = CellState::Guess;
    }
}

} // verus!
