//! The 9x9 board: a row-major vector of 81 cells, with the group geometry
//! (rows, columns, boxes) that every propagation rule works over.

use vstd::prelude::*;
use vstd::arithmetic::div_mod::{lemma_fundamental_div_mod, lemma_fundamental_div_mod_converse};
use crate::cell::{CellState, GameCell};

verus! {

/// One of the three kinds of cell group a Sudoku constraint ranges over.
#[derive(Clone, Copy, Debug, PartialEq, Eq, Structural)]
pub enum GroupKind {
    Row,
    Col,
    Box,
}

/// Linear index of member `m` of group `g` of the given kind, with cells
/// numbered row-major from 0 to 80.
pub open spec fn spec_group_index(kind: GroupKind, g: int, m: int) -> int {
    match kind {
        GroupKind::Row => g * 9 + m,
        GroupKind::Col => m * 9 + g,
        GroupKind::Box => (3 * (g / 3) + m / 3) * 9 + 3 * (g % 3) + m % 3,
    }
}

/// Which group of the given kind the cell at linear index `k` belongs to.
pub open spec fn group_of(kind: GroupKind, k: int) -> int {
    match kind {
        GroupKind::Row => k / 9,
        GroupKind::Col => k % 9,
        GroupKind::Box => 3 * ((k / 9) / 3) + (k % 9) / 3,
    }
}

/// The position of the cell at linear index `k` within its group.
pub open spec fn member_of(kind: GroupKind, k: int) -> int {
    match kind {
        GroupKind::Row => k % 9,
        GroupKind::Col => k / 9,
        GroupKind::Box => 3 * ((k / 9) % 3) + (k % 9) % 3,
    }
}

/// Two cells share a group of the given kind.
pub open spec fn same_group(kind: GroupKind, a: int, b: int) -> bool {
    group_of(kind, a) == group_of(kind, b)
}

pub proof fn lemma_group_index(kind: GroupKind, g: int, m: int)
    requires
        0 <= g < 9,
        0 <= m < 9,
    ensures
        0 <= spec_group_index(kind, g, m) < 81,
        group_of(kind, spec_group_index(kind, g, m)) == g,
        member_of(kind, spec_group_index(kind, g, m)) == m,
{
    match kind {
        GroupKind::Row => {
            lemma_fundamental_div_mod_converse(g * 9 + m, 9, g, m);
        },
        GroupKind::Col => {
            lemma_fundamental_div_mod_converse(m * 9 + g, 9, m, g);
        },
        GroupKind::Box => {
            lemma_fundamental_div_mod(g, 3);
            lemma_fundamental_div_mod(m, 3);
            let row = 3 * (g / 3) + m / 3;
            let col = 3 * (g % 3) + m % 3;
            let k = row * 9 + col;
            lemma_fundamental_div_mod_converse(k, 9, row, col);
            lemma_fundamental_div_mod_converse(row, 3, g / 3, m / 3);
            lemma_fundamental_div_mod_converse(col, 3, g % 3, m % 3);
        },
    }
}

pub proof fn lemma_group_of_inverse(kind: GroupKind, k: int)
    requires
        0 <= k < 81,
    ensures
        0 <= group_of(kind, k) < 9,
        0 <= member_of(kind, k) < 9,
        spec_group_index(kind, group_of(kind, k), member_of(kind, k)) == k,
{
    lemma_fundamental_div_mod(k, 9);
    match kind {
        GroupKind::Row => {},
        GroupKind::Col => {},
        GroupKind::Box => {
            let r = k / 9;
            let c = k % 9;
            lemma_fundamental_div_mod(r, 3);
            lemma_fundamental_div_mod(c, 3);
            let g = 3 * (r / 3) + c / 3;
            let m = 3 * (r % 3) + c % 3;
            lemma_fundamental_div_mod_converse(g, 3, r / 3, c / 3);
            lemma_fundamental_div_mod_converse(m, 3, r % 3, c % 3);
            assert(spec_group_index(kind, g, m) == (3 * (g / 3) + m / 3) * 9 + 3 * (g % 3) + m
                % 3);
            assert((3 * (g / 3) + m / 3) * 9 + 3 * (g % 3) + m % 3 == k) by {
                assert(g / 3 == r / 3 && m / 3 == r % 3 && g % 3 == c / 3 && m % 3 == c % 3);
                assert(3 * (r / 3) + r % 3 == r);
                assert(3 * (c / 3) + c % 3 == c);
                assert((3 * (g / 3) + m / 3) * 9 == r * 9) by {
                    assert(3 * (g / 3) + m / 3 == r);
                }
            }
        },
    }
}

/// A well-formed board: 81 cells, each satisfying the cell invariant.
pub open spec fn board_wf(s: Seq<GameCell>) -> bool {
    &&& s.len() == 81
    &&& forall|k: int| 0 <= k < 81 ==> (#[trigger] s[k]).inv()
}

/// Some cell in `k`'s group of the given kind holds the value `v`.
pub open spec fn group_has_value(s: Seq<GameCell>, kind: GroupKind, k: int, v: usize) -> bool {
    exists|m: int|
        0 <= m < 9 && (#[trigger] s[spec_group_index(kind, group_of(kind, k), m)]).value == v
}

/// Pruning relation: values and tags are untouched and every candidate
/// list only shrinks. This is the shape shared by all propagation rules.
pub open spec fn monotone_rel(pre: Seq<GameCell>, post: Seq<GameCell>) -> bool {
    &&& pre.len() == 81
    &&& post.len() == 81
    &&& forall|k: int|
        0 <= k < 81 ==> (#[trigger] post[k]).value == pre[k].value && post[k].state == pre[k].state
    &&& forall|k: int|
        0 <= k < 81 ==> (#[trigger] post[k]).possible_values@.len()
            <= pre[k].possible_values@.len()
    &&& forall|k: int, v: usize|
        0 <= k < 81 && (#[trigger] post[k].has_candidate(v)) ==> pre[k].has_candidate(v)
}

pub proof fn lemma_monotone_trans(a: Seq<GameCell>, b: Seq<GameCell>, c: Seq<GameCell>)
    requires
        monotone_rel(a, b),
        monotone_rel(b, c),
    ensures
        monotone_rel(a, c),
{
    assert forall|k: int, v: usize|
        0 <= k < 81 && (#[trigger] c[k].has_candidate(v)) implies a[k].has_candidate(v) by {
        assert(b[k].has_candidate(v));
    }
}

/// A candidate of a well-formed cell is a digit 1..=9.
pub proof fn lemma_candidate_in_range(c: GameCell, v: usize)
    requires
        c.inv(),
        c.has_candidate(v),
    ensures
        1 <= v <= 9,
{
    let t = choose|t: int| 0 <= t < c.possible_values@.len() && c.possible_values@[t] == v;
}

/// Exact effect of one elimination pass of the given kind: a candidate
/// survives exactly when no cell of the same group holds it as a value.
pub open spec fn elim_rel(pre: Seq<GameCell>, post: Seq<GameCell>, kind: GroupKind) -> bool {
    &&& monotone_rel(pre, post)
    &&& forall|k: int, v: usize|
        0 <= k < 81 ==> ((#[trigger] post[k].has_candidate(v)) <==> pre[k].has_candidate(v)
            && !group_has_value(pre, kind, k, v))
}

/// A board is clean for a group kind when no cell still lists a candidate
/// that is already assigned within its group — the state an elimination
/// pass of that kind establishes.
pub open spec fn group_clean(b: Seq<GameCell>, kind: GroupKind) -> bool {
    forall|k: int, v: usize|
        0 <= k < 81 && (#[trigger] b[k].has_candidate(v)) ==> !group_has_value(b, kind, k, v)
}

/// Two boards agree cell by cell on value, candidates, and tag.
pub open spec fn boards_match(a: Seq<GameCell>, b: Seq<GameCell>) -> bool {
    &&& a.len() == b.len()
    &&& forall|k: int|
        0 <= k < a.len() ==> (#[trigger] a[k]).value == b[k].value && a[k].state == b[k].state
            && a[k].possible_values@ == b[k].possible_values@
}

/// The number of unassigned cells; the solver's termination measure.
pub open spec fn count_unassigned(s: Seq<GameCell>) -> int
    decreases s.len(),
{
    if s.len() == 0 {
        0
    } else {
        count_unassigned(s.drop_last()) + if s.last().value == 0 {
            1int
        } else {
            0int
        }
    }
}

pub proof fn lemma_count_unassigned_nonneg(s: Seq<GameCell>)
    ensures
        0 <= count_unassigned(s),
    decreases s.len(),
{
    if s.len() > 0 {
        lemma_count_unassigned_nonneg(s.drop_last());
    }
}

/// If every cell unassigned in `b` is also unassigned in `a`, then `b` has
/// no more unassigned cells than `a`.
pub proof fn lemma_count_unassigned_mono(a: Seq<GameCell>, b: Seq<GameCell>)
    requires
        a.len() == b.len(),
        forall|k: int| 0 <= k < a.len() && (#[trigger] b[k]).value == 0 ==> a[k].value == 0,
    ensures
        count_unassigned(b) <= count_unassigned(a),
    decreases a.len(),
{
    if a.len() > 0 {
        lemma_count_unassigned_mono(a.drop_last(), b.drop_last());
    }
}

/// Additionally assigning at least one previously unassigned cell makes the
/// count strictly smaller.
pub proof fn lemma_count_unassigned_strict(a: Seq<GameCell>, b: Seq<GameCell>, w: int)
    requires
        a.len() == b.len(),
        forall|k: int| 0 <= k < a.len() && (#[trigger] b[k]).value == 0 ==> a[k].value == 0,
        0 <= w < a.len(),
        a[w].value == 0,
        b[w].value != 0,
    ensures
        count_unassigned(b) < count_unassigned(a),
    decreases a.len(),
{
    if w == a.len() - 1 {
        lemma_count_unassigned_mono(a.drop_last(), b.drop_last());
    } else {
        lemma_count_unassigned_strict(a.drop_last(), b.drop_last(), w);
    }
}

/// The 9x9 board, row-major: the cell in row `i` and column `j` sits at
/// linear index `i * 9 + j`.
pub struct GameBoard {
    pub board: Vec<GameCell>,
}

impl GameBoard {
    /// Board invariant: 81 well-formed cells.
    pub open spec fn wf(self) -> bool {
        board_wf(self.board@)
    }

    /// A new board of 81 uninitialized cells.
    pub fn new() -> (r: GameBoard)
        ensures
            r.wf(),
            r.board@.len() == 81,
            forall|k: int|
                0 <= k < 81 ==> (#[trigger] r.board@[k]).value == 0 && r.board@[k].possible_values@
                    == crate::cell::full_domain() && r.board@[k].state == CellState::Unsolved,
    {
        let mut cells: Vec<GameCell> = Vec::new();
        for k in 0..81usize
            invariant
                cells@.len() == k,
                forall|t: int|
                    0 <= t < k ==> (#[trigger] cells@[t]).value == 0 && cells@[t].possible_values@
                        == crate::cell::full_domain() && cells@[t].state == CellState::Unsolved
                        && cells@[t].inv(),
        {
            cells.push(GameCell::new());
        }
        GameBoard { board: cells }
    }

    /// A deep copy of the board; search branches work on copies.
    pub fn clone(&self) -> (r: GameBoard)
        requires
            self.wf(),
        ensures
            r.wf(),
            boards_match(r.board@, self.board@),
    {
        let mut cells: Vec<GameCell> = Vec::new();
        for k in 0..81usize
            invariant
                self.wf(),
                cells@.len() == k,
                forall|t: int|
                    0 <= t < k ==> (#[trigger] cells@[t]).value == self.board@[t].value
                        && cells@[t].state == self.board@[t].state && cells@[t].possible_values@
                        == self.board@[t].possible_values@ && cells@[t].inv(),
        {
            let src = &self.board[k];
            let pv = copy_candidates(&src.possible_values);
            cells.push(GameCell { value: src.value, possible_values: pv, state: src.state });
        }
        GameBoard { board: cells }
    }

    /// Whether no unassigned cell remains.
    pub fn is_solved(&self) -> (r: bool)
        requires
            self.wf(),
        ensures
            r == forall|k: int| 0 <= k < 81 ==> (#[trigger] self.board@[k]).value != 0,
    {
        for k in 0..81usize
            invariant
                self.wf(),
                forall|t: int| 0 <= t < k ==> (#[trigger] self.board@[t]).value != 0,
        {
            if self.board[k].value == 0 {
                return false;
            }
        }
        true
    }

    /// Whether some unassigned cell has run out of candidates: the mark of a
    /// contradiction, fatal to this search branch.
    pub fn is_unsolvable(&self) -> (r: bool)
        requires
            self.wf(),
        ensures
            r == exists|k: int|
                0 <= k < 81 && (#[trigger] self.board@[k]).value == 0
                    && self.board@[k].possible_values@.len() == 0,
    {
        for k in 0..81usize
            invariant
                self.wf(),
                forall|t: int|
                    0 <= t < k ==> !((#[trigger] self.board@[t]).value == 0
                        && self.board@[t].possible_values@.len() == 0),
        {
            if self.board[k].value == 0 && self.board[k].possible_values.len() == 0 {
                return true;
            }
        }
        false
    }

    /// Declares the current assignment the initial puzzle, tagging every
    /// assigned cell accordingly.
    pub fn set_initial_cells(&mut self)
        requires
            old(self).wf(),
        ensures
            final(self).wf(),
            final(self).board@.len() == 81,
            forall|k: int|
                0 <= k < 81 ==> (#[trigger] final(self).board@[k]).value == old(self).board@[k].value
                    && final(self).board@[k].possible_values@
                    == old(self).board@[k].possible_values@ && final(self).board@[k].state == (
                if old(self).board@[k].value == 0 {
                    CellState::Unsolved
                } else {
                    CellState::Initial
                }),
    {
        let ghost entry = self.board@;
        for k in 0..81usize
            invariant
                self.wf(),
                self.board@.len() == 81,
                entry.len() == 81,
                forall|t: int|
                    0 <= t < k ==> (#[trigger] self.board@[t]).value == entry[t].value
                        && self.board@[t].possible_values@ == entry[t].possible_values@
                        && self.board@[t].state == (if entry[t].value == 0 {
                        CellState::Unsolved
                    } else {
                        CellState::Initial
                    }),
                forall|t: int| k <= t < 81 ==> #[trigger] self.board@[t] == entry[t],
        {
            self.board[k].set_initial();
        }
    }

    /// Demotes every newly solved cell to previously solved; run once per
    /// iteration of the solve loop so display adapters can tell the two
    /// apart.
    pub fn set_previously_solved_cells(&mut self)
        requires
            old(self).wf(),
        ensures
            final(self).wf(),
            final(self).board@.len() == 81,
            forall|k: int|
                0 <= k < 81 ==> (#[trigger] final(self).board@[k]).value == old(self).board@[k].value
                    && final(self).board@[k].possible_values@
                    == old(self).board@[k].possible_values@ && final(self).board@[k].state == (
                if old(self).board@[k].state == CellState::New {
                    CellState::Solved
                } else {
                    old(self).board@[k].state
                }),
    {
        let ghost entry = self.board@;
        for k in 0..81usize
            invariant
                self.wf(),
                self.board@.len() == 81,
                entry.len() == 81,
                forall|t: int|
                    0 <= t < k ==> (#[trigger] self.board@[t]).value == entry[t].value
                        && self.board@[t].possible_values@ == entry[t].possible_values@
                        && self.board@[t].state == (if entry[t].state == CellState::New {
                        CellState::Solved
                    } else {
                        entry[t].state
                    }),
                forall|t: int| k <= t < 81 ==> #[trigger] self.board@[t] == entry[t],
        {
            self.board[k].set_previously_solved();
        }
    }
}

/// An element-for-element copy of a candidate list.
pub(crate) fn copy_candidates(v: &Vec<usize>) -> (r: Vec<usize>)
    ensures
        r@ == v@,
{
    let mut r: Vec<usize> = Vec::new();
    let n = v.len();
    for i in 0..n
        invariant
            n == v@.len(),
            r@ == v@.take(i as int),
    {
        r.push(v[i]);
        proof {
            assert(r@ =~= v@.take(i + 1));
        }
    }
    proof {
        assert(v@.take(n as int) =~= v@);
    }
    r
}

} // verus!
