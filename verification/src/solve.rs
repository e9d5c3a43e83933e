//! The fixed-point driver and the recursive guess-and-backtrack search.

use vstd::prelude::*;
use crate::cell::{CellState, GameCell};
use crate::board::{
    board_wf, copy_candidates, count_unassigned, elim_rel, lemma_count_unassigned_mono,
    lemma_count_unassigned_nonneg, lemma_count_unassigned_strict, lemma_monotone_trans,
    monotone_rel, GameBoard, GroupKind,
};
use vstd::arithmetic::div_mod::lemma_fundamental_div_mod;
use crate::checker::valid_solution;
use crate::rules::dist_rel;

verus! {

/// Effect of one full propagation step: assigned cells are untouched, and
/// every open cell either keeps a (possibly shrunken) candidate list or is
/// newly assigned a digit with the newly-solved tag.
pub open spec fn step_rel(pre: Seq<GameCell>, post: Seq<GameCell>) -> bool {
    &&& pre.len() == 81
    &&& post.len() == 81
    &&& forall|k: int|
        0 <= k < 81 && (#[trigger] pre[k]).value != 0 ==> post[k].value == pre[k].value
            && post[k].state == pre[k].state
    &&& forall|k: int|
        0 <= k < 81 ==> (#[trigger] post[k]).possible_values@.len()
            <= pre[k].possible_values@.len()
    &&& forall|k: int, v: usize|
        0 <= k < 81 && (#[trigger] post[k].has_candidate(v)) ==> pre[k].has_candidate(v)
    &&& forall|k: int|
        0 <= k < 81 && pre[k].value == 0 && (#[trigger] post[k]).value != 0 ==> post[k].state
            == CellState::New && 1 <= post[k].value <= 9 && post[k].possible_values@.len() == 0
    &&& forall|k: int|
        0 <= k < 81 && pre[k].value == 0 && (#[trigger] post[k]).value == 0 ==> post[k].state
            == pre[k].state
    &&& forall|k: int|
        0 <= k < 81 && pre[k].value == 0 && (#[trigger] post[k]).value != 0
            ==> pre[k].has_candidate(post[k].value)
}

/// Effect of the finalizing pass: every cell narrowed to one candidate is
/// assigned it and tagged newly solved; every other cell is untouched.
pub open spec fn finalize_rel(pre: Seq<GameCell>, post: Seq<GameCell>) -> bool {
    &&& pre.len() == 81
    &&& post.len() == 81
    &&& forall|k: int|
        0 <= k < 81 && pre[k].possible_values@.len() == 1 ==> {
            &&& (#[trigger] post[k]).value == pre[k].possible_values@[0]
            &&& post[k].possible_values@.len() == 0
            &&& post[k].state == CellState::New
        }
    &&& forall|k: int|
        0 <= k < 81 && pre[k].possible_values@.len() != 1 ==> #[trigger] post[k] == pre[k]
}

impl GameBoard {
    /// One step of the fixed-point driver: every propagation rule, then the
    /// pass that assigns cells narrowed to a single candidate. Reports
    /// whether any cell was newly assigned; pruning alone does not count.
    pub fn hint(&mut self) -> (r: bool)
        requires
            old(self).wf(),
        ensures
            final(self).wf(),
            step_rel(old(self).board@, final(self).board@),
            r == exists|k: int|
                0 <= k < 81 && (#[trigger] old(self).board@[k]).value == 0 && final(self).board@[k].value != 0,
            exists|
                b1: Seq<GameCell>,
                b2: Seq<GameCell>,
                b3: Seq<GameCell>,
                c1: Seq<GameCell>,
                c2: Seq<GameCell>,
                b4: Seq<GameCell>,
                b5: Seq<GameCell>,
            |
                {
                    &&& #[trigger] elim_rel(old(self).board@, b1, GroupKind::Row)
                    &&& #[trigger] elim_rel(b1, b2, GroupKind::Col)
                    &&& #[trigger] elim_rel(b2, b3, GroupKind::Box)
                    &&& #[trigger] dist_rel(b3, c1, GroupKind::Row)
                    &&& #[trigger] dist_rel(c1, c2, GroupKind::Col)
                    &&& #[trigger] dist_rel(c2, b4, GroupKind::Box)
                    &&& #[trigger] monotone_rel(b4, b5)
                    &&& exists|trace: Seq<Seq<GameCell>>|
                        {
                            &&& #[trigger] crate::rules::seg_trace_ok(trace)
                            &&& trace[0] == b4
                            &&& trace[54] == b5
                        }
                    &&& finalize_rel(b5, final(self).board@)
                    &&& r == exists|k: int|
                        0 <= k < 81 && (#[trigger] b5[k]).possible_values@.len() == 1
                },
    {
        let ghost pre = self.board@;
        self.set_possible_values_by_row();
        let ghost b1 = self.board@;
        self.set_possible_values_by_col();
        let ghost b2 = self.board@;
        self.set_possible_values_by_square();
        let ghost b3 = self.board@;
        self.set_possible_values_by_distribution();
        let ghost b4 = self.board@;
        self.set_possible_values_by_short_segments();
        let ghost b5 = self.board@;
        proof {
            lemma_monotone_trans(pre, b1, b2);
            lemma_monotone_trans(pre, b2, b3);
            lemma_monotone_trans(pre, b3, b4);
            lemma_monotone_trans(pre, b4, b5);
        }
        let updated = self.set_values_from_possible();
        proof {
            let post = self.board@;
            assert forall|k: int, v: usize|
                0 <= k < 81 && (#[trigger] post[k].has_candidate(v)) implies pre[k].has_candidate(
                v,
            ) by {
                if b5[k].possible_values@.len() == 1 {
                    assert(post[k].possible_values@.len() == 0);
                } else {
                    assert(post[k] == b5[k]);
                    assert(b5[k].has_candidate(v));
                }
            }
            assert forall|k: int|
                0 <= k < 81 && (#[trigger] pre[k]).value != 0 implies post[k].value == pre[k].value
                    && post[k].state == pre[k].state by {
                assert(b5[k].value == pre[k].value);
                assert(b5[k].possible_values@.len() <= pre[k].possible_values@.len());
                assert(pre[k].inv());
                assert(post[k] == b5[k]);
            }
            assert forall|k: int|
                0 <= k < 81 && pre[k].value == 0 && (#[trigger] post[k]).value != 0 implies pre[
                k].has_candidate(post[k].value) by {
                assert(b5[k].possible_values@.len() == 1) by {
                    if b5[k].possible_values@.len() != 1 {
                        assert(post[k] == b5[k]);
                    }
                }
                assert(b5[k].possible_values@.contains(b5[k].possible_values@[0]));
                assert(b5[k].has_candidate(post[k].value));
            }
            if updated {
                let w = choose|t: int|
                    0 <= t < 81 && (#[trigger] b5[t]).possible_values@.len() == 1;
                assert(b5[w].value == 0 && pre[w].value == 0 && post[w].value != 0);
            }
            if exists|k: int|
                0 <= k < 81 && (#[trigger] pre[k]).value == 0 && post[k].value != 0 {
                let w = choose|k: int|
                    0 <= k < 81 && (#[trigger] pre[k]).value == 0 && post[k].value != 0;
                assert(b5[w].value == 0);
                assert(b5[w].possible_values@.len() == 1) by {
                    if b5[w].possible_values@.len() != 1 {
                        assert(post[w] == b5[w]);
                    }
                }
            }
            assert(monotone_rel(b4, b5));
            assert(finalize_rel(b5, post));
            let (c1, c2) = choose|c1: Seq<GameCell>, c2: Seq<GameCell>|
                {
                    &&& #[trigger] dist_rel(b3, c1, GroupKind::Row)
                    &&& #[trigger] dist_rel(c1, c2, GroupKind::Col)
                    &&& dist_rel(c2, b4, GroupKind::Box)
                };
            assert(elim_rel(pre, b1, GroupKind::Row) && elim_rel(b1, b2, GroupKind::Col)
                && elim_rel(b2, b3, GroupKind::Box) && dist_rel(b3, c1, GroupKind::Row)
                && dist_rel(c1, c2, GroupKind::Col) && dist_rel(c2, b4, GroupKind::Box)
                && monotone_rel(b4, b5) && (exists|trace: Seq<Seq<GameCell>>|
                {
                    &&& #[trigger] crate::rules::seg_trace_ok(trace)
                    &&& trace[0] == b4
                    &&& trace[54] == b5
                }) && finalize_rel(b5, post));
        }
        updated
    }

    /// The row and column of the first unassigned cell, in row-major order,
    /// whose candidate list is shortest over the whole board; `None` when
    /// every candidate list is empty.
    pub fn get_smallest_possible_gamecell_by_idx(&self) -> (r: Option<(usize, usize)>)
        requires
            self.wf(),
        ensures
            (r is None) <==> (forall|k: int|
                0 <= k < 81 ==> (#[trigger] self.board@[k]).possible_values@.len() == 0),
            r is Some ==> {
                let k0 = (r->0).0 * 9 + (r->0).1;
                &&& (r->0).0 < 9
                &&& (r->0).1 < 9
                &&& self.board@[k0 as int].possible_values@.len() >= 1
                &&& self.board@[k0 as int].value == 0
                &&& forall|k: int|
                    0 <= k < 81 && (#[trigger] self.board@[k]).possible_values@.len() != 0
                        ==> self.board@[k0 as int].possible_values@.len()
                        <= self.board@[k].possible_values@.len()
                &&& forall|k: int|
                    0 <= k < k0 ==> (#[trigger] self.board@[k]).possible_values@.len() == 0
                        || self.board@[k].possible_values@.len()
                        > self.board@[k0 as int].possible_values@.len()
            },
    {
        let mut smallest: usize = 0;
        for k in 0..81usize
            invariant
                self.wf(),
                smallest == 0 ==> forall|t: int|
                    0 <= t < k ==> (#[trigger] self.board@[t]).possible_values@.len() == 0,
                smallest != 0 ==> (exists|t: int|
                    0 <= t < k && (#[trigger] self.board@[t]).possible_values@.len()
                        == smallest) && forall|t: int|
                    0 <= t < k ==> (#[trigger] self.board@[t]).possible_values@.len() == 0
                        || self.board@[t].possible_values@.len() >= smallest,
        {
            if smallest != 0 {
                let tmp = self.board[k].possible_values.len();
                if tmp != 0 && tmp < smallest {
                    smallest = tmp;
                }
            } else {
                smallest = self.board[k].possible_values.len();
            }
        }
        if smallest == 0 {
            return None;
        }
        for k in 0..81usize
            invariant
                self.wf(),
                smallest != 0,
                exists|t: int|
                    0 <= t < 81 && (#[trigger] self.board@[t]).possible_values@.len() == smallest,
                forall|t: int|
                    0 <= t < 81 ==> (#[trigger] self.board@[t]).possible_values@.len() == 0
                        || self.board@[t].possible_values@.len() >= smallest,
                forall|t: int|
                    0 <= t < k ==> (#[trigger] self.board@[t]).possible_values@.len() != smallest,
        {
            if self.board[k].possible_values.len() == smallest {
                let i = k / 9;
                let j = k % 9;
                proof {
                    lemma_fundamental_div_mod(k as int, 9);
                    assert(self.board@[k as int].inv());
                }
                return Some((i, j));
            }
        }
        proof {
            assert(false);
        }
        None
    }

    /// The solve loop: propagates to a fixed point of assignments; when
    /// stalled without contradiction, picks the open cell with the fewest
    /// candidates and tries each of them, ascending, on a cloned board,
    /// committing the first guess whose branch solves. Success is reported
    /// exactly when the board ends as a valid complete solution.
    pub fn solve_loop(&mut self) -> (r: bool)
        requires
            old(self).wf(),
        ensures
            final(self).wf(),
            final(self).board@.len() == 81,
            forall|k: int|
                0 <= k < 81 && old(self).board@[k].value != 0 ==> (#[trigger] final(self).board@[k]).value == old(self).board@[k].value,
            forall|k: int|
                0 <= k < 81 && old(self).board@[k].value == 0 && (#[trigger] final(self).board@[k]).value != 0 ==> old(self).board@[k].has_candidate(final(self).board@[k].value),
            r == valid_solution(final(self).board@),
        decreases count_unassigned(old(self).board@),
    {
        let ghost entry = self.board@;
        loop
            invariant
                self.wf(),
                self.board@.len() == 81,
                entry.len() == 81,
                entry == old(self).board@,
                forall|k: int|
                    0 <= k < 81 && (#[trigger] entry[k]).value != 0 ==> self.board@[k].value
                        == entry[k].value,
                forall|k: int, v: usize|
                    0 <= k < 81 && (#[trigger] self.board@[k].has_candidate(v))
                        ==> entry[k].has_candidate(v),
                forall|k: int|
                    0 <= k < 81 && entry[k].value == 0 && (#[trigger] self.board@[k]).value != 0
                        ==> entry[k].has_candidate(self.board@[k].value),
                count_unassigned(self.board@) <= count_unassigned(entry),
            decreases count_unassigned(self.board@),
        {
            let ghost iter_start = self.board@;
            let mut updated = self.hint();
            let ghost after_hint = self.board@;
            proof {
                // values only move from unassigned to assigned
                assert forall|k: int|
                    0 <= k < 81 && (#[trigger] after_hint[k]).value == 0 implies iter_start[k].value
                    == 0 by {}
                lemma_count_unassigned_mono(iter_start, after_hint);
            }
            if !updated {
                let unsolvable = self.is_unsolvable();
                let solved = self.is_solved();
                if unsolvable || solved {
                    // propagation stalled for good: the board is either
                    // complete or contradictory
                    self.set_previously_solved_cells();
                    if solved {
                        return self.is_valid_solution();
                    }
                    proof {
                        let w = choose|k: int|
                            0 <= k < 81 && (#[trigger] after_hint[k]).value == 0
                                && after_hint[k].possible_values@.len() == 0;
                        assert(self.board@[w].value == 0);
                        assert(!valid_solution(self.board@));
                    }
                    return false;
                }
                // stalled, but neither complete nor contradictory: guess
                {
                    let target_opt = self.get_smallest_possible_gamecell_by_idx();
                    let (ti, tj) = match target_opt {
                        Some(t) => t,
                        None => {
                            proof {
                                let w = choose|k: int|
                                    0 <= k < 81 && (#[trigger] self.board@[k]).value == 0;
                                assert(self.board@[w].possible_values@.len() != 0);
                                assert(false);
                            }
                            (0, 0)
                        },
                    };
                    let k0 = ti * 9 + tj;
                    let ghost stalled = self.board@;
                    proof {
                        lemma_count_unassigned_mono(entry, stalled);
                    }
                    let cand = copy_candidates(&self.board[k0].possible_values);
                    let target_size = cand.len();
                    let mut found = false;
                    let mut gi: usize = 0;
                    while gi < target_size && !found
                        invariant
                            self.wf(),
                            self.board@.len() == 81,
                            entry.len() == 81,
                            entry == old(self).board@,
                            stalled.len() == 81,
                            board_wf(stalled),
                            k0 < 81,
                            stalled[k0 as int].value == 0,
                            cand@ == stalled[k0 as int].possible_values@,
                            target_size == cand@.len(),
                            gi <= target_size,
                            count_unassigned(stalled) <= count_unassigned(entry),
                            forall|k: int, v: usize|
                                0 <= k < 81 && (#[trigger] stalled[k].has_candidate(v))
                                    ==> entry[k].has_candidate(v),
                            forall|k: int|
                                0 <= k < 81 && entry[k].value == 0 && (#[trigger] stalled[k]).value
                                    != 0 ==> entry[k].has_candidate(stalled[k].value),
                            forall|k: int|
                                0 <= k < 81 && (#[trigger] entry[k]).value != 0
                                    ==> stalled[k].value == entry[k].value,
                            !found ==> self.board@ == stalled,
                            found ==> {
                                &&& count_unassigned(self.board@) < count_unassigned(stalled)
                                &&& forall|k: int|
                                    0 <= k < 81 && (#[trigger] stalled[k]).value != 0
                                        ==> self.board@[k].value == stalled[k].value
                                &&& forall|k: int|
                                    0 <= k < 81 && (#[trigger] self.board@[k]).value == 0
                                        ==> stalled[k].value == 0
                                &&& forall|k: int, v: usize|
                                    0 <= k < 81 && (#[trigger] self.board@[k].has_candidate(v))
                                        ==> stalled[k].has_candidate(v)
                                &&& forall|k: int|
                                    0 <= k < 81 && stalled[k].value == 0 && (
                                    #[trigger] self.board@[k]).value != 0 ==> stalled[k].has_candidate(
                                        self.board@[k].value,
                                    )
                            },
                        decreases target_size - gi,
                    {
                        let v = cand[gi];
                        proof {
                            assert(stalled[k0 as int].inv());
                        }
                        let mut branch = self.clone();
                        branch.board[k0].set_value(v);
                        branch.board[k0].set_guessed();
                        proof {
                            assert forall|k: int|
                                0 <= k < 81 && (#[trigger] branch.board@[k]).value == 0 implies
                                stalled[k].value == 0 by {}
                            lemma_count_unassigned_strict(stalled, branch.board@, k0 as int);
                            lemma_count_unassigned_nonneg(branch.board@);
                            assert(count_unassigned(branch.board@) < count_unassigned(
                                old(self).board@,
                            ));
                        }
                        if branch.solve_loop() {
                            self.board[k0].set_value(v);
                            self.board[k0].set_guessed();
                            found = true;
                            proof {
                                assert forall|k: int|
                                    0 <= k < 81 && (#[trigger] self.board@[k]).value == 0 implies
                                    stalled[k].value == 0 by {}
                                lemma_count_unassigned_strict(stalled, self.board@, k0 as int);
                                assert(cand@.contains(v)) by {
                                    assert(cand@[gi as int] == v);
                                }
                                assert(stalled[k0 as int].has_candidate(v));
                                assert forall|k: int, v2: usize|
                                    0 <= k < 81 && (#[trigger] self.board@[k].has_candidate(v2))
                                    implies stalled[k].has_candidate(v2) by {
                                    if k != k0 as int {
                                        assert(self.board@[k] == stalled[k]);
                                    }
                                }
                            }
                        }
                        gi += 1;
                    }
                    if !found {
                        proof {
                            let w = choose|k: int|
                                0 <= k < 81 && (#[trigger] self.board@[k]).value == 0;
                            assert(self.board@[w].value == 0);
                            assert(!valid_solution(self.board@));
                        }
                        return false;
                    }
                    updated = true;
                    proof {
                        assert(count_unassigned(self.board@) < count_unassigned(iter_start));
                        assert forall|k: int, v: usize|
                            0 <= k < 81 && (#[trigger] self.board@[k].has_candidate(v)) implies
                            after_hint[k].has_candidate(v) by {
                            assert(stalled[k].has_candidate(v));
                        }
                        assert forall|k: int|
                            0 <= k < 81 && after_hint[k].value == 0 && (
                            #[trigger] self.board@[k]).value != 0 implies after_hint[k].has_candidate(
                            self.board@[k].value,
                        ) by {
                            assert(stalled[k].has_candidate(self.board@[k].value));
                        }
                    }
                }
            }
            let ghost before_tags = self.board@;
            self.set_previously_solved_cells();
            if self.is_solved() {
                return self.is_valid_solution();
            }
            if self.is_unsolvable() {
                let ghost done = self.board@;
                proof {
                    let w = choose|k: int|
                        0 <= k < 81 && (#[trigger] done[k]).value == 0
                            && done[k].possible_values@.len() == 0;
                    assert(done[w].value == 0);
                    assert(!valid_solution(done));
                }
                return false;
            }
            proof {
                // some cell was newly assigned this iteration, so the
                // number of open cells strictly shrank
                assert(updated);
                lemma_count_unassigned_mono(before_tags, self.board@);
                lemma_count_unassigned_mono(self.board@, before_tags);
                if exists|k: int|
                    0 <= k < 81 && (#[trigger] iter_start[k]).value == 0 && after_hint[k].value
                        != 0 {
                    let w = choose|k: int|
                        0 <= k < 81 && (#[trigger] iter_start[k]).value == 0 && after_hint[k].value
                            != 0;
                    assert(before_tags[w].value != 0);
                    lemma_count_unassigned_strict(iter_start, before_tags, w);
                }
                lemma_count_unassigned_nonneg(self.board@);
                assert(count_unassigned(self.board@) < count_unassigned(iter_start));
                assert forall|k: int, v: usize|
                    0 <= k < 81 && (#[trigger] self.board@[k].has_candidate(v)) implies entry[
                k].has_candidate(v) by {
                    assert(before_tags[k].has_candidate(v));
                    assert(after_hint[k].has_candidate(v));
                    assert(iter_start[k].has_candidate(v));
                }
                assert forall|k: int|
                    0 <= k < 81 && entry[k].value == 0 && (#[trigger] self.board@[k]).value != 0
                    implies entry[k].has_candidate(self.board@[k].value) by {
                    let x = self.board@[k].value;
                    assert(before_tags[k].value == x);
                    if iter_start[k].value != 0 {
                        assert(iter_start[k].value == x);
                    } else if after_hint[k].value != 0 {
                        assert(after_hint[k].value == x);
                        assert(iter_start[k].has_candidate(x));
                    } else {
                        assert(after_hint[k].has_candidate(x));
                        assert(iter_start[k].has_candidate(x));
                    }
                }
            }
        }
    }

    /// Solves the board in place. Success means the final board is a valid
    /// complete solution: every row, column, and box a permutation of
    /// 1..=9; on failure the best-effort partial state is left for
    /// inspection.
    pub fn solve(&mut self) -> (r: bool)
        requires
            old(self).wf(),
        ensures
            final(self).wf(),
            final(self).board@.len() == 81,
            forall|k: int|
                0 <= k < 81 && old(self).board@[k].value != 0 ==> (#[trigger] final(self).board@[k]).value == old(self).board@[k].value,
            forall|k: int|
                0 <= k < 81 && old(self).board@[k].value == 0 && (#[trigger] final(self).board@[k]).value != 0 ==> old(self).board@[k].has_candidate(final(self).board@[k].value),
            r == valid_solution(final(self).board@),
    {
        self.solve_loop()
    }
}

} // verus!
