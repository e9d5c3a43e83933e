//! The propagation rules: row/column/box elimination, hidden singles by
//! distribution, box-line reduction on short segments, and the pass that
//! promotes single-candidate cells to assigned values.

use vstd::prelude::*;
use vstd::arithmetic::div_mod::{lemma_fundamental_div_mod, lemma_fundamental_div_mod_converse};
use crate::cell::{candidates_wf, CellState, GameCell};
use crate::board::{
    board_wf, elim_rel, group_has_value, group_of, lemma_candidate_in_range, lemma_group_index,
    lemma_group_of_inverse, lemma_monotone_trans, member_of, monotone_rel, spec_group_index,
    GameBoard, GroupKind,
};

verus! {

/// Exec mirror of `spec_group_index`: the linear index of member `m` of
/// group `g`.
pub fn group_index(kind: GroupKind, g: usize, m: usize) -> (k: usize)
    requires
        g < 9,
        m < 9,
    ensures
        k < 81,
        k as int == spec_group_index(kind, g as int, m as int),
        group_of(kind, k as int) == g as int,
        member_of(kind, k as int) == m as int,
{
    proof {
        lemma_group_index(kind, g as int, m as int);
    }
    match kind {
        GroupKind::Row => g * 9 + m,
        GroupKind::Col => m * 9 + g,
        GroupKind::Box => (3 * (g / 3) + m / 3) * 9 + 3 * (g % 3) + m % 3,
    }
}

impl GameBoard {
    /// Removes `v` from the candidate lists of every cell of group `g` of
    /// the given kind.
    fn remove_value_from_group(&mut self, kind: GroupKind, g: usize, v: usize)
        requires
            old(self).wf(),
            g < 9,
        ensures
            final(self).wf(),
            final(self).board@.len() == 81,
            forall|k: int|
                0 <= k < 81 && group_of(kind, k) != g ==> final(self).board@[k] == old(self).board@[k],
            forall|k: int|
                0 <= k < 81 ==> (#[trigger] final(self).board@[k]).value == old(self).board@[k].value
                    && final(self).board@[k].state == old(self).board@[k].state
                    && final(self).board@[k].possible_values@.len()
                    <= old(self).board@[k].possible_values@.len(),
            forall|k: int, v2: usize|
                0 <= k < 81 ==> ((#[trigger] final(self).board@[k].has_candidate(v2))
                    <==> old(self).board@[k].has_candidate(v2) && !(group_of(kind, k) == g && v2
                    == v)),
    {
        let ghost entry = self.board@;
        for m in 0..9usize
            invariant
                self.wf(),
                self.board@.len() == 81,
                entry.len() == 81,
                g < 9,
                forall|k: int|
                    0 <= k < 81 && !(group_of(kind, k) == g && member_of(kind, k) < m)
                        ==> #[trigger] self.board@[k] == entry[k],
                forall|k: int|
                    0 <= k < 81 ==> (#[trigger] self.board@[k]).value == entry[k].value
                        && self.board@[k].state == entry[k].state
                        && self.board@[k].possible_values@.len()
                        <= entry[k].possible_values@.len(),
                forall|k: int, v2: usize|
                    0 <= k < 81 ==> ((#[trigger] self.board@[k].has_candidate(v2))
                        <==> entry[k].has_candidate(v2) && !(group_of(kind, k) == g && member_of(
                        kind,
                        k,
                    ) < m && v2 == v)),
        {
            let k = group_index(kind, g, m);
            let ghost before = self.board@;
            self.board[k].remove_possible_cell_value(v);
            proof {
                assert forall|k2: int| 0 <= k2 < 81 && group_of(kind, k2) == g && member_of(
                    kind,
                    k2,
                ) == m as int implies k2 == k as int by {
                    lemma_group_of_inverse(kind, k2);
                }
                assert forall|k2: int, v2: usize| 0 <= k2 < 81 implies ((#[trigger] self.board@[k2].has_candidate(v2)) <==> entry[k2].has_candidate(v2) && !(group_of(kind, k2) == g
                    && member_of(kind, k2) < m + 1 && v2 == v)) by {
                    if k2 == k as int {
                        assert(self.board@[k2].has_candidate(v2) <==> before[k2].has_candidate(v2)
                            && v2 != v);
                    } else {
                        assert(self.board@[k2] == before[k2]);
                    }
                }
            }
        }
        proof {
            assert forall|k: int| 0 <= k < 81 && group_of(kind, k) != g implies self.board@[k]
                == entry[k] by {}
        }
    }

    /// One elimination pass: for every assigned cell, removes its value
    /// from the candidate lists of its whole group of the given kind.
    fn eliminate_pass(&mut self, kind: GroupKind)
        requires
            old(self).wf(),
        ensures
            final(self).wf(),
            elim_rel(old(self).board@, final(self).board@, kind),
    {
        let ghost pre = self.board@;
        for g in 0..9usize
            invariant
                self.wf(),
                self.board@.len() == 81,
                pre.len() == 81,
                board_wf(pre),
                forall|k: int|
                    0 <= k < 81 ==> (#[trigger] self.board@[k]).value == pre[k].value
                        && self.board@[k].state == pre[k].state
                        && self.board@[k].possible_values@.len() <= pre[k].possible_values@.len(),
                forall|k: int, v: usize|
                    0 <= k < 81 ==> ((#[trigger] self.board@[k].has_candidate(v))
                        <==> pre[k].has_candidate(v) && !(group_of(kind, k) < g
                        && group_has_value(pre, kind, k, v))),
        {
            for j in 0..9usize
                invariant
                    self.wf(),
                    self.board@.len() == 81,
                    pre.len() == 81,
                    board_wf(pre),
                    g < 9,
                    forall|k: int|
                        0 <= k < 81 ==> (#[trigger] self.board@[k]).value == pre[k].value
                            && self.board@[k].state == pre[k].state
                            && self.board@[k].possible_values@.len()
                            <= pre[k].possible_values@.len(),
                    forall|k: int, v: usize|
                        0 <= k < 81 ==> ((#[trigger] self.board@[k].has_candidate(v))
                            <==> pre[k].has_candidate(v) && !(group_of(kind, k) < g
                            && group_has_value(pre, kind, k, v)) && !(group_of(kind, k) == g
                            && exists|m2: int|
                            0 <= m2 < j && (#[trigger] pre[spec_group_index(
                                kind,
                                g as int,
                                m2,
                            )]).value == v)),
            {
                let k = group_index(kind, g, j);
                let val = self.board[k].value;
                let ghost before = self.board@;
                if val != 0 {
                    self.remove_value_from_group(kind, g, val);
                }
                proof {
                    assert(val == pre[k as int].value);
                    assert forall|k2: int, v: usize| 0 <= k2 < 81 implies ((#[trigger] self.board@[k2].has_candidate(v)) <==> pre[k2].has_candidate(v) && !(group_of(kind, k2) < g
                        && group_has_value(pre, kind, k2, v)) && !(group_of(kind, k2) == g
                        && exists|m2: int|
                        0 <= m2 < j + 1 && (#[trigger] pre[spec_group_index(
                            kind,
                            g as int,
                            m2,
                        )]).value == v)) by {
                        let new_has = self.board@[k2].has_candidate(v);
                        if val != 0 {
                            assert(new_has <==> before[k2].has_candidate(v) && !(group_of(kind, k2)
                                == g && v == val));
                        } else {
                            assert(self.board@[k2] == before[k2]);
                        }
                        // the member processed this iteration contributes its
                        // value, and only that, to the exclusion set
                        if group_of(kind, k2) == g {
                            assert(pre[spec_group_index(kind, g as int, j as int)].value == val);
                            if v != 0 && new_has {
                                assert(pre[k2].has_candidate(v));
                            }
                            if exists|m2: int|
                                0 <= m2 < j + 1 && (#[trigger] pre[spec_group_index(
                                    kind,
                                    g as int,
                                    m2,
                                )]).value == v {
                                let m2 = choose|m2: int|
                                    0 <= m2 < j + 1 && (#[trigger] pre[spec_group_index(
                                        kind,
                                        g as int,
                                        m2,
                                    )]).value == v;
                                if m2 == j as int {
                                    assert(v == val);
                                }
                            }
                            if v == 0 {
                                // zero is never a candidate of a well-formed cell
                                assert(!pre[k2].has_candidate(0)) by {
                                    if pre[k2].has_candidate(0) {
                                        let t = choose|t: int|
                                            0 <= t < pre[k2].possible_values@.len()
                                                && pre[k2].possible_values@[t] == 0;
                                        assert(pre[k2].inv());
                                    }
                                }
                                assert(!self.board@[k2].has_candidate(0)) by {
                                    if self.board@[k2].has_candidate(0) {
                                        let t = choose|t: int|
                                            0 <= t < self.board@[k2].possible_values@.len()
                                                && self.board@[k2].possible_values@[t] == 0;
                                        assert(self.board@[k2].inv());
                                    }
                                }
                            }
                        }
                    }
                }
            }
            proof {
                // a full sweep of group g covers exactly `group_has_value`
                assert forall|k: int, v: usize| 0 <= k < 81 && group_of(kind, k) == g implies ((
                exists|m2: int|
                    0 <= m2 < 9 && (#[trigger] pre[spec_group_index(kind, g as int, m2)]).value
                        == v) <==> group_has_value(pre, kind, k, v)) by {}
            }
        }
    }

    /// Prunes one candidate from one cell, leaving every other cell alone.
    fn prune_cell(&mut self, k: usize, v: usize)
        requires
            old(self).wf(),
            k < 81,
        ensures
            final(self).wf(),
            monotone_rel(old(self).board@, final(self).board@),
            forall|t: int| 0 <= t < 81 && t != k ==> final(self).board@[t] == old(self).board@[t],
            forall|v2: usize|
                (#[trigger] final(self).board@[k as int].has_candidate(v2)) <==> old(self).board@[k as int].has_candidate(v2) && v2 != v,
    {
        self.board[k].remove_possible_cell_value(v);
        proof {
            assert forall|t: int, v2: usize|
                0 <= t < 81 && (#[trigger] self.board@[t].has_candidate(v2)) implies old(self).board@[t].has_candidate(v2) by {
                if t != k as int {
                    assert(self.board@[t] == old(self).board@[t]);
                }
            }
        }
    }

    /// Restricts one cell to a single candidate, leaving every other cell
    /// alone.
    fn restrict_cell(&mut self, k: usize, v: usize)
        requires
            old(self).wf(),
            k < 81,
        ensures
            final(self).wf(),
            monotone_rel(old(self).board@, final(self).board@),
            forall|t: int| 0 <= t < 81 && t != k ==> final(self).board@[t] == old(self).board@[t],
            forall|v2: usize|
                (#[trigger] final(self).board@[k as int].has_candidate(v2)) <==> old(self).board@[k as int].has_candidate(v2) && v2 == v,
    {
        self.board[k].keep_only_possible_cell_value(v);
        proof {
            assert forall|t: int, v2: usize|
                0 <= t < 81 && (#[trigger] self.board@[t].has_candidate(v2)) implies old(self).board@[t].has_candidate(v2) by {
                if t != k as int {
                    assert(self.board@[t] == old(self).board@[t]);
                }
            }
        }
    }

    /// Visits one 3-cell segment of a line (a row for `GroupKind::Row`, a
    /// column for `GroupKind::Col`): computes its domain and, when it has
    /// exactly three members, removes them from every target cell.
    fn apply_segment(&mut self, kind: GroupKind, i: usize, s: usize)
        requires
            old(self).wf(),
            i < 9,
            s < 3,
            kind == GroupKind::Row || kind == GroupKind::Col,
        ensures
            final(self).wf(),
            monotone_rel(old(self).board@, final(self).board@),
            seg_step(old(self).board@, final(self).board@, kind, i as int, s as int),
    {
        let ghost a = self.board@;
        let ghost ii = i as int;
        let ghost ss = s as int;
        let a0 = group_index(kind, i, 3 * s);
        let a1 = group_index(kind, i, 3 * s + 1);
        let a2 = group_index(kind, i, 3 * s + 2);
        let segment = get_domain(&self.board[a0], &self.board[a1], &self.board[a2]);
        proof {
            assert forall|v: usize|
                segment@.contains(v) <==> seg_domain_has(a, kind, ii, ss, v) by {}
        }
        if segment.len() == 3 {
            let d0 = segment[0];
            let d1 = segment[1];
            let d2 = segment[2];
            proof {
                assert(seg_fires(a, kind, ii, ss, d0, d1, d2)) by {
                    assert forall|v: usize|
                        seg_domain_has(a, kind, ii, ss, v) <==> (v == d0 || v == d1 || v
                            == d2) by {
                        if seg_domain_has(a, kind, ii, ss, v) {
                            assert(segment@.contains(v));
                            let t = choose|t: int| 0 <= t < segment@.len() && segment@[t] == v;
                            assert(t == 0 || t == 1 || t == 2);
                        }
                        if v == d0 || v == d1 || v == d2 {
                            assert(segment@.contains(v));
                        }
                    }
                }
            }
            for di in 0..3usize
                invariant
                    self.wf(),
                    self.board@.len() == 81,
                    a.len() == 81,
                    board_wf(a),
                    i < 9,
                    s < 3,
                    ii == i as int,
                    ss == s as int,
                    kind == GroupKind::Row || kind == GroupKind::Col,
                    segment@.len() == 3,
                    d0 == segment@[0] && d1 == segment@[1] && d2 == segment@[2],
                    monotone_rel(a, self.board@),
                    forall|k: int|
                        0 <= k < 81 && !is_seg_target(kind, ii, ss, k)
                            ==> #[trigger] self.board@[k] == a[k],
                    forall|k: int, v: usize|
                        0 <= k < 81 ==> ((#[trigger] self.board@[k].has_candidate(v))
                            <==> a[k].has_candidate(v) && !(is_seg_target(kind, ii, ss, k)
                            && exists|t: int| 0 <= t < di && #[trigger] segment@[t] == v)),
            {
                let val = segment[di];
                // the rest of the segment's own line
                for c in 0..9usize
                    invariant
                        self.wf(),
                        self.board@.len() == 81,
                        a.len() == 81,
                        board_wf(a),
                        i < 9,
                        s < 3,
                        ii == i as int,
                        ss == s as int,
                        kind == GroupKind::Row || kind == GroupKind::Col,
                        segment@.len() == 3,
                        di < 3,
                        val == segment@[di as int],
                        monotone_rel(a, self.board@),
                        forall|k: int|
                            0 <= k < 81 && !is_seg_target(kind, ii, ss, k)
                                ==> #[trigger] self.board@[k] == a[k],
                        forall|k: int, v: usize|
                            0 <= k < 81 ==> ((#[trigger] self.board@[k].has_candidate(v))
                                <==> a[k].has_candidate(v) && !(is_seg_target(kind, ii, ss, k)
                                && exists|t: int| 0 <= t < di && #[trigger] segment@[t] == v)
                                && !(is_line_target(kind, ii, ss, k) && member_of(kind, k)
                                < c && v == val)),
                {
                    if c < 3 * s || c >= 3 * s + 3 {
                        let k = group_index(kind, i, c);
                        let ghost cur = self.board@;
                        self.prune_cell(k, val);
                        proof {
                            lemma_monotone_trans(a, cur, self.board@);
                            assert forall|k2: int|
                                0 <= k2 < 81 && group_of(kind, k2) == ii && member_of(kind, k2)
                                    == c as int implies k2 == k as int by {
                                lemma_group_of_inverse(kind, k2);
                            }
                            assert forall|k2: int, v: usize| 0 <= k2 < 81 implies ((
                            #[trigger] self.board@[k2].has_candidate(v)) <==> a[k2].has_candidate(
                                v,
                            ) && !(is_seg_target(kind, ii, ss, k2) && exists|t: int|
                                0 <= t < di && #[trigger] segment@[t] == v) && !(is_line_target(
                                kind,
                                ii,
                                ss,
                                k2,
                            ) && member_of(kind, k2) < c + 1 && v == val)) by {
                                if k2 != k as int {
                                    assert(self.board@[k2] == cur[k2]);
                                }
                            }
                        }
                    } else {
                        proof {
                            // cells of the segment itself are not line targets
                            assert forall|k2: int|
                                0 <= k2 < 81 && is_line_target(kind, ii, ss, k2) implies member_of(
                                kind,
                                k2,
                            ) != c as int by {}
                        }
                    }
                }
                // the two parallel segments of the same box
                for t in 0..9usize
                    invariant
                        self.wf(),
                        self.board@.len() == 81,
                        a.len() == 81,
                        board_wf(a),
                        i < 9,
                        s < 3,
                        ii == i as int,
                        ss == s as int,
                        kind == GroupKind::Row || kind == GroupKind::Col,
                        segment@.len() == 3,
                        di < 3,
                        val == segment@[di as int],
                        monotone_rel(a, self.board@),
                        forall|k: int|
                            0 <= k < 81 && !is_seg_target(kind, ii, ss, k)
                                ==> #[trigger] self.board@[k] == a[k],
                        forall|k: int, v: usize|
                            0 <= k < 81 ==> ((#[trigger] self.board@[k].has_candidate(v))
                                <==> a[k].has_candidate(v) && !(is_seg_target(kind, ii, ss, k)
                                && exists|t2: int| 0 <= t2 < di && #[trigger] segment@[t2] == v)
                                && !(is_line_target(kind, ii, ss, k) && v == val) && !(
                            is_par_target(kind, ii, ss, k) && seg_pslot(kind, ii, ss, k) < t && v
                                == val)),
                {
                    let r = (i / 3) * 3 + t / 3;
                    if r != i {
                        let k = group_index(kind, r, 3 * s + t % 3);
                        let ghost cur = self.board@;
                        proof {
                            lemma_fundamental_div_mod(t as int, 3);
                            lemma_fundamental_div_mod_converse(
                                r as int,
                                3,
                                ii / 3,
                                (t as int) / 3,
                            );
                            assert(is_par_target(kind, ii, ss, k as int));
                            assert(seg_pslot(kind, ii, ss, k as int) == t as int);
                        }
                        self.prune_cell(k, val);
                        proof {
                            lemma_monotone_trans(a, cur, self.board@);
                            assert forall|k2: int|
                                0 <= k2 < 81 && is_par_target(kind, ii, ss, k2) && seg_pslot(
                                    kind,
                                    ii,
                                    ss,
                                    k2,
                                ) == t as int implies k2 == k as int by {
                                lemma_group_of_inverse(kind, k2);
                                let g2 = group_of(kind, k2);
                                let m2 = member_of(kind, k2);
                                assert(3 * (ii / 3) <= g2 < 3 * (ii / 3) + 3) by {
                                    lemma_fundamental_div_mod(g2, 3);
                                    lemma_fundamental_div_mod(ii, 3);
                                }
                                assert(g2 == r as int && m2 == 3 * ss + (t as int) % 3) by {
                                    lemma_fundamental_div_mod_converse(
                                        t as int,
                                        3,
                                        g2 - 3 * (ii / 3),
                                        m2 - 3 * ss,
                                    );
                                }
                            }
                            assert forall|k2: int, v: usize| 0 <= k2 < 81 implies ((
                            #[trigger] self.board@[k2].has_candidate(v)) <==> a[k2].has_candidate(
                                v,
                            ) && !(is_seg_target(kind, ii, ss, k2) && exists|t2: int|
                                0 <= t2 < di && #[trigger] segment@[t2] == v) && !(is_line_target(
                                kind,
                                ii,
                                ss,
                                k2,
                            ) && v == val) && !(is_par_target(kind, ii, ss, k2) && seg_pslot(
                                kind,
                                ii,
                                ss,
                                k2,
                            ) < t + 1 && v == val)) by {
                                if k2 != k as int {
                                    assert(self.board@[k2] == cur[k2]);
                                }
                            }
                        }
                    } else {
                        proof {
                            // the segment's own line contributes no parallel target
                            assert forall|k2: int|
                                0 <= k2 < 81 && is_par_target(kind, ii, ss, k2) implies seg_pslot(
                                kind,
                                ii,
                                ss,
                                k2,
                            ) != t as int by {
                                let g2 = group_of(kind, k2);
                                let m2 = member_of(kind, k2);
                                lemma_group_of_inverse(kind, k2);
                                assert(3 * (ii / 3) <= g2 < 3 * (ii / 3) + 3) by {
                                    lemma_fundamental_div_mod(g2, 3);
                                    lemma_fundamental_div_mod(ii, 3);
                                }
                                if seg_pslot(kind, ii, ss, k2) == t as int {
                                    assert(g2 == r as int) by {
                                        lemma_fundamental_div_mod_converse(
                                            t as int,
                                            3,
                                            g2 - 3 * (ii / 3),
                                            m2 - 3 * ss,
                                        );
                                    }
                                }
                            }
                        }
                    }
                }
                proof {
                    // every target of this value is now pruned of it
                    assert forall|k: int, v: usize| 0 <= k < 81 implies ((
                    #[trigger] self.board@[k].has_candidate(v)) <==> a[k].has_candidate(v) && !(
                    is_seg_target(kind, ii, ss, k) && exists|t: int|
                        0 <= t < di + 1 && #[trigger] segment@[t] == v)) by {
                        if exists|t: int| 0 <= t < di + 1 && #[trigger] segment@[t] == v {
                            let t = choose|t: int| 0 <= t < di + 1 && #[trigger] segment@[t] == v;
                        }
                    }
                }
            }
            proof {
                assert(seg_step(a, self.board@, kind, ii, ss)) by {
                    assert forall|k: int, v: usize| 0 <= k < 81 implies ((
                    #[trigger] self.board@[k].has_candidate(v)) <==> a[k].has_candidate(v) && !(
                    is_seg_target(kind, ii, ss, k) && (v == d0 || v == d1 || v == d2))) by {
                        if v == d0 {
                            assert(segment@[0] == v);
                        }
                        if v == d1 {
                            assert(segment@[1] == v);
                        }
                        if v == d2 {
                            assert(segment@[2] == v);
                        }
                    }
                }
            }
        } else {
            proof {
                assert forall|e0: usize, e1: usize, e2: usize|
                    !seg_fires(a, kind, ii, ss, e0, e1, e2) by {
                    if seg_fires(a, kind, ii, ss, e0, e1, e2) {
                        let triple = seq![e0, e1, e2];
                        assert(candidates_wf(triple)) by {
                            assert(seg_domain_has(a, kind, ii, ss, e0));
                            assert(seg_domain_has(a, kind, ii, ss, e2));
                            assert(segment@.contains(e0));
                            assert(segment@.contains(e2));
                            assert(triple[0] == e0 && triple[1] == e1 && triple[2] == e2);
                        }
                        assert forall|x: usize|
                            segment@.contains(x) <==> triple.contains(x) by {
                            if triple.contains(x) {
                                let t = choose|t: int| 0 <= t < 3 && triple[t] == x;
                            }
                        }
                        crate::laws::lemma_sorted_unique_equal(segment@, triple);
                        assert(false);
                    }
                }
            }
        }
    }

    /// Hidden singles over one group kind: if a digit has exactly one home
    /// left within a group, that cell is restricted to it.
    fn distribute_kind(&mut self, kind: GroupKind)
        requires
            old(self).wf(),
        ensures
            final(self).wf(),
            dist_rel(old(self).board@, final(self).board@, kind),
    {
        let ghost pre = self.board@;
        for g in 0..9usize
            invariant
                self.wf(),
                self.board@.len() == 81,
                pre.len() == 81,
                board_wf(pre),
                monotone_rel(pre, self.board@),
                forall|k: int|
                    0 <= k < 81 && group_of(kind, k) >= g ==> (#[trigger] self.board@[k])
                        == pre[k],
                forall|k: int|
                    0 <= k < 81 && group_of(kind, k) < g && pre[k].value == 0 && (exists|d: usize|
                        hidden_single_at(pre, kind, k, d)) ==> (
                    #[trigger] self.board@[k]).possible_values@.len() == 1,
                forall|k: int|
                    0 <= k < 81 && (#[trigger] self.board@[k]).possible_values@
                        != pre[k].possible_values@ ==> self.board@[k].possible_values@.len() == 1
                        && hidden_single_at(pre, kind, k, self.board@[k].possible_values@[0]),
        {
            let mut distribution_vector: Vec<usize> = vec![0, 0, 0, 0, 0, 0, 0, 0, 0];
            for m in 0..9usize
                invariant
                    self.wf(),
                    self.board@.len() == 81,
                    pre.len() == 81,
                    board_wf(pre),
                    g < 9,
                    monotone_rel(pre, self.board@),
                    forall|k: int|
                        0 <= k < 81 && group_of(kind, k) >= g ==> (#[trigger] self.board@[k])
                            == pre[k],
                    forall|k: int|
                        0 <= k < 81 && group_of(kind, k) < g && pre[k].value == 0 && (exists|
                            d: usize,
                        |
                            hidden_single_at(pre, kind, k, d)) ==> (
                        #[trigger] self.board@[k]).possible_values@.len() == 1,
                    forall|k: int|
                        0 <= k < 81 && (#[trigger] self.board@[k]).possible_values@
                            != pre[k].possible_values@ ==> self.board@[k].possible_values@.len()
                            == 1 && hidden_single_at(pre, kind, k, self.board@[k].possible_values@[0]),
                    distribution_vector@.len() == 9,
                    forall|d: int|
                        0 <= d < 9 ==> #[trigger] distribution_vector@[d] == digit_homes(
                            pre,
                            kind,
                            g as int,
                            (d + 1) as usize,
                            m as int,
                        ),
            {
                let k = group_index(kind, g, m);
                proof {
                    assert(self.board@[k as int] == pre[k as int]);
                    assert(pre[k as int].inv());
                }
                if self.board[k].value == 0 {
                    let ghost inds = pre[k as int].possible_values@;
                    proof {
                        assert forall|d: int| 0 <= d < 9 implies #[trigger] distribution_vector@[d]
                            + inds.len() <= usize::MAX by {
                            lemma_digit_homes_bounds(pre, kind, g as int, (d + 1) as usize, m as int);
                        }
                    }
                    increment_values_by_index(
                        &mut distribution_vector,
                        &self.board[k].possible_values,
                    );
                    proof {
                        assert forall|d: int| 0 <= d < 9 implies #[trigger] distribution_vector@[d]
                            == digit_homes(pre, kind, g as int, (d + 1) as usize, m + 1) by {
                            lemma_count_matches_unique(inds, (d + 1) as usize);
                        }
                    }
                } else {
                    proof {
                        assert forall|d: int| 0 <= d < 9 implies #[trigger] distribution_vector@[d]
                            == digit_homes(pre, kind, g as int, (d + 1) as usize, m + 1) by {}
                    }
                }
            }
            for d in 1..10usize
                invariant
                    self.wf(),
                    self.board@.len() == 81,
                    pre.len() == 81,
                    board_wf(pre),
                    g < 9,
                    monotone_rel(pre, self.board@),
                    forall|k: int|
                        0 <= k < 81 && group_of(kind, k) > g ==> (#[trigger] self.board@[k])
                            == pre[k],
                    forall|k: int|
                        0 <= k < 81 && group_of(kind, k) < g && pre[k].value == 0 && (exists|
                            d2: usize,
                        |
                            hidden_single_at(pre, kind, k, d2)) ==> (
                        #[trigger] self.board@[k]).possible_values@.len() == 1,
                    forall|k: int|
                        0 <= k < 81 && group_of(kind, k) == g && pre[k].value == 0 && (exists|
                            d2: usize,
                        |
                            d2 < d && hidden_single_at(pre, kind, k, d2)) ==> (
                        #[trigger] self.board@[k]).possible_values@.len() == 1,
                    forall|k: int|
                        0 <= k < 81 && (#[trigger] self.board@[k]).possible_values@
                            != pre[k].possible_values@ ==> self.board@[k].possible_values@.len()
                            == 1 && hidden_single_at(pre, kind, k, self.board@[k].possible_values@[0]),
                    distribution_vector@.len() == 9,
                    forall|d2: int|
                        0 <= d2 < 9 ==> #[trigger] distribution_vector@[d2] == digit_homes(
                            pre,
                            kind,
                            g as int,
                            (d2 + 1) as usize,
                            9,
                        ),
            {
                if distribution_vector[d - 1] == 1 {
                    for m in 0..9usize
                        invariant
                            self.wf(),
                            self.board@.len() == 81,
                            pre.len() == 81,
                            board_wf(pre),
                            g < 9,
                            1 <= d <= 9,
                            digit_homes(pre, kind, g as int, d as usize, 9) == 1,
                            monotone_rel(pre, self.board@),
                            forall|k: int|
                                0 <= k < 81 && group_of(kind, k) > g ==> (
                                #[trigger] self.board@[k]) == pre[k],
                            forall|k: int|
                                0 <= k < 81 && group_of(kind, k) < g && pre[k].value == 0 && (
                                exists|d2: usize| hidden_single_at(pre, kind, k, d2)) ==> (
                                #[trigger] self.board@[k]).possible_values@.len() == 1,
                            forall|k: int|
                                0 <= k < 81 && group_of(kind, k) == g && pre[k].value == 0 && (
                                exists|d2: usize|
                                    d2 < d && hidden_single_at(pre, kind, k, d2)) ==> (
                                #[trigger] self.board@[k]).possible_values@.len() == 1,
                            forall|k: int|
                                0 <= k < 81 && group_of(kind, k) == g && member_of(kind, k) < m
                                    && pre[k].value == 0 && pre[k].has_candidate(d) ==> (
                                #[trigger] self.board@[k]).possible_values@.len() == 1,
                            forall|k: int|
                                0 <= k < 81 && (#[trigger] self.board@[k]).possible_values@
                                    != pre[k].possible_values@
                                    ==> self.board@[k].possible_values@.len() == 1
                                    && hidden_single_at(
                                    pre,
                                    kind,
                                    k,
                                    self.board@[k].possible_values@[0],
                                ),
                    {
                        let k = group_index(kind, g, m);
                        let ghost cur = self.board@;
                        if vec_contains(&self.board[k].possible_values, d) {
                            self.restrict_cell(k, d);
                            proof {
                                lemma_monotone_trans(pre, cur, self.board@);
                                assert forall|x: usize|
                                    self.board@[k as int].possible_values@.contains(x) <==> x
                                        == d by {
                                    assert(self.board@[k as int].has_candidate(x) <==> cur[
                                        k as int].has_candidate(x) && x == d);
                                }
                                lemma_singleton_candidates(
                                    self.board@[k as int].possible_values@,
                                    d,
                                );
                                assert(pre[k as int].has_candidate(d));
                                assert(hidden_single_at(pre, kind, k as int, d));
                            }
                        } else {
                            proof {
                                if pre[k as int].value == 0 && pre[k as int].has_candidate(d) {
                                    assert(self.board@[k as int].possible_values@
                                        != pre[k as int].possible_values@) by {
                                        assert(!self.board@[k as int].has_candidate(d));
                                    }
                                }
                            }
                        }
                    }
                    proof {
                        assert forall|k: int|
                            0 <= k < 81 && group_of(kind, k) == g && pre[k].value == 0 && (exists|
                                d2: usize,
                            |
                                d2 < d + 1 && hidden_single_at(pre, kind, k, d2)) implies (
                        #[trigger] self.board@[k]).possible_values@.len() == 1 by {
                            let d2 = choose|d2: usize|
                                d2 < d + 1 && hidden_single_at(pre, kind, k, d2);
                            lemma_group_of_inverse(kind, k);
                        }
                    }
                } else {
                    proof {
                        // this digit has no unique home in this group
                        assert forall|k: int|
                            0 <= k < 81 && group_of(kind, k) == g && pre[k].value == 0 && (exists|
                                d2: usize,
                            |
                                d2 < d + 1 && hidden_single_at(pre, kind, k, d2)) implies (
                        #[trigger] self.board@[k]).possible_values@.len() == 1 by {
                            let d2 = choose|d2: usize|
                                d2 < d + 1 && hidden_single_at(pre, kind, k, d2);
                            assert(d2 != d);
                        }
                    }
                }
            }
            proof {
                assert forall|k: int|
                    0 <= k < 81 && group_of(kind, k) < g + 1 && pre[k].value == 0 && (exists|
                        d: usize,
                    |
                        hidden_single_at(pre, kind, k, d)) implies (
                #[trigger] self.board@[k]).possible_values@.len() == 1 by {
                    if group_of(kind, k) == g {
                        let d = choose|d: usize| hidden_single_at(pre, kind, k, d);
                        assert(d < 10 && hidden_single_at(pre, kind, k, d));
                    }
                }
            }
        }
        proof {
            assert forall|k: int| 0 <= k < 81 implies group_of(kind, k) < 9 by {
                lemma_group_of_inverse(kind, k);
            }
        }
    }

    /// Checks rows, columns, and boxes for digits whose only remaining home
    /// is a single cell, and restricts that cell accordingly.
    pub fn set_possible_values_by_distribution(&mut self)
        requires
            old(self).wf(),
        ensures
            final(self).wf(),
            monotone_rel(old(self).board@, final(self).board@),
            exists|b1: Seq<GameCell>, b2: Seq<GameCell>|
                {
                    &&& #[trigger] dist_rel(old(self).board@, b1, GroupKind::Row)
                    &&& #[trigger] dist_rel(b1, b2, GroupKind::Col)
                    &&& dist_rel(b2, final(self).board@, GroupKind::Box)
                },
    {
        let ghost pre = self.board@;
        self.distribute_kind(GroupKind::Row);
        let ghost mid1 = self.board@;
        self.distribute_kind(GroupKind::Col);
        let ghost mid2 = self.board@;
        self.distribute_kind(GroupKind::Box);
        proof {
            lemma_monotone_trans(pre, mid1, mid2);
            lemma_monotone_trans(pre, mid2, self.board@);
            assert(dist_rel(pre, mid1, GroupKind::Row) && dist_rel(mid1, mid2, GroupKind::Col)
                && dist_rel(mid2, self.board@, GroupKind::Box));
        }
    }

    /// Box-line reduction: when the distinct values of a 3-cell segment of
    /// a box number exactly three, those values are confined to that
    /// segment, so they are removed from the rest of its line and from the
    /// two parallel segments of the same box. The 27 row segments are
    /// visited first, then the 27 column segments; the trace pins the exact
    /// effect of every visit in that order.
    pub fn set_possible_values_by_short_segments(&mut self)
        requires
            old(self).wf(),
        ensures
            final(self).wf(),
            monotone_rel(old(self).board@, final(self).board@),
            exists|trace: Seq<Seq<GameCell>>|
                {
                    &&& #[trigger] seg_trace_ok(trace)
                    &&& trace[0] == old(self).board@
                    &&& trace[54] == final(self).board@
                },
    {
        let ghost pre = self.board@;
        let ghost mut trace: Seq<Seq<GameCell>> = seq![pre];
        for i in 0..9usize
            invariant
                self.wf(),
                pre.len() == 81,
                monotone_rel(pre, self.board@),
                trace.len() == 3 * i + 1,
                trace[0] == pre,
                trace.last() == self.board@,
                forall|n: int| 0 <= n < trace.len() - 1 ==> seg_step_n(trace[n], #[trigger] trace[n + 1], n),
        {
            for s in 0..3usize
                invariant
                    self.wf(),
                    pre.len() == 81,
                    i < 9,
                    monotone_rel(pre, self.board@),
                    trace.len() == 3 * i + s + 1,
                    trace[0] == pre,
                    trace.last() == self.board@,
                    forall|n: int| 0 <= n < trace.len() - 1 ==> seg_step_n(trace[n], #[trigger] trace[n + 1], n),
            {
                let ghost cur = self.board@;
                self.apply_segment(GroupKind::Row, i, s);
                proof {
                    lemma_monotone_trans(pre, cur, self.board@);
                    let n = 3 * (i as int) + s as int;
                    lemma_fundamental_div_mod_converse(n, 3, i as int, s as int);
                    assert(seg_step_n(cur, self.board@, n));
                    let ghost prev = trace;
                    trace = trace.push(self.board@);
                    assert forall|n2: int| 0 <= n2 < trace.len() - 1 implies seg_step_n(
                        trace[n2],
                        #[trigger] trace[n2 + 1],
                        n2,
                    ) by {
                        if n2 < prev.len() - 1 {
                            assert(trace[n2] == prev[n2] && trace[n2 + 1] == prev[n2 + 1]);
                        } else {
                            assert(trace[n2] == prev[n2] && trace[n2 + 1] == self.board@);
                        }
                    }
                }
            }
        }
        for i in 0..9usize
            invariant
                self.wf(),
                pre.len() == 81,
                monotone_rel(pre, self.board@),
                trace.len() == 27 + 3 * i + 1,
                trace[0] == pre,
                trace.last() == self.board@,
                forall|n: int| 0 <= n < trace.len() - 1 ==> seg_step_n(trace[n], #[trigger] trace[n + 1], n),
        {
            for s in 0..3usize
                invariant
                    self.wf(),
                    pre.len() == 81,
                    i < 9,
                    monotone_rel(pre, self.board@),
                    trace.len() == 27 + 3 * i + s + 1,
                    trace[0] == pre,
                    trace.last() == self.board@,
                    forall|n: int| 0 <= n < trace.len() - 1 ==> seg_step_n(trace[n], #[trigger] trace[n + 1], n),
            {
                let ghost cur = self.board@;
                self.apply_segment(GroupKind::Col, i, s);
                proof {
                    lemma_monotone_trans(pre, cur, self.board@);
                    let n = 27 + 3 * (i as int) + s as int;
                    lemma_fundamental_div_mod_converse(n - 27, 3, i as int, s as int);
                    assert(seg_step_n(cur, self.board@, n));
                    let ghost prev = trace;
                    trace = trace.push(self.board@);
                    assert forall|n2: int| 0 <= n2 < trace.len() - 1 implies seg_step_n(
                        trace[n2],
                        #[trigger] trace[n2 + 1],
                        n2,
                    ) by {
                        if n2 < prev.len() - 1 {
                            assert(trace[n2] == prev[n2] && trace[n2 + 1] == prev[n2 + 1]);
                        } else {
                            assert(trace[n2] == prev[n2] && trace[n2 + 1] == self.board@);
                        }
                    }
                }
            }
        }
        proof {
            assert(seg_trace_ok(trace));
            assert(trace[54] == self.board@);
        }
    }

    /// Assigns every cell whose candidate list has narrowed to one value;
    /// reports whether any cell was newly assigned.
    pub fn set_values_from_possible(&mut self) -> (r: bool)
        requires
            old(self).wf(),
        ensures
            final(self).wf(),
            final(self).board@.len() == 81,
            r == exists|k: int|
                0 <= k < 81 && (#[trigger] old(self).board@[k]).possible_values@.len() == 1,
            forall|k: int|
                0 <= k < 81 && old(self).board@[k].possible_values@.len() == 1 ==> {
                    &&& (#[trigger] final(self).board@[k]).value
                        == old(self).board@[k].possible_values@[0]
                    &&& 1 <= final(self).board@[k].value <= 9
                    &&& old(self).board@[k].value == 0
                    &&& final(self).board@[k].possible_values@.len() == 0
                    &&& final(self).board@[k].state == CellState::New
                },
            forall|k: int|
                0 <= k < 81 && old(self).board@[k].possible_values@.len() != 1
                    ==> #[trigger] final(self).board@[k] == old(self).board@[k],
    {
        let ghost entry = self.board@;
        let mut changes_made = false;
        for k in 0..81usize
            invariant
                self.wf(),
                self.board@.len() == 81,
                entry.len() == 81,
                board_wf(entry),
                changes_made == exists|t: int|
                    0 <= t < k && (#[trigger] entry[t]).possible_values@.len() == 1,
                forall|t: int|
                    0 <= t < k && entry[t].possible_values@.len() == 1 ==> {
                        &&& (#[trigger] self.board@[t]).value == entry[t].possible_values@[0]
                        &&& 1 <= self.board@[t].value <= 9
                        &&& entry[t].value == 0
                        &&& self.board@[t].possible_values@.len() == 0
                        &&& self.board@[t].state == CellState::New
                    },
                forall|t: int|
                    0 <= t < k && entry[t].possible_values@.len() != 1 ==> #[trigger] self.board@[t]
                        == entry[t],
                forall|t: int| k <= t < 81 ==> #[trigger] self.board@[t] == entry[t],
        {
            let tmp_bool = self.board[k].check_possible();
            if tmp_bool {
                changes_made = true;
            }
        }
        changes_made
    }

    /// Removes any candidate that already occurs as a value in its row.
    pub fn set_possible_values_by_row(&mut self)
        requires
            old(self).wf(),
        ensures
            final(self).wf(),
            elim_rel(old(self).board@, final(self).board@, GroupKind::Row),
    {
        self.eliminate_pass(GroupKind::Row);
    }

    /// Removes any candidate that already occurs as a value in its column.
    pub fn set_possible_values_by_col(&mut self)
        requires
            old(self).wf(),
        ensures
            final(self).wf(),
            elim_rel(old(self).board@, final(self).board@, GroupKind::Col),
    {
        self.eliminate_pass(GroupKind::Col);
    }

    /// Removes any candidate that already occurs as a value in its 3x3 box.
    pub fn set_possible_values_by_square(&mut self)
        requires
            old(self).wf(),
        ensures
            final(self).wf(),
            elim_rel(old(self).board@, final(self).board@, GroupKind::Box),
    {
        self.eliminate_pass(GroupKind::Box);
    }
}

/// Whether `x` occurs in `v`.
fn vec_contains(v: &Vec<usize>, x: usize) -> (r: bool)
    ensures
        r == v@.contains(x),
{
    let n = v.len();
    for i in 0..n
        invariant
            n == v@.len(),
            forall|t: int| 0 <= t < i ==> v@[t] != x,
    {
        if v[i] == x {
            return true;
        }
    }
    false
}

/// How many entries of `s` equal `v`.
pub open spec fn count_matches(s: Seq<usize>, v: usize) -> int
    decreases s.len(),
{
    if s.len() == 0 {
        0
    } else {
        count_matches(s.drop_last(), v) + if s.last() == v {
            1int
        } else {
            0int
        }
    }
}

pub proof fn lemma_count_matches_bounds(s: Seq<usize>, v: usize)
    ensures
        0 <= count_matches(s, v) <= s.len(),
    decreases s.len(),
{
    if s.len() > 0 {
        lemma_count_matches_bounds(s.drop_last(), v);
    }
}

/// In a well-formed candidate list (no duplicates), a digit is counted at
/// most once.
proof fn lemma_count_matches_unique(s: Seq<usize>, v: usize)
    requires
        candidates_wf(s),
    ensures
        count_matches(s, v) == if s.contains(v) {
            1int
        } else {
            0int
        },
    decreases s.len(),
{
    if s.len() > 0 {
        let p = s.drop_last();
        assert(candidates_wf(p));
        lemma_count_matches_unique(p, v);
        if s.last() == v {
            assert(s.contains(v));
            assert(!p.contains(v)) by {
                if p.contains(v) {
                    let i = choose|i: int| 0 <= i < p.len() && p[i] == v;
                    assert(s[i] == v && s[i] < s[s.len() - 1]);
                }
            }
        } else {
            assert(s.contains(v) <==> p.contains(v)) by {
                if s.contains(v) {
                    let i = choose|i: int| 0 <= i < s.len() && s[i] == v;
                    assert(i < s.len() - 1);
                    assert(p[i] == v);
                }
                if p.contains(v) {
                    let i = choose|i: int| 0 <= i < p.len() && p[i] == v;
                    assert(s[i] == v);
                }
            }
        }
    }
}

/// A well-formed candidate list whose sole member is `d` is exactly `[d]`.
proof fn lemma_singleton_candidates(s: Seq<usize>, d: usize)
    requires
        candidates_wf(s),
        forall|x: usize| s.contains(x) <==> x == d,
    ensures
        s.len() == 1,
        s[0] == d,
{
    assert(s.contains(d));
    let i = choose|i: int| 0 <= i < s.len() && s[i] == d;
    if s.len() >= 2 {
        assert(s.contains(s[0]));
        assert(s.contains(s[1]));
        assert(s[0] < s[1]);
        assert(false);
    }
}

/// How many of the first `m` members of group `g` of the given kind are
/// open cells whose candidate list still includes digit `d`.
pub open spec fn digit_homes(s: Seq<GameCell>, kind: GroupKind, g: int, d: usize, m: int) -> int
    decreases m,
{
    if m <= 0 {
        0
    } else {
        digit_homes(s, kind, g, d, m - 1) + if s[spec_group_index(kind, g, m - 1)].value == 0
            && s[spec_group_index(kind, g, m - 1)].has_candidate(d) {
            1int
        } else {
            0int
        }
    }
}

pub proof fn lemma_digit_homes_bounds(s: Seq<GameCell>, kind: GroupKind, g: int, d: usize, m: int)
    ensures
        0 <= digit_homes(s, kind, g, d, m) <= if m <= 0 {
            0int
        } else {
            m
        },
    decreases m,
{
    if m > 0 {
        lemma_digit_homes_bounds(s, kind, g, d, m - 1);
    }
}

/// A group member that is open and lists `d` contributes to the count.
pub proof fn lemma_digit_homes_at_least_one(
    s: Seq<GameCell>,
    kind: GroupKind,
    g: int,
    d: usize,
    m1: int,
    m: int,
)
    requires
        0 <= m1 < m <= 9,
        s.len() == 81,
        s[spec_group_index(kind, g, m1)].value == 0,
        s[spec_group_index(kind, g, m1)].has_candidate(d),
    ensures
        digit_homes(s, kind, g, d, m) >= 1,
    decreases m,
{
    lemma_digit_homes_bounds(s, kind, g, d, m - 1);
    if m1 < m - 1 {
        lemma_digit_homes_at_least_one(s, kind, g, d, m1, m - 1);
    }
}

/// Two distinct group members that are open and list `d` give a count of
/// at least two.
pub proof fn lemma_digit_homes_at_least_two(
    s: Seq<GameCell>,
    kind: GroupKind,
    g: int,
    d: usize,
    m1: int,
    m2: int,
    m: int,
)
    requires
        0 <= m1 < m2 < m <= 9,
        s.len() == 81,
        s[spec_group_index(kind, g, m1)].value == 0,
        s[spec_group_index(kind, g, m1)].has_candidate(d),
        s[spec_group_index(kind, g, m2)].value == 0,
        s[spec_group_index(kind, g, m2)].has_candidate(d),
    ensures
        digit_homes(s, kind, g, d, m) >= 2,
    decreases m,
{
    if m2 < m - 1 {
        lemma_digit_homes_at_least_two(s, kind, g, d, m1, m2, m - 1);
        lemma_digit_homes_bounds(s, kind, g, d, m - 1);
    } else {
        lemma_digit_homes_at_least_one(s, kind, g, d, m1, m - 1);
    }
}

/// Digit `d` is a hidden single at cell `k`: `k` still lists it among its
/// candidates and no other open cell of `k`'s group of this kind does.
pub open spec fn hidden_single_at(s: Seq<GameCell>, kind: GroupKind, k: int, d: usize) -> bool {
    &&& 1 <= d <= 9
    &&& s[k].has_candidate(d)
    &&& digit_homes(s, kind, group_of(kind, k), d, 9) == 1
}

/// Whether `v` is in the domain of the 3-cell segment `s` of line `i`
/// (a row for `GroupKind::Row`, a column for `GroupKind::Col`): assigned
/// in or still a candidate of one of its three cells.
pub open spec fn seg_domain_has(
    a: Seq<GameCell>,
    kind: GroupKind,
    i: int,
    s: int,
    v: usize,
) -> bool {
    ||| in_domain(a[spec_group_index(kind, i, 3 * s)], v)
    ||| in_domain(a[spec_group_index(kind, i, 3 * s + 1)], v)
    ||| in_domain(a[spec_group_index(kind, i, 3 * s + 2)], v)
}

/// A cell of the segment's own line, outside the segment itself.
pub open spec fn is_line_target(kind: GroupKind, i: int, s: int, k: int) -> bool {
    &&& 0 <= k < 81
    &&& group_of(kind, k) == i
    &&& !(3 * s <= member_of(kind, k) < 3 * s + 3)
}

/// A cell of one of the two parallel segments of the same box.
pub open spec fn is_par_target(kind: GroupKind, i: int, s: int, k: int) -> bool {
    &&& 0 <= k < 81
    &&& group_of(kind, k) != i
    &&& group_of(kind, k) / 3 == i / 3
    &&& 3 * s <= member_of(kind, k) < 3 * s + 3
}

/// The cells a firing segment prunes: the rest of its own line outside the
/// segment, and the two parallel segments of the same box.
pub open spec fn is_seg_target(kind: GroupKind, i: int, s: int, k: int) -> bool {
    is_line_target(kind, i, s, k) || is_par_target(kind, i, s, k)
}

/// The box-line rule fires when the segment's domain is exactly the three
/// values `d0 < d1 < d2`: they are confined to the segment.
pub open spec fn seg_fires(
    a: Seq<GameCell>,
    kind: GroupKind,
    i: int,
    s: int,
    d0: usize,
    d1: usize,
    d2: usize,
) -> bool {
    &&& d0 < d1
    &&& d1 < d2
    &&& forall|v: usize| seg_domain_has(a, kind, i, s, v) <==> (v == d0 || v == d1 || v == d2)
}

/// Exact effect of visiting one segment: when its domain has exactly three
/// members, those values leave the candidate lists of every target cell
/// and nothing else changes; otherwise the board is left as it is.
pub open spec fn seg_step(a: Seq<GameCell>, b: Seq<GameCell>, kind: GroupKind, i: int, s: int) -> bool {
    ||| (exists|d0: usize, d1: usize, d2: usize|
        {
            &&& #[trigger] seg_fires(a, kind, i, s, d0, d1, d2)
            &&& b.len() == 81
            &&& a.len() == 81
            &&& forall|k: int|
                0 <= k < 81 && !is_seg_target(kind, i, s, k) ==> #[trigger] b[k] == a[k]
            &&& forall|k: int|
                0 <= k < 81 ==> (#[trigger] b[k]).value == a[k].value && b[k].state == a[k].state
            &&& forall|k: int, v: usize|
                0 <= k < 81 ==> ((#[trigger] b[k].has_candidate(v)) <==> a[k].has_candidate(v)
                    && !(is_seg_target(kind, i, s, k) && (v == d0 || v == d1 || v == d2)))
        })
    ||| ((forall|d0: usize, d1: usize, d2: usize| !seg_fires(a, kind, i, s, d0, d1, d2)) && b == a)
}

/// The position of a parallel-target cell among the nine cells of the two
/// sibling segments' box rows (or columns), used to order the pruning.
pub open spec fn seg_pslot(kind: GroupKind, i: int, s: int, k: int) -> int {
    3 * (group_of(kind, k) - 3 * (i / 3)) + member_of(kind, k) - 3 * s
}

/// The `n`-th segment visit of the pass: the 27 row segments come first,
/// then the 27 column segments, each line-major with segments ascending.
pub open spec fn seg_step_n(a: Seq<GameCell>, b: Seq<GameCell>, n: int) -> bool {
    if n < 27 {
        seg_step(a, b, GroupKind::Row, n / 3, n % 3)
    } else {
        seg_step(a, b, GroupKind::Col, (n - 27) / 3, (n - 27) % 3)
    }
}

/// A full record of one box-line pass: 55 board states whose consecutive
/// pairs are related by the exact effect of each segment visit, in order.
pub open spec fn seg_trace_ok(trace: Seq<Seq<GameCell>>) -> bool {
    &&& trace.len() == 55
    &&& forall|n: int| 0 <= n < 54 ==> seg_step_n(trace[n], #[trigger] trace[n + 1], n)
}

/// Effect of the hidden-single rule over one group kind: values and tags
/// are untouched and candidates only shrink; every open cell holding a
/// hidden single ends narrowed to a single candidate; and a candidate list
/// changes only by narrowing to a digit that was a hidden single there.
pub open spec fn dist_rel(pre: Seq<GameCell>, post: Seq<GameCell>, kind: GroupKind) -> bool {
    &&& monotone_rel(pre, post)
    &&& forall|k: int|
        0 <= k < 81 && pre[k].value == 0 && (exists|d: usize|
            hidden_single_at(pre, kind, k, d)) ==> (#[trigger] post[k]).possible_values@.len()
            == 1
    &&& forall|k: int|
        0 <= k < 81 && (#[trigger] post[k]).possible_values@ != pre[k].possible_values@ ==> {
            &&& post[k].possible_values@.len() == 1
            &&& hidden_single_at(pre, kind, k, post[k].possible_values@[0])
        }
}

/// Adds one tally, per occurrence, for each digit listed in
/// `indices_to_increment`: digit `d` is tallied at slot `d - 1`.
pub fn increment_values_by_index(base_vector: &mut Vec<usize>, indices_to_increment: &Vec<usize>)
    requires
        old(base_vector)@.len() == 9,
        forall|t: int|
            0 <= t < indices_to_increment@.len() ==> 1 <= #[trigger] indices_to_increment@[t] <= 9,
        forall|d: int|
            0 <= d < 9 ==> #[trigger] old(base_vector)@[d] + indices_to_increment@.len()
                <= usize::MAX,
    ensures
        final(base_vector)@.len() == 9,
        forall|d: int|
            0 <= d < 9 ==> #[trigger] final(base_vector)@[d] == old(base_vector)@[d]
                + count_matches(indices_to_increment@, (d + 1) as usize),
{
    let n = indices_to_increment.len();
    for i in 0..n
        invariant
            n == indices_to_increment@.len(),
            base_vector@.len() == 9,
            forall|t: int|
                0 <= t < n ==> 1 <= #[trigger] indices_to_increment@[t] <= 9,
            forall|d: int|
                0 <= d < 9 ==> #[trigger] old(base_vector)@[d] + n <= usize::MAX,
            forall|d: int|
                0 <= d < 9 ==> #[trigger] base_vector@[d] == old(base_vector)@[d] + count_matches(
                    indices_to_increment@.take(i as int),
                    (d + 1) as usize,
                ),
    {
        let index = indices_to_increment[i];
        let adjusted_index = index - 1;
        proof {
            lemma_count_matches_bounds(indices_to_increment@.take(i as int), index);
            assert(indices_to_increment@.take(i as int).len() == i);
        }
        let cur = base_vector[adjusted_index];
        base_vector[adjusted_index] = cur + 1;
        proof {
            assert forall|d: int| 0 <= d < 9 implies #[trigger] base_vector@[d] == old(
                base_vector,
            )@[d] + count_matches(indices_to_increment@.take(i + 1), (d + 1) as usize) by {
                let s1 = indices_to_increment@.take(i + 1);
                assert(s1.drop_last() =~= indices_to_increment@.take(i as int));
                assert(s1.last() == indices_to_increment@[i as int]);
            }
        }
    }
    proof {
        assert(indices_to_increment@.take(n as int) =~= indices_to_increment@);
    }
}

/// Whether `v` belongs to the domain of a cell: its value if assigned, its
/// candidates otherwise.
pub open spec fn in_domain(c: GameCell, v: usize) -> bool {
    if c.value != 0 {
        v == c.value
    } else {
        c.has_candidate(v)
    }
}

/// Whether `v` belongs to the domain of the cell, as `in_domain` says.
fn cell_matches(c: &GameCell, v: usize) -> (r: bool)
    ensures
        r == in_domain(*c, v),
{
    if c.value != 0 {
        c.value == v
    } else {
        vec_contains(&c.possible_values, v)
    }
}

/// The distinct values, in ascending order, that are either assigned in or
/// still candidates of the three cells of a segment.
pub fn get_domain(cell1: &GameCell, cell2: &GameCell, cell3: &GameCell) -> (r: Vec<usize>)
    requires
        cell1.inv(),
        cell2.inv(),
        cell3.inv(),
    ensures
        candidates_wf(r@),
        forall|v: usize|
            r@.contains(v) <==> in_domain(*cell1, v) || in_domain(*cell2, v) || in_domain(
                *cell3,
                v,
            ),
{
    let mut r: Vec<usize> = Vec::new();
    for d in 1..10usize
        invariant
            cell1.inv(),
            cell2.inv(),
            cell3.inv(),
            1 <= d <= 10,
            r@.len() < d,
            candidates_wf(r@),
            forall|t: int| 0 <= t < r@.len() ==> #[trigger] r@[t] < d,
            forall|v: usize|
                r@.contains(v) ==> 1 <= v < d && (in_domain(*cell1, v) || in_domain(*cell2, v)
                    || in_domain(*cell3, v)),
            forall|v: usize|
                1 <= v < d && (in_domain(*cell1, v) || in_domain(*cell2, v) || in_domain(
                    *cell3,
                    v,
                )) ==> r@.contains(v),
    {
        let present = cell_matches(cell1, d) || cell_matches(cell2, d) || cell_matches(cell3, d);
        if present {
            let ghost prev = r@;
            r.push(d);
            proof {
                assert(r@.last() == d);
                assert forall|y: usize| prev.contains(y) implies r@.contains(y) by {
                    let t = choose|t: int| 0 <= t < prev.len() && prev[t] == y;
                    assert(r@[t] == y);
                }
                assert forall|y: usize| r@.contains(y) implies prev.contains(y) || y == d by {
                    let t = choose|t: int| 0 <= t < r@.len() && r@[t] == y;
                    if t < prev.len() {
                        assert(prev[t] == y);
                    }
                }
            }
        }
    }
    proof {
        assert forall|v: usize|
            (in_domain(*cell1, v) || in_domain(*cell2, v) || in_domain(*cell3, v)) implies (1 <= v
            < 10) by {
            if in_domain(*cell1, v) && cell1.value == 0 {
                lemma_candidate_in_range(*cell1, v);
            }
            if in_domain(*cell2, v) && cell2.value == 0 {
                lemma_candidate_in_range(*cell2, v);
            }
            if in_domain(*cell3, v) && cell3.value == 0 {
                lemma_candidate_in_range(*cell3, v);
            }
        }
    }
    r
}

} // verus!
