//! Library-wide laws, stated over the same spec functions the executable
//! contracts use.

use vstd::prelude::*;
use crate::cell::{candidates_wf, GameCell};
use crate::board::{
    board_wf, boards_match, elim_rel, group_clean, group_has_value, group_of, lemma_group_index,
    lemma_group_of_inverse, member_of, monotone_rel, same_group, spec_group_index, GroupKind,
};
use crate::checker::valid_solution;
use crate::codec::{
    board_chars, board_matches_string, digit_char, digit_val, is_digit_char, puzzle_wf,
};
use crate::rules::{dist_rel, hidden_single_at, lemma_digit_homes_at_least_two};
use crate::solve::finalize_rel;

verus! {

/// Membership in the tail of a strictly ascending list is membership in
/// the list, minus its head.
proof fn lemma_tail_membership(s: Seq<usize>, x: usize)
    requires
        candidates_wf(s),
        s.len() > 0,
    ensures
        s.subrange(1, s.len() as int).contains(x) <==> (s.contains(x) && x != s[0]),
{
    let t = s.subrange(1, s.len() as int);
    if t.contains(x) {
        let i = choose|i: int| 0 <= i < t.len() && t[i] == x;
        assert(s[i + 1] == x);
        assert(s[0] < s[i + 1]);
    }
    if s.contains(x) && x != s[0] {
        let i = choose|i: int| 0 <= i < s.len() && s[i] == x;
        assert(i > 0);
        assert(t[i - 1] == x);
    }
}

/// Two strictly ascending digit lists with the same members are the same
/// list.
pub proof fn lemma_sorted_unique_equal(a: Seq<usize>, b: Seq<usize>)
    requires
        candidates_wf(a),
        candidates_wf(b),
        forall|x: usize| a.contains(x) <==> b.contains(x),
    ensures
        a == b,
    decreases a.len(),
{
    if a.len() == 0 {
        if b.len() > 0 {
            assert(b.contains(b[0]));
            assert(a.contains(b[0]));
            let i = choose|i: int| 0 <= i < a.len() && a[i] == b[0];
            assert(false);
        }
        assert(a =~= b);
    } else {
        assert(a.contains(a[0]));
        assert(b.contains(a[0]));
        let i = choose|i: int| 0 <= i < b.len() && b[i] == a[0];
        assert(b[0] <= b[i]);
        assert(b.contains(b[0]));
        assert(a.contains(b[0]));
        let j = choose|j: int| 0 <= j < a.len() && a[j] == b[0];
        assert(a[0] <= a[j]);
        assert(a[0] == b[0]);
        let at = a.subrange(1, a.len() as int);
        let bt = b.subrange(1, b.len() as int);
        assert(candidates_wf(at));
        assert(candidates_wf(bt));
        assert forall|x: usize| at.contains(x) <==> bt.contains(x) by {
            lemma_tail_membership(a, x);
            lemma_tail_membership(b, x);
        }
        lemma_sorted_unique_equal(at, bt);
        assert(a =~= b) by {
            assert(at.len() == bt.len());
            assert forall|t: int| 0 <= t < a.len() implies a[t] == b[t] by {
                if t > 0 {
                    assert(at[t - 1] == bt[t - 1]);
                }
            }
        }
    }
}

/// Group occupancy only depends on the assigned values, which agree
/// between the two boards.
proof fn lemma_group_has_value_same(
    b0: Seq<GameCell>,
    b1: Seq<GameCell>,
    kind: GroupKind,
    k: int,
    v: usize,
)
    requires
        b0.len() == 81,
        b1.len() == 81,
        0 <= k < 81,
        forall|t: int| 0 <= t < 81 ==> (#[trigger] b1[t]).value == b0[t].value,
    ensures
        group_has_value(b1, kind, k, v) == group_has_value(b0, kind, k, v),
{
    lemma_group_of_inverse(kind, k);
    if group_has_value(b1, kind, k, v) {
        let m = choose|m: int|
            0 <= m < 9 && (#[trigger] b1[spec_group_index(kind, group_of(kind, k), m)]).value == v;
        lemma_group_index(kind, group_of(kind, k), m);
        assert(b0[spec_group_index(kind, group_of(kind, k), m)].value == v);
    }
    if group_has_value(b0, kind, k, v) {
        let m = choose|m: int|
            0 <= m < 9 && (#[trigger] b0[spec_group_index(kind, group_of(kind, k), m)]).value == v;
        lemma_group_index(kind, group_of(kind, k), m);
        assert(b1[spec_group_index(kind, group_of(kind, k), m)].value == v);
    }
}

/// Stability of elimination: once an elimination pass of a given kind has
/// run (taking `b0` to `b1`), its work survives any further pruning (taking
/// `b1` to `b2`), so running the same pass again changes nothing. The
/// pass's whole effect is determined by the assigned values, which pruning
/// does not touch.
pub proof fn lemma_elimination_stable(
    b0: Seq<GameCell>,
    b1: Seq<GameCell>,
    b2: Seq<GameCell>,
    b3: Seq<GameCell>,
    kind: GroupKind,
)
    requires
        board_wf(b0),
        board_wf(b2),
        board_wf(b3),
        elim_rel(b0, b1, kind),
        monotone_rel(b1, b2),
        elim_rel(b2, b3, kind),
    ensures
        boards_match(b3, b2),
{
    assert forall|k: int| 0 <= k < 81 implies (#[trigger] b3[k]).value == b2[k].value
        && b3[k].state == b2[k].state && b3[k].possible_values@ == b2[k].possible_values@ by {
        assert forall|v: usize|
            b3[k].possible_values@.contains(v) <==> b2[k].possible_values@.contains(v) by {
            lemma_group_has_value_same(b0, b2, kind, k, v);
            assert(b3[k].has_candidate(v) == b3[k].possible_values@.contains(v));
            assert(b2[k].has_candidate(v) == b2[k].possible_values@.contains(v));
            if b2[k].has_candidate(v) {
                assert(b1[k].has_candidate(v));
                assert(!group_has_value(b0, kind, k, v));
            }
        }
        lemma_sorted_unique_equal(b3[k].possible_values@, b2[k].possible_values@);
    }
}

/// Idempotence of elimination: running an elimination pass of one kind
/// twice in a row is the same as running it once.
pub proof fn lemma_elimination_idempotent(
    b0: Seq<GameCell>,
    b1: Seq<GameCell>,
    b2: Seq<GameCell>,
    kind: GroupKind,
)
    requires
        board_wf(b0),
        board_wf(b1),
        board_wf(b2),
        elim_rel(b0, b1, kind),
        elim_rel(b1, b2, kind),
    ensures
        boards_match(b2, b1),
{
    assert(monotone_rel(b1, b1));
    lemma_elimination_stable(b0, b1, b1, b2, kind);
}

/// Conflicting givens are fatal: when two distinct cells of one group are
/// pre-assigned the same digit, any board that preserves those givens —
/// as the solver's contract promises of its result — is not a valid
/// solution, so the solver can only report failure on such a puzzle.
pub proof fn lemma_conflicting_givens_never_valid(
    pre: Seq<GameCell>,
    post: Seq<GameCell>,
    kind: GroupKind,
    a: int,
    b: int,
)
    requires
        pre.len() == 81,
        post.len() == 81,
        0 <= a < 81,
        0 <= b < 81,
        a != b,
        same_group(kind, a, b),
        pre[a].value != 0,
        pre[a].value == pre[b].value,
        forall|k: int|
            0 <= k < 81 && pre[k].value != 0 ==> (#[trigger] post[k]).value == pre[k].value,
    ensures
        !valid_solution(post),
{
    if valid_solution(post) {
        lemma_group_of_inverse(kind, a);
        lemma_group_of_inverse(kind, b);
        let g = group_of(kind, a);
        let m1 = member_of(kind, a);
        let m2 = member_of(kind, b);
        assert(m1 != m2);
        assert(post[spec_group_index(kind, g, m1)].value != post[spec_group_index(
            kind,
            g,
            m2,
        )].value);
        assert(false);
    }
}

/// `sol` is a way to finish the board `b`: it agrees with every assigned
/// cell, and every open cell still lists its value as a candidate.
pub open spec fn solution_extends(sol: Seq<GameCell>, b: Seq<GameCell>) -> bool {
    &&& sol.len() == 81
    &&& b.len() == 81
    &&& forall|k: int|
        0 <= k < 81 && (#[trigger] b[k]).value != 0 ==> sol[k].value == b[k].value
    &&& forall|k: int|
        0 <= k < 81 && (#[trigger] b[k]).value == 0 ==> b[k].has_candidate(sol[k].value)
}

/// Soundness of elimination: a pass of any kind never removes a candidate
/// that a valid completion of the board uses, so every completion that was
/// reachable stays reachable.
pub proof fn lemma_elimination_preserves_solutions(
    pre: Seq<GameCell>,
    post: Seq<GameCell>,
    kind: GroupKind,
    sol: Seq<GameCell>,
)
    requires
        board_wf(pre),
        elim_rel(pre, post, kind),
        valid_solution(sol),
        solution_extends(sol, pre),
    ensures
        solution_extends(sol, post),
{
    assert forall|k: int|
        0 <= k < 81 && (#[trigger] post[k]).value == 0 implies post[k].has_candidate(
        sol[k].value,
    ) by {
        let v = sol[k].value;
        assert(pre[k].has_candidate(v));
        if group_has_value(pre, kind, k, v) {
            // some cell of the group is already assigned v, but the
            // completion gives v to `k` as well: two equal values in one
            // group of a valid solution
            lemma_group_of_inverse(kind, k);
            let m = choose|m: int|
                0 <= m < 9 && (#[trigger] pre[spec_group_index(kind, group_of(kind, k), m)]).value
                    == v;
            let t = spec_group_index(kind, group_of(kind, k), m);
            lemma_group_index(kind, group_of(kind, k), m);
            assert(sol[t].value == v);
            assert(t != k);
            assert(sol[t].value != sol[k].value);
            assert(false);
        }
    }
}

/// Soundness of the finalizing pass: assigning a cell its only remaining
/// candidate agrees with every valid completion of the board.
pub proof fn lemma_finalize_preserves_solutions(
    pre: Seq<GameCell>,
    post: Seq<GameCell>,
    sol: Seq<GameCell>,
)
    requires
        board_wf(pre),
        finalize_rel(pre, post),
        solution_extends(sol, pre),
    ensures
        solution_extends(sol, post),
{
    assert forall|k: int|
        0 <= k < 81 && (#[trigger] post[k]).value != 0 implies sol[k].value == post[k].value by {
        if pre[k].possible_values@.len() == 1 && pre[k].value == 0 {
            assert(pre[k].has_candidate(sol[k].value));
            let t = choose|t: int|
                0 <= t < pre[k].possible_values@.len() && pre[k].possible_values@[t] == sol[
                k].value;
            assert(t == 0);
        } else {
            assert(post[k] == pre[k]);
        }
    }
    assert forall|k: int|
        0 <= k < 81 && (#[trigger] post[k]).value == 0 implies post[k].has_candidate(
        sol[k].value,
    ) by {
        assert(pre[k].possible_values@.len() != 1);
        assert(post[k] == pre[k]);
    }
}

/// An elimination pass leaves the board clean for its kind: no surviving
/// candidate is assigned anywhere in its group.
pub proof fn lemma_elimination_establishes_clean(
    pre: Seq<GameCell>,
    post: Seq<GameCell>,
    kind: GroupKind,
)
    requires
        elim_rel(pre, post, kind),
    ensures
        group_clean(post, kind),
{
    assert forall|k: int, v: usize|
        0 <= k < 81 && (#[trigger] post[k].has_candidate(v)) implies !group_has_value(
        post,
        kind,
        k,
        v,
    ) by {
        lemma_group_has_value_same(pre, post, kind, k, v);
    }
}

/// Cleanliness survives any further pruning, since it reads only the
/// assigned values and the shrinking candidate lists.
pub proof fn lemma_pruning_preserves_clean(a: Seq<GameCell>, b: Seq<GameCell>, kind: GroupKind)
    requires
        monotone_rel(a, b),
        group_clean(a, kind),
    ensures
        group_clean(b, kind),
{
    assert forall|k: int, v: usize|
        0 <= k < 81 && (#[trigger] b[k].has_candidate(v)) implies !group_has_value(
        b,
        kind,
        k,
        v,
    ) by {
        assert(a[k].has_candidate(v));
        lemma_group_has_value_same(a, b, kind, k, v);
    }
}

/// Soundness of hidden singles: on a board whose candidate lists no longer
/// mention values already assigned in their group — the state every
/// elimination pass establishes — the distribution rule never discards a
/// valid completion.
pub proof fn lemma_distribution_preserves_solutions(
    pre: Seq<GameCell>,
    post: Seq<GameCell>,
    kind: GroupKind,
    sol: Seq<GameCell>,
)
    requires
        board_wf(pre),
        dist_rel(pre, post, kind),
        group_clean(pre, kind),
        valid_solution(sol),
        solution_extends(sol, pre),
    ensures
        solution_extends(sol, post),
{
    assert forall|k: int|
        0 <= k < 81 && (#[trigger] post[k]).value == 0 implies post[k].has_candidate(
        sol[k].value,
    ) by {
        let v = sol[k].value;
        assert(pre[k].value == 0);
        assert(pre[k].has_candidate(v));
        if post[k].possible_values@ != pre[k].possible_values@ {
            // the cell was narrowed to some hidden single x; show x is
            // exactly the completion's value for this cell
            let x = post[k].possible_values@[0];
            assert(hidden_single_at(pre, kind, k, x));
            assert(post[k].has_candidate(x));
            if v != x {
                lemma_group_of_inverse(kind, k);
                let g = group_of(kind, k);
                // the completion puts x somewhere else in this group
                let m = choose_sol_member(sol, kind, g, x);
                let t = spec_group_index(kind, g, m);
                lemma_group_index(kind, g, m);
                assert(sol[t].value == x);
                assert(t != k);
                if pre[t].value != 0 {
                    // x is already assigned in the group, yet k still
                    // lists it: the board was not clean
                    assert(pre[t].value == x);
                    assert(group_has_value(pre, kind, k, x));
                    assert(false);
                } else {
                    // two open homes for x contradict the hidden single
                    assert(pre[t].has_candidate(x));
                    let mk = member_of(kind, k);
                    assert(spec_group_index(kind, g, mk) == k);
                    assert(mk != m);
                    if mk < m {
                        lemma_digit_homes_at_least_two(pre, kind, g, x, mk, m, 9);
                    } else {
                        lemma_digit_homes_at_least_two(pre, kind, g, x, m, mk, 9);
                    }
                    assert(false);
                }
            }
        }
    }
}

/// The member index at which a valid solution places digit `d` in group
/// `g` of the given kind.
pub proof fn choose_sol_member(sol: Seq<GameCell>, kind: GroupKind, g: int, d: usize) -> (m: int)
    requires
        valid_solution(sol),
        0 <= g < 9,
        1 <= d <= 9,
    ensures
        0 <= m < 9,
        sol[spec_group_index(kind, g, m)].value == d,
{
    assert(crate::checker::group_has_digit(sol, kind, g, d)) by {
        match kind {
            GroupKind::Row => {
                assert(crate::checker::group_contains_all(sol, GroupKind::Row));
            },
            GroupKind::Col => {
                assert(crate::checker::group_contains_all(sol, GroupKind::Col));
            },
            GroupKind::Box => {
                assert(crate::checker::group_contains_all(sol, GroupKind::Box));
            },
        }
    }
    choose|m: int| 0 <= m < 9 && (#[trigger] sol[spec_group_index(kind, g, m)]).value == d
}

/// Validity depends on the assigned values alone: a solver run that
/// preserves every given of an already-valid board — and all its cells are
/// givens — must report success.
pub proof fn lemma_already_valid_stays_solved(pre: Seq<GameCell>, post: Seq<GameCell>, r: bool)
    requires
        pre.len() == 81,
        post.len() == 81,
        valid_solution(pre),
        forall|k: int|
            0 <= k < 81 && pre[k].value != 0 ==> (#[trigger] post[k]).value == pre[k].value,
        r == valid_solution(post),
    ensures
        r == true,
{
    assert forall|k: int| 0 <= k < 81 implies (#[trigger] post[k]).value == pre[k].value by {
        assert(1 <= pre[k].value <= 9);
    }
    assert(valid_solution(post)) by {
        assert forall|k: int| 0 <= k < 81 implies 1 <= (#[trigger] post[k]).value <= 9 by {
            assert(1 <= pre[k].value <= 9);
        }
        assert forall|g: int, d: usize|
            0 <= g < 9 && 1 <= d <= 9 implies #[trigger] crate::checker::group_has_digit(
            post,
            GroupKind::Row,
            g,
            d,
        ) by {
            assert(crate::checker::group_has_digit(pre, GroupKind::Row, g, d));
            let mr = choose|m: int|
                0 <= m < 9 && (#[trigger] pre[spec_group_index(GroupKind::Row, g, m)]).value == d;
            lemma_group_index(GroupKind::Row, g, mr);
            assert(post[spec_group_index(GroupKind::Row, g, mr)].value == d);
        }
        assert forall|g: int, d: usize|
            0 <= g < 9 && 1 <= d <= 9 implies #[trigger] crate::checker::group_has_digit(
            post,
            GroupKind::Col,
            g,
            d,
        ) by {
            assert(crate::checker::group_has_digit(pre, GroupKind::Col, g, d));
            let mc = choose|m: int|
                0 <= m < 9 && (#[trigger] pre[spec_group_index(GroupKind::Col, g, m)]).value == d;
            lemma_group_index(GroupKind::Col, g, mc);
            assert(post[spec_group_index(GroupKind::Col, g, mc)].value == d);
        }
        assert forall|g: int, d: usize|
            0 <= g < 9 && 1 <= d <= 9 implies #[trigger] crate::checker::group_has_digit(
            post,
            GroupKind::Box,
            g,
            d,
        ) by {
            assert(crate::checker::group_has_digit(pre, GroupKind::Box, g, d));
            let mb = choose|m: int|
                0 <= m < 9 && (#[trigger] pre[spec_group_index(GroupKind::Box, g, m)]).value == d;
            lemma_group_index(GroupKind::Box, g, mb);
            assert(post[spec_group_index(GroupKind::Box, g, mb)].value == d);
        }
        assert forall|g: int, m1: int, m2: int|
            0 <= g < 9 && 0 <= m1 < 9 && 0 <= m2 < 9 && m1 != m2 implies (
        #[trigger] post[spec_group_index(GroupKind::Row, g, m1)]).value != (
        #[trigger] post[spec_group_index(GroupKind::Row, g, m2)]).value by {
            lemma_group_index(GroupKind::Row, g, m1);
            lemma_group_index(GroupKind::Row, g, m2);
        }
        assert forall|g: int, m1: int, m2: int|
            0 <= g < 9 && 0 <= m1 < 9 && 0 <= m2 < 9 && m1 != m2 implies (
        #[trigger] post[spec_group_index(GroupKind::Col, g, m1)]).value != (
        #[trigger] post[spec_group_index(GroupKind::Col, g, m2)]).value by {
            lemma_group_index(GroupKind::Col, g, m1);
            lemma_group_index(GroupKind::Col, g, m2);
        }
        assert forall|g: int, m1: int, m2: int|
            0 <= g < 9 && 0 <= m1 < 9 && 0 <= m2 < 9 && m1 != m2 implies (
        #[trigger] post[spec_group_index(GroupKind::Box, g, m1)]).value != (
        #[trigger] post[spec_group_index(GroupKind::Box, g, m2)]).value by {
            lemma_group_index(GroupKind::Box, g, m1);
            lemma_group_index(GroupKind::Box, g, m2);
        }
    }
}

/// Round trip: rendering the board that a well-formed 81-digit string
/// loads gives back exactly that string.
pub proof fn lemma_string_round_trip(cs: Seq<char>, s: Seq<GameCell>)
    requires
        puzzle_wf(cs),
        board_matches_string(s, cs),
    ensures
        board_chars(s) == cs,
{
    assert forall|k: int| 0 <= k < 81 implies board_chars(s)[k] == cs[k] by {
        assert(is_digit_char(cs[k]));
        assert(s[k].value == digit_val(cs[k]));
        assert(digit_char(digit_val(cs[k])) == cs[k]);
    }
    assert(board_chars(s) =~= cs);
}

} // verus!
