//! A verified validity check for completed boards: every row, column, and
//! box must be a permutation of the digits 1..=9.

use vstd::prelude::*;
use crate::cell::GameCell;
use crate::board::{spec_group_index, GameBoard, GroupKind};
use crate::rules::group_index;

verus! {

/// No two distinct members of any group of this kind hold the same value.
pub open spec fn group_values_distinct(s: Seq<GameCell>, kind: GroupKind) -> bool {
    forall|g: int, m1: int, m2: int|
        0 <= g < 9 && 0 <= m1 < 9 && 0 <= m2 < 9 && m1 != m2 ==> (#[trigger] s[spec_group_index(
            kind,
            g,
            m1,
        )]).value != (#[trigger] s[spec_group_index(kind, g, m2)]).value
}

/// Digit `d` occurs somewhere in group `g` of this kind.
pub open spec fn group_has_digit(s: Seq<GameCell>, kind: GroupKind, g: int, d: usize) -> bool {
    exists|m: int| 0 <= m < 9 && (#[trigger] s[spec_group_index(kind, g, m)]).value == d
}

/// Every group of this kind contains every digit 1..=9.
pub open spec fn group_contains_all(s: Seq<GameCell>, kind: GroupKind) -> bool {
    forall|g: int, d: usize| 0 <= g < 9 && 1 <= d <= 9 ==> #[trigger] group_has_digit(s, kind, g, d)
}

/// A solved board: 81 cells, every value a digit 1..=9, and every row,
/// column, and box a permutation of 1..=9 (nine cells, all nine digits
/// present, no digit twice).
pub open spec fn valid_solution(s: Seq<GameCell>) -> bool {
    &&& s.len() == 81
    &&& forall|k: int| 0 <= k < 81 ==> 1 <= (#[trigger] s[k]).value <= 9
    &&& group_values_distinct(s, GroupKind::Row)
    &&& group_values_distinct(s, GroupKind::Col)
    &&& group_values_distinct(s, GroupKind::Box)
    &&& group_contains_all(s, GroupKind::Row)
    &&& group_contains_all(s, GroupKind::Col)
    &&& group_contains_all(s, GroupKind::Box)
}

impl GameBoard {
    /// Checks distinctness and digit coverage over all groups of one kind.
    fn check_kind(&self, kind: GroupKind) -> (r: bool)
        requires
            self.wf(),
        ensures
            r == (group_values_distinct(self.board@, kind) && group_contains_all(
                self.board@,
                kind,
            )),
    {
        for g in 0..9usize
            invariant
                self.wf(),
                forall|g2: int, m1: int, m2: int|
                    0 <= g2 < g && 0 <= m1 < 9 && 0 <= m2 < 9 && m1 != m2 ==> (
                    #[trigger] self.board@[spec_group_index(kind, g2, m1)]).value != (
                    #[trigger] self.board@[spec_group_index(kind, g2, m2)]).value,
                forall|g2: int, d: usize|
                    0 <= g2 < g && 1 <= d <= 9 ==> #[trigger] group_has_digit(
                        self.board@,
                        kind,
                        g2,
                        d,
                    ),
        {
            for m1 in 0..9usize
                invariant
                    self.wf(),
                    g < 9,
                    forall|a: int, b: int|
                        0 <= a < m1 && 0 <= b < 9 && a != b ==> (
                        #[trigger] self.board@[spec_group_index(kind, g as int, a)]).value != (
                        #[trigger] self.board@[spec_group_index(kind, g as int, b)]).value,
            {
                for m2 in 0..9usize
                    invariant
                        self.wf(),
                        g < 9,
                        m1 < 9,
                        forall|a: int, b: int|
                            0 <= a < m1 && 0 <= b < 9 && a != b ==> (
                            #[trigger] self.board@[spec_group_index(kind, g as int, a)]).value != (
                            #[trigger] self.board@[spec_group_index(kind, g as int, b)]).value,
                        forall|b: int|
                            0 <= b < m2 && b != m1 ==> (#[trigger] self.board@[spec_group_index(
                                kind,
                                g as int,
                                b,
                            )]).value != self.board@[spec_group_index(kind, g as int, m1 as int)].value,
                {
                    if m1 != m2 {
                        let k1 = group_index(kind, g, m1);
                        let k2 = group_index(kind, g, m2);
                        if self.board[k1].value == self.board[k2].value {
                            return false;
                        }
                    }
                }
            }
            for d in 1..10usize
                invariant
                    self.wf(),
                    g < 9,
                    forall|d2: usize|
                        1 <= d2 < d ==> #[trigger] group_has_digit(self.board@, kind, g as int, d2),
            {
                let mut found = false;
                for m in 0..9usize
                    invariant
                        self.wf(),
                        g < 9,
                        1 <= d <= 9,
                        found ==> group_has_digit(self.board@, kind, g as int, d),
                        !found ==> forall|m2: int|
                            0 <= m2 < m ==> (#[trigger] self.board@[spec_group_index(
                                kind,
                                g as int,
                                m2,
                            )]).value != d,
                {
                    let k = group_index(kind, g, m);
                    if self.board[k].value == d {
                        found = true;
                    }
                }
                if !found {
                    proof {
                        if group_has_digit(self.board@, kind, g as int, d) {
                            let m = choose|m: int|
                                0 <= m < 9 && (#[trigger] self.board@[spec_group_index(
                                    kind,
                                    g as int,
                                    m,
                                )]).value == d;
                            assert(false);
                        }
                    }
                    return false;
                }
            }
        }
        true
    }

    /// Whether the board is a valid complete solution: fully assigned with
    /// every row, column, and box a permutation of 1..=9.
    pub fn is_valid_solution(&self) -> (r: bool)
        requires
            self.wf(),
        ensures
            r == valid_solution(self.board@),
    {
        for k in 0..81usize
            invariant
                self.wf(),
                forall|t: int| 0 <= t < k ==> 1 <= (#[trigger] self.board@[t]).value <= 9,
        {
            if self.board[k].value == 0 {
                return false;
            }
        }
        self.check_kind(GroupKind::Row) && self.check_kind(GroupKind::Col) && self.check_kind(
            GroupKind::Box,
        )
    }
}

} // verus!
