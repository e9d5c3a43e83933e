//! Converting between 81-character digit strings and boards.

use vstd::prelude::*;
use vstd::string::{StrSliceExecFns, StringExecFns};
use crate::cell::full_domain;
use crate::cell::CellState;
use crate::cell::GameCell;
use crate::board::GameBoard;

verus! {

/// Whether `c` is a decimal digit.
pub open spec fn is_digit_char(c: char) -> bool {
    c == '0' || c == '1' || c == '2' || c == '3' || c == '4' || c == '5' || c == '6' || c == '7'
        || c == '8' || c == '9'
}

/// The numeric value of a digit character (nine for anything past '8').
pub open spec fn digit_val(c: char) -> usize {
    if c == '0' {
        0
    } else if c == '1' {
        1
    } else if c == '2' {
        2
    } else if c == '3' {
        3
    } else if c == '4' {
        4
    } else if c == '5' {
        5
    } else if c == '6' {
        6
    } else if c == '7' {
        7
    } else if c == '8' {
        8
    } else {
        9
    }
}

/// The digit character of a value 0..=9 (with '9' for anything past 8).
pub open spec fn digit_char(v: usize) -> char {
    if v == 0 {
        '0'
    } else if v == 1 {
        '1'
    } else if v == 2 {
        '2'
    } else if v == 3 {
        '3'
    } else if v == 4 {
        '4'
    } else if v == 5 {
        '5'
    } else if v == 6 {
        '6'
    } else if v == 7 {
        '7'
    } else if v == 8 {
        '8'
    } else {
        '9'
    }
}

/// A well-formed puzzle string: exactly 81 digit characters, row-major,
/// with '0' for an unknown cell.
pub open spec fn puzzle_wf(s: Seq<char>) -> bool {
    &&& s.len() == 81
    &&& forall|i: int| 0 <= i < 81 ==> is_digit_char(#[trigger] s[i])
}

/// The board state that loading a puzzle string produces: parsed values,
/// full domains on open cells, and initial-puzzle tags on given cells.
pub open spec fn board_matches_string(s: Seq<GameCell>, cs: Seq<char>) -> bool {
    &&& s.len() == 81
    &&& forall|k: int|
        0 <= k < 81 ==> {
            &&& (#[trigger] s[k]).value == digit_val(cs[k])
            &&& (s[k].value == 0 ==> s[k].possible_values@ == full_domain() && s[k].state
                == CellState::Unsolved)
            &&& (s[k].value != 0 ==> s[k].possible_values@.len() == 0 && s[k].state
                == CellState::Initial)
        }
}

/// The 81-character rendering of a board, '0' standing for unassigned.
pub open spec fn board_chars(s: Seq<GameCell>) -> Seq<char> {
    Seq::new(81, |k: int| digit_char(s[k].value))
}

/// Whether a puzzle string is acceptable to the engine: adapters must
/// check this before handing a string over.
pub fn is_well_formed_puzzle_string(s: &str) -> (r: bool)
    ensures
        r == puzzle_wf(s@),
{
    let n = s.unicode_len();
    if n != 81 {
        return false;
    }
    for i in 0..81usize
        invariant
            s@.len() == 81,
            forall|t: int| 0 <= t < i ==> is_digit_char(#[trigger] s@[t]),
    {
        let c = s.get_char(i);
        let is_digit = c == '0' || c == '1' || c == '2' || c == '3' || c == '4' || c == '5' || c
            == '6' || c == '7' || c == '8' || c == '9';
        if !is_digit {
            return false;
        }
    }
    true
}

/// Parses a well-formed 81-character digit string into 81 cell values.
pub fn convert_string_to_vector(input: &str) -> (r: Vec<usize>)
    requires
        puzzle_wf(input@),
    ensures
        r@.len() == 81,
        forall|i: int| 0 <= i < 81 ==> #[trigger] r@[i] == digit_val(input@[i]) && r@[i] <= 9,
{
    let mut result: Vec<usize> = Vec::new();
    for i in 0..81usize
        invariant
            puzzle_wf(input@),
            result@.len() == i,
            forall|t: int|
                0 <= t < i ==> #[trigger] result@[t] == digit_val(input@[t]) && result@[t] <= 9,
    {
        let c = input.get_char(i);
        let digit: usize = if c == '0' {
            0
        } else if c == '1' {
            1
        } else if c == '2' {
            2
        } else if c == '3' {
            3
        } else if c == '4' {
            4
        } else if c == '5' {
            5
        } else if c == '6' {
            6
        } else if c == '7' {
            7
        } else if c == '8' {
            8
        } else {
            9
        };
        result.push(digit);
    }
    result
}

impl GameBoard {
    /// Fills the board from an 81-character digit string (0 meaning
    /// unsolved) and tags the given cells as the initial puzzle.
    pub fn init_board_from_string(&mut self, in_str: String)
        requires
            old(self).wf(),
            puzzle_wf(in_str@),
        ensures
            final(self).wf(),
            board_matches_string(final(self).board@, in_str@),
    {
        let value_vector = convert_string_to_vector(in_str.as_str());
        for k in 0..81usize
            invariant
                self.wf(),
                self.board@.len() == 81,
                value_vector@.len() == 81,
                puzzle_wf(in_str@),
                forall|t: int|
                    0 <= t < 81 ==> #[trigger] value_vector@[t] == digit_val(in_str@[t])
                        && value_vector@[t] <= 9,
                forall|t: int|
                    0 <= t < k ==> {
                        &&& (#[trigger] self.board@[t]).value == value_vector@[t]
                        &&& (self.board@[t].value == 0 ==> self.board@[t].possible_values@
                            == full_domain())
                        &&& (self.board@[t].value != 0 ==> self.board@[t].possible_values@.len()
                            == 0)
                    },
        {
            self.board[k].set_value(value_vector[k]);
        }
        self.set_initial_cells();
    }

    /// Loads the built-in sample puzzle.
    pub fn init_board_with_test_values(&mut self)
        requires
            old(self).wf(),
        ensures
            final(self).wf(),
            board_matches_string(final(self).board@, test_puzzle()),
    {
        let s =
            "091000203000002700705600000000713060009000000000500002000007304000060009000300015";
        proof {
            reveal_strlit(
                "091000203000002700705600000000713060009000000000500002000007304000060009000300015",
            );
            assert(s@.len() == 81);
            assert forall|i: int| 0 <= i < 81 implies is_digit_char(#[trigger] s@[i]) by {}
        }
        self.init_board_from_string(String::from_str(s));
    }

    /// The 81-character digit-string snapshot of the board, '0' standing
    /// for a still-unassigned cell.
    pub fn board_to_string(&self) -> (r: String)
        requires
            self.wf(),
        ensures
            r@ == board_chars(self.board@),
    {
        let mut returned = String::new();
        for k in 0..81usize
            invariant
                self.wf(),
                returned@.len() == k,
                forall|t: int|
                    0 <= t < k ==> #[trigger] returned@[t] == digit_char(self.board@[t].value),
        {
            let v = self.board[k].value;
            if v == 0 {
                returned.append("0");
                proof {
                    reveal_strlit("0");
                }
            } else if v == 1 {
                returned.append("1");
                proof {
                    reveal_strlit("1");
                }
            } else if v == 2 {
                returned.append("2");
                proof {
                    reveal_strlit("2");
                }
            } else if v == 3 {
                returned.append("3");
                proof {
                    reveal_strlit("3");
                }
            } else if v == 4 {
                returned.append("4");
                proof {
                    reveal_strlit("4");
                }
            } else if v == 5 {
                returned.append("5");
                proof {
                    reveal_strlit("5");
                }
            } else if v == 6 {
                returned.append("6");
                proof {
                    reveal_strlit("6");
                }
            } else if v == 7 {
                returned.append("7");
                proof {
                    reveal_strlit("7");
                }
            } else if v == 8 {
                returned.append("8");
                proof {
                    reveal_strlit("8");
                }
            } else {
                returned.append("9");
                proof {
                    reveal_strlit("9");
                }
            }
        }
        proof {
            assert(returned@ =~= board_chars(self.board@));
        }
        returned
    }
}

/// The built-in sample puzzle.
pub open spec fn test_puzzle() -> Seq<char> {
    "091000203000002700705600000000713060009000000000500002000007304000060009000300015"@
}

} // verus!
