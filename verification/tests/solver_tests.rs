use sudoku_solver::board::GameBoard;
use sudoku_solver::cell::CellState;
use sudoku_solver::codec::is_well_formed_puzzle_string;

const TEST_PUZZLE: &str =
    "091000203000002700705600000000713060009000000000500002000007304000060009000300015";

fn givens_preserved(input: &str, output: &str) -> bool {
    input.chars().zip(output.chars()).all(|(i, o)| i == '0' || i == o)
}

#[test]
fn sparse_puzzle_needs_guessing_and_solves_validly() {
    // propagation alone stalls on this one; the backtracking search has to
    // commit a chain of guesses to finish it
    let puzzle =
        "020450700000780100089000000034507890007801000000200007300070002078910005010000670";
    let mut b = GameBoard::new();
    b.init_board_from_string(puzzle.to_string());
    let mut probe = b.clone();
    while probe.hint() {}
    assert!(!probe.is_solved());
    assert!(b.solve());
    assert!(b.is_valid_solution());
    assert!(givens_preserved(puzzle, &b.board_to_string()));
}

#[test]
fn empty_board_propagation_stalls_without_a_contradiction() {
    // the all-zero board is a degenerate edge case: no rule can deduce
    // anything, and nothing is contradictory either
    let zeros: String = std::iter::repeat('0').take(81).collect();
    let mut b = GameBoard::new();
    b.init_board_from_string(zeros);
    assert!(!b.hint());
    assert!(!b.is_unsolvable());
    assert!(!b.is_solved());
    assert_eq!(b.get_smallest_possible_gamecell_by_idx(), Some((0, 0)));
}

#[test]
fn sample_puzzle_solves_validly_and_keeps_its_givens() {
    let mut b = GameBoard::new();
    b.init_board_with_test_values();
    assert!(b.solve());
    assert!(b.is_valid_solution());
    let out = b.board_to_string();
    assert!(givens_preserved(TEST_PUZZLE, &out));
}

#[test]
fn conflicting_givens_are_reported_unsolvable() {
    // the sample puzzle with a second 9 forced into row 0: no branch can
    // complete this board, and the engine reports failure without crashing
    let mut s = String::from(&TEST_PUZZLE[..3]);
    s.push('9');
    s.push_str(&TEST_PUZZLE[4..]);
    let mut b = GameBoard::new();
    b.init_board_from_string(s);
    assert!(!b.solve());
}

#[test]
fn sample_puzzle_solves_by_propagation_alone() {
    // the sample puzzle needs no guessing: repeated fixed-point steps
    // reach a full assignment on their own
    let mut b = GameBoard::new();
    b.init_board_with_test_values();
    let mut steps: usize = 0;
    while b.hint() {
        steps += 1;
        assert!(steps <= 81);
    }
    assert!(b.is_solved());
    assert!(b.is_valid_solution());
    assert!(givens_preserved(TEST_PUZZLE, &b.board_to_string()));
    // propagation never tags a cell as guessed
    for k in 0..81 {
        assert_ne!(b.board[k].state, CellState::Guess);
    }
}

#[test]
fn hint_reports_progress_only_on_new_assignments() {
    let mut b = GameBoard::new();
    b.init_board_with_test_values();
    assert!(b.hint());
    let empty: String = std::iter::repeat('0').take(81).collect();
    let mut open = GameBoard::new();
    open.init_board_from_string(empty);
    // nothing can be deduced on an empty board
    assert!(!open.hint());
}

#[test]
fn malformed_puzzle_strings_are_rejected_at_the_boundary() {
    let eighty: String = std::iter::repeat('0').take(80).collect();
    assert!(!is_well_formed_puzzle_string(&eighty));
    let eighty_two: String = std::iter::repeat('0').take(82).collect();
    assert!(!is_well_formed_puzzle_string(&eighty_two));
    let mut with_letter: String = std::iter::repeat('0').take(80).collect();
    with_letter.push('a');
    assert!(!is_well_formed_puzzle_string(&with_letter));
    assert!(is_well_formed_puzzle_string(TEST_PUZZLE));
}

#[test]
fn validity_checker_accepts_a_valid_grid_and_rejects_a_duplicate() {
    let valid =
        "123456789456789123789123456234567891567891234891234567345678912678912345912345678";
    let mut b = GameBoard::new();
    b.init_board_from_string(valid.to_string());
    assert!(b.is_valid_solution());
    // introduce a duplicate 2 in the first row and column
    let mut broken = String::from("2");
    broken.push_str(&valid[1..]);
    let mut c = GameBoard::new();
    c.init_board_from_string(broken);
    assert!(!c.is_valid_solution());
}

#[test]
fn incomplete_boards_are_not_valid_solutions() {
    let b = GameBoard::new();
    assert!(!b.is_valid_solution());
}

#[test]
fn solving_twice_changes_nothing_further() {
    let mut b = GameBoard::new();
    b.init_board_with_test_values();
    assert!(b.solve());
    let first = b.board_to_string();
    assert!(b.solve());
    assert_eq!(b.board_to_string(), first);
}

#[test]
fn complete_but_inconsistent_board_is_not_reported_solved() {
    // a fully assigned board with a duplicate in its first row and column:
    // nothing is left to assign, but it is no solution
    let valid =
        "123456789456789123789123456234567891567891234891234567345678912678912345912345678";
    let mut broken = String::from("2");
    broken.push_str(&valid[1..]);
    let mut b = GameBoard::new();
    b.init_board_from_string(broken);
    assert!(!b.solve());
}

#[test]
fn already_valid_board_is_reported_solved() {
    let valid =
        "123456789456789123789123456234567891567891234891234567345678912678912345912345678";
    let mut b = GameBoard::new();
    b.init_board_from_string(valid.to_string());
    assert!(b.solve());
    assert!(b.is_valid_solution());
    assert_eq!(b.board_to_string(), valid);
}
