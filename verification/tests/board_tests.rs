use sudoku_solver::board::GameBoard;
use sudoku_solver::rules::{get_domain, increment_values_by_index};

const TEST_PUZZLE: &str =
    "091000203000002700705600000000713060009000000000500002000007304000060009000300015";

#[test]
fn new_board_renders_as_eighty_one_zeros() {
    let b = GameBoard::new();
    let zeros: String = std::iter::repeat('0').take(81).collect();
    assert_eq!(b.board_to_string(), zeros);
}

#[test]
fn string_round_trip_on_the_sample_puzzle() {
    let mut b = GameBoard::new();
    b.init_board_from_string(TEST_PUZZLE.to_string());
    assert_eq!(b.board_to_string(), TEST_PUZZLE);
}

#[test]
fn string_round_trip_on_a_mixed_string() {
    let s =
        "120000000000000000000000000000000000000000050000000000000000000000000000000000009";
    let mut b = GameBoard::new();
    b.init_board_from_string(s.to_string());
    assert_eq!(b.board_to_string(), s);
}

#[test]
fn clone_copies_every_cell() {
    let mut b = GameBoard::new();
    b.init_board_from_string(TEST_PUZZLE.to_string());
    let c = b.clone();
    assert_eq!(c.board_to_string(), b.board_to_string());
    for k in 0..81 {
        assert_eq!(c.board[k].value, b.board[k].value);
        assert_eq!(c.board[k].possible_values, b.board[k].possible_values);
        assert_eq!(c.board[k].state, b.board[k].state);
    }
}

#[test]
fn row_elimination_prunes_row_values() {
    let mut b = GameBoard::new();
    b.init_board_from_string(TEST_PUZZLE.to_string());
    b.set_possible_values_by_row();
    // row 0 is "091000203": cell (0,0) may no longer hold 9, 1, 2 or 3
    let pv = &b.board[0].possible_values;
    assert!(!pv.contains(&9));
    assert!(!pv.contains(&1));
    assert!(!pv.contains(&2));
    assert!(!pv.contains(&3));
    assert!(pv.contains(&4));
}

#[test]
fn column_elimination_prunes_column_values() {
    let mut b = GameBoard::new();
    b.init_board_from_string(TEST_PUZZLE.to_string());
    b.set_possible_values_by_col();
    // column 0 holds 7 (row 2) and 9 (row 8, "009...")
    let pv = &b.board[0].possible_values;
    assert!(!pv.contains(&7));
}

#[test]
fn square_elimination_prunes_box_values() {
    let mut b = GameBoard::new();
    b.init_board_from_string(TEST_PUZZLE.to_string());
    b.set_possible_values_by_square();
    // the top-left box holds 9, 1, and 7, 5
    let pv = &b.board[9].possible_values;
    assert!(!pv.contains(&9));
    assert!(!pv.contains(&1));
    assert!(!pv.contains(&7));
    assert!(!pv.contains(&5));
}

#[test]
fn row_elimination_is_idempotent() {
    let mut b = GameBoard::new();
    b.init_board_from_string(TEST_PUZZLE.to_string());
    b.set_possible_values_by_row();
    let snapshot: Vec<Vec<usize>> = b.board.iter().map(|c| c.possible_values.clone()).collect();
    let values: String = b.board_to_string();
    b.set_possible_values_by_row();
    for k in 0..81 {
        assert_eq!(b.board[k].possible_values, snapshot[k]);
    }
    assert_eq!(b.board_to_string(), values);
}

#[test]
fn candidate_sizes_never_grow_during_propagation() {
    let mut b = GameBoard::new();
    b.init_board_from_string(TEST_PUZZLE.to_string());
    let before: Vec<usize> = b.board.iter().map(|c| c.possible_values.len()).collect();
    b.set_possible_values_by_row();
    b.set_possible_values_by_col();
    b.set_possible_values_by_square();
    b.set_possible_values_by_distribution();
    b.set_possible_values_by_short_segments();
    for k in 0..81 {
        assert!(b.board[k].possible_values.len() <= before[k]);
    }
}

#[test]
fn distribution_restricts_a_hidden_single() {
    let mut b = GameBoard::new();
    // make digit 1 impossible everywhere in row 0 except cell (0,0)
    for j in 1..9 {
        b.board[j].remove_possible_cell_value(1);
    }
    b.set_possible_values_by_distribution();
    assert_eq!(b.board[0].possible_values, vec![1]);
}

#[test]
fn short_segments_confine_a_three_value_domain() {
    let mut b = GameBoard::new();
    // give the first row-segment of the top-left box the domain {1, 2, 3}
    for j in 0..3 {
        for v in 4..10 {
            b.board[j].remove_possible_cell_value(v);
        }
    }
    b.set_possible_values_by_short_segments();
    // those three values leave the rest of row 0 ...
    assert_eq!(b.board[5].possible_values, vec![4, 5, 6, 7, 8, 9]);
    // ... and the two parallel segments of the box
    assert_eq!(b.board[10].possible_values, vec![4, 5, 6, 7, 8, 9]);
    assert_eq!(b.board[20].possible_values, vec![4, 5, 6, 7, 8, 9]);
    // cells outside the row and box are untouched
    assert_eq!(b.board[30].possible_values, vec![1, 2, 3, 4, 5, 6, 7, 8, 9]);
}

#[test]
fn set_values_from_possible_reports_only_new_assignments() {
    let mut b = GameBoard::new();
    assert!(!b.set_values_from_possible());
    b.board[17].keep_only_possible_cell_value(4);
    assert!(b.set_values_from_possible());
    assert_eq!(b.board[17].value, 4);
}

#[test]
fn get_domain_collects_values_and_candidates() {
    let mut c1 = sudoku_solver::cell::GameCell::new();
    c1.set_value(5);
    let mut c2 = sudoku_solver::cell::GameCell::new();
    c2.keep_only_possible_cell_value_pair((1, 2));
    let mut c3 = sudoku_solver::cell::GameCell::new();
    c3.set_value(7);
    let domain = get_domain(&c1, &c2, &c3);
    assert_eq!(domain, vec![1, 2, 5, 7]);
}

#[test]
fn increment_values_by_index_tallies_each_digit() {
    let mut counts: Vec<usize> = vec![0; 9];
    let digits: Vec<usize> = vec![1, 3, 3, 9];
    increment_values_by_index(&mut counts, &digits);
    assert_eq!(counts, vec![1, 0, 2, 0, 0, 0, 0, 0, 1]);
    increment_values_by_index(&mut counts, &digits);
    assert_eq!(counts, vec![2, 0, 4, 0, 0, 0, 0, 0, 2]);
}

#[test]
fn get_smallest_prefers_the_first_shortest_list() {
    let mut b = GameBoard::new();
    assert_eq!(b.get_smallest_possible_gamecell_by_idx(), Some((0, 0)));
    b.board[22].keep_only_possible_cell_value_pair((4, 5));
    assert_eq!(b.get_smallest_possible_gamecell_by_idx(), Some((2, 4)));
    // ties break to the earlier cell in row-major order
    b.board[13].keep_only_possible_cell_value_pair((1, 2));
    assert_eq!(b.get_smallest_possible_gamecell_by_idx(), Some((1, 4)));
}

#[test]
fn is_unsolvable_spots_an_open_cell_with_no_candidates() {
    let mut b = GameBoard::new();
    assert!(!b.is_unsolvable());
    b.board[40].keep_only_possible_cell_value(5);
    b.board[40].remove_possible_cell_value(5);
    assert!(b.is_unsolvable());
}

#[test]
fn is_solved_requires_every_cell_assigned() {
    let mut b = GameBoard::new();
    assert!(!b.is_solved());
    for k in 0..81 {
        b.board[k].set_value(1 + (k % 9));
    }
    assert!(b.is_solved());
}

#[test]
fn distribution_leaves_a_board_without_hidden_singles_alone() {
    let mut b = GameBoard::new();
    b.set_possible_values_by_distribution();
    for k in 0..81 {
        assert_eq!(b.board[k].possible_values, vec![1, 2, 3, 4, 5, 6, 7, 8, 9]);
    }
}

#[test]
fn short_segments_leave_wide_domains_alone() {
    let mut b = GameBoard::new();
    b.set_possible_values_by_short_segments();
    for k in 0..81 {
        assert_eq!(b.board[k].possible_values, vec![1, 2, 3, 4, 5, 6, 7, 8, 9]);
    }
}
