use sudoku_solver::cell::{CellState, GameCell};

#[test]
fn new_cell_is_open_with_full_domain() {
    let c = GameCell::new();
    assert_eq!(c.value, 0);
    assert_eq!(c.possible_values, vec![1, 2, 3, 4, 5, 6, 7, 8, 9]);
    assert_eq!(c.state, CellState::Unsolved);
}

#[test]
fn remove_possible_cell_value_drops_only_that_value() {
    let mut c = GameCell::new();
    c.remove_possible_cell_value(4);
    assert_eq!(c.possible_values, vec![1, 2, 3, 5, 6, 7, 8, 9]);
    // removing an absent value is a no-op, not an error
    c.remove_possible_cell_value(4);
    assert_eq!(c.possible_values, vec![1, 2, 3, 5, 6, 7, 8, 9]);
}

#[test]
fn remove_possible_cell_value_ignores_assigned_cells() {
    let mut c = GameCell::new();
    c.set_value(7);
    c.remove_possible_cell_value(7);
    assert_eq!(c.value, 7);
    assert!(c.possible_values.is_empty());
}

#[test]
fn keep_only_possible_cell_value_narrows_to_singleton() {
    let mut c = GameCell::new();
    c.keep_only_possible_cell_value(6);
    assert_eq!(c.possible_values, vec![6]);
}

#[test]
fn keep_only_possible_cell_value_pair_narrows_to_pair() {
    let mut c = GameCell::new();
    c.keep_only_possible_cell_value_pair((3, 8));
    assert_eq!(c.possible_values, vec![3, 8]);
    // intersects with the current candidates
    c.keep_only_possible_cell_value_pair((8, 9));
    assert_eq!(c.possible_values, vec![8]);
}

#[test]
fn set_value_clears_candidates_and_zero_reopens() {
    let mut c = GameCell::new();
    c.set_value(5);
    assert_eq!(c.value, 5);
    assert!(c.possible_values.is_empty());
    c.set_value(0);
    assert_eq!(c.value, 0);
    assert_eq!(c.possible_values, vec![1, 2, 3, 4, 5, 6, 7, 8, 9]);
}

#[test]
fn check_possible_assigns_a_lone_candidate() {
    let mut c = GameCell::new();
    c.keep_only_possible_cell_value(2);
    let changed = c.check_possible();
    assert!(changed);
    assert_eq!(c.value, 2);
    assert!(c.possible_values.is_empty());
    assert_eq!(c.state, CellState::New);
}

#[test]
fn check_possible_leaves_wider_cells_alone() {
    let mut c = GameCell::new();
    let changed = c.check_possible();
    assert!(!changed);
    assert_eq!(c.value, 0);
    assert_eq!(c.possible_values.len(), 9);
}

#[test]
fn state_tags_follow_the_lifecycle() {
    let mut c = GameCell::new();
    c.set_value(3);
    c.set_initial();
    assert_eq!(c.state, CellState::Initial);
    c.set_newly_solved();
    assert_eq!(c.state, CellState::New);
    c.set_previously_solved();
    assert_eq!(c.state, CellState::Solved);
    // demotion only applies to newly solved cells
    c.set_previously_solved();
    assert_eq!(c.state, CellState::Solved);
    c.set_guessed();
    assert_eq!(c.state, CellState::Guess);
    let mut open = GameCell::new();
    open.set_initial();
    assert_eq!(open.state, CellState::Unsolved);
}
