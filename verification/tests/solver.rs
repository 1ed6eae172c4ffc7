use sudoku::SudokuBoard;

const PUZZLE: &str = "\
53..7....\
6..195...\
.98....6.\
8...6...3\
4..8.3..1\
7...2...6\
.6....28.\
...419..5\
....8..79";

const SOLUTION: &str = "\
534678912\
672195348\
198342567\
859761423\
426853791\
713924856\
961537284\
287419635\
345286179";

fn grid(text: &str) -> SudokuBoard {
    SudokuBoard::parse(text).unwrap()
}

#[test]
fn solves_a_puzzle_with_one_solution() {
    let mut board = grid(PUZZLE);
    assert!(board.solve());
    assert_eq!(board, grid(SOLUTION));
}

#[test]
fn solved_board_is_full_and_valid() {
    let mut board = grid(PUZZLE);
    assert!(board.solve());
    assert!(board.is_full());
    assert!(board.check());
}

#[test]
fn solving_keeps_the_givens() {
    let given = grid(PUZZLE);
    let mut board = given.clone();
    assert!(board.solve());
    for row in 0..9 {
        for col in 0..9 {
            match given.get(row, col) {
                Some(v) => assert_eq!(board.get(row, col), Some(v)),
                None => {
                    let v = board.get(row, col).unwrap();
                    assert!(1 <= v && v <= 9);
                }
            }
        }
    }
}

#[test]
fn full_valid_board_is_its_own_solution() {
    let mut board = grid(SOLUTION);
    assert!(board.solve());
    assert_eq!(board, grid(SOLUTION));
}

#[test]
fn full_invalid_board_has_no_solution() {
    let mut board = grid(SOLUTION);
    board.set(0, 0, Some(3));
    let before = board.clone();
    assert!(!board.solve());
    assert_eq!(board, before);
}

#[test]
fn repeat_in_a_row_has_no_solution_and_leaves_the_board() {
    let mut board = SudokuBoard::new();
    board.set(0, 2, Some(5));
    board.set(0, 6, Some(5));
    let before = board.clone();
    assert!(!board.solve());
    assert_eq!(board, before);
    assert_eq!(board.get(0, 2), Some(5));
    assert_eq!(board.get(0, 6), Some(5));
    assert_eq!(board.get(0, 0), None);
}

#[test]
fn valid_board_without_a_solution_is_left_as_it_was() {
    // The last cell of the first row can take no number: 1 to 8 stand in its
    // row and 9 in its column.
    let mut board = grid("12345678.");
    board.set(5, 8, Some(9));
    assert!(board.check());
    let before = board.clone();
    assert!(!board.solve());
    assert_eq!(board, before);
}

#[test]
fn failure_deep_in_the_search_clears_every_trial() {
    // The first row lacks 8 and 9. Its last cell but one can only take 9,
    // and then nothing is left for its last cell.
    let mut board = grid("1234567..");
    board.set(5, 7, Some(8));
    board.set(6, 8, Some(8));
    assert!(board.check());
    let before = board.clone();
    assert!(!board.solve());
    assert_eq!(board, before);
}

#[test]
fn empty_board_gets_the_first_solution() {
    let mut board = SudokuBoard::new();
    assert!(board.solve());
    let first = "\
        123456789\
        456789123\
        789123456\
        214365897\
        365897214\
        897214365\
        531642978\
        642978531\
        978531642";
    assert_eq!(board, grid(first));
}

#[test]
fn of_two_solutions_the_first_is_found() {
    // Cells (0,3), (0,4), (3,3), (3,4) can hold 6 7 / 7 6 or 7 6 / 6 7.
    let open = "\
        534..8912\
        672195348\
        198342567\
        859..1423\
        426853791\
        713924856\
        961537284\
        287419635\
        345286179";
    let mut board = grid(open);
    assert!(board.solve());
    assert_eq!(board.get(0, 3), Some(6));
    assert_eq!(board.get(0, 4), Some(7));
    assert_eq!(board.get(3, 3), Some(7));
    assert_eq!(board.get(3, 4), Some(6));
    assert_eq!(board, grid(SOLUTION));

    let mut other = grid(SOLUTION);
    other.set(0, 3, Some(7));
    other.set(0, 4, Some(6));
    other.set(3, 3, Some(6));
    other.set(3, 4, Some(7));
    assert!(other.check());
}

#[test]
fn one_missing_cell_is_filled() {
    let mut board = grid(SOLUTION);
    board.set(4, 4, None);
    assert!(board.solve());
    assert_eq!(board.get(4, 4), Some(5));
    assert_eq!(board, grid(SOLUTION));
}

#[test]
fn a_given_zero_is_kept_and_counts_as_a_number() {
    // With 0 in the first row, that row needs eight of the numbers 1 to 9.
    let mut board = grid("0");
    assert!(board.solve());
    assert_eq!(board.get(0, 0), Some(0));
    assert!(board.is_full());
    assert!(board.check());
    assert_eq!(board.get(0, 1), Some(1));
}
