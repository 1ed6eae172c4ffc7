use sudoku::SudokuBoard;

const SOLVED: &str = "\
534678912\
672195348\
198342567\
859761423\
426853791\
713924856\
961537284\
287419635\
345286179";

fn board_of(text: &str) -> SudokuBoard {
    SudokuBoard::parse(text).unwrap()
}

fn transposed(board: &SudokuBoard) -> SudokuBoard {
    let mut out = SudokuBoard::new();
    for row in 0..9 {
        for col in 0..9 {
            out.set(col, row, board.get(row, col));
        }
    }
    out
}

#[test]
fn new_board_is_empty() {
    let board = SudokuBoard::new();
    for row in 0..9 {
        for col in 0..9 {
            assert_eq!(board.get(row, col), None);
        }
    }
    assert_eq!(board.contents, [[None; 9]; 9]);
}

#[test]
fn new_board_is_valid_and_not_full() {
    let board = SudokuBoard::new();
    assert!(board.check());
    assert!(!board.is_full());
    for id in 0..9 {
        assert!(board.check_row(id));
        assert!(board.check_col(id));
        assert!(board.check_group(id));
    }
}

#[test]
fn set_changes_one_cell_only() {
    let mut board = board_of(SOLVED);
    let before = board.clone();
    board.set(4, 7, Some(1));
    for row in 0..9 {
        for col in 0..9 {
            if row == 4 && col == 7 {
                assert_eq!(board.get(row, col), Some(1));
            } else {
                assert_eq!(board.get(row, col), before.get(row, col));
            }
        }
    }
}

#[test]
fn set_can_clear_a_cell() {
    let mut board = board_of(SOLVED);
    assert_eq!(board.get(8, 8), Some(9));
    board.set(8, 8, None);
    assert_eq!(board.get(8, 8), None);
    assert_eq!(board.get(8, 7), Some(7));
}

#[test]
fn get_reads_corners() {
    let board = board_of(SOLVED);
    assert_eq!(board.get(0, 0), Some(5));
    assert_eq!(board.get(0, 8), Some(2));
    assert_eq!(board.get(8, 0), Some(3));
    assert_eq!(board.get(8, 8), Some(9));
    assert_eq!(board.get(1, 0), Some(6));
}

#[test]
fn full_board_is_full() {
    assert!(board_of(SOLVED).is_full());
}

#[test]
fn one_empty_cell_is_not_full() {
    for (row, col) in [(0, 0), (0, 8), (4, 4), (8, 0), (8, 8)] {
        let mut board = board_of(SOLVED);
        board.set(row, col, None);
        assert!(!board.is_full());
    }
}

#[test]
fn full_does_not_ask_for_valid() {
    let mut board = board_of(SOLVED);
    board.set(0, 0, Some(3));
    assert!(board.is_full());
    assert!(!board.check());
}

#[test]
fn solved_board_is_valid() {
    let board = board_of(SOLVED);
    assert!(board.check());
    for id in 0..9 {
        assert!(board.check_row(id));
        assert!(board.check_col(id));
        assert!(board.check_group(id));
    }
}

#[test]
fn repeat_in_a_row_is_found_by_that_row_only() {
    for id in 0..9 {
        let mut board = SudokuBoard::new();
        board.set(id, 0, Some(4));
        board.set(id, 8, Some(4));
        for other in 0..9 {
            assert_eq!(board.check_row(other), other != id);
            assert!(board.check_col(other));
            assert!(board.check_group(other));
        }
        assert!(!board.check());
    }
}

#[test]
fn repeat_in_a_column_is_found_by_that_column_only() {
    for id in 0..9 {
        let mut board = SudokuBoard::new();
        board.set(0, id, Some(7));
        board.set(8, id, Some(7));
        for other in 0..9 {
            assert_eq!(board.check_col(other), other != id);
            assert!(board.check_row(other));
            assert!(board.check_group(other));
        }
        assert!(!board.check());
    }
}

#[test]
fn repeat_in_a_box_is_found_by_that_box_only() {
    for id in 0..9 {
        let row_start = (id / 3) * 3;
        let col_start = (id % 3) * 3;
        let mut board = SudokuBoard::new();
        board.set(row_start, col_start, Some(2));
        board.set(row_start + 2, col_start + 1, Some(2));
        for other in 0..9 {
            assert_eq!(board.check_group(other), other != id);
            assert!(board.check_row(other));
            assert!(board.check_col(other));
        }
        assert!(!board.check());
    }
}

#[test]
fn boxes_are_numbered_row_by_row() {
    let mut board = SudokuBoard::new();
    board.set(0, 3, Some(1));
    board.set(1, 4, Some(1));
    assert!(!board.check_group(1));
    assert!(board.check_group(3));

    let mut board = SudokuBoard::new();
    board.set(3, 0, Some(1));
    board.set(4, 1, Some(1));
    assert!(!board.check_group(3));
    assert!(board.check_group(1));

    let mut board = SudokuBoard::new();
    board.set(6, 6, Some(1));
    board.set(8, 8, Some(1));
    assert!(!board.check_group(8));
    assert!(board.check_group(0));
}

#[test]
fn same_number_in_neighbouring_boxes_is_no_repeat() {
    let mut board = SudokuBoard::new();
    board.set(2, 2, Some(5));
    board.set(3, 3, Some(5));
    assert!(board.check());
}

#[test]
fn empty_cells_never_clash() {
    let mut board = SudokuBoard::new();
    board.set(0, 0, Some(1));
    board.set(0, 1, Some(2));
    assert!(board.check_row(0));
    assert!(board.check_col(0));
    assert!(board.check_group(0));
    assert!(board.check());
}

#[test]
fn any_number_counts_in_a_check() {
    let mut board = SudokuBoard::new();
    board.set(5, 1, Some(0));
    board.set(5, 7, Some(0));
    assert!(!board.check_row(5));
    assert!(!board.check());

    let mut board = SudokuBoard::new();
    board.set(5, 1, Some(0));
    board.set(5, 7, Some(4_000_000_000));
    board.set(5, 8, Some(10));
    assert!(board.check());
    board.set(5, 2, Some(4_000_000_000));
    assert!(!board.check_row(5));
}

#[test]
fn check_gives_the_same_answer_twice() {
    let valid = board_of(SOLVED);
    assert!(valid.check());
    assert!(valid.check());
    let mut invalid = board_of(SOLVED);
    invalid.set(3, 3, Some(8));
    assert!(!invalid.check());
    assert!(!invalid.check());
    assert_eq!(invalid.get(3, 3), Some(8));
}

#[test]
fn transpose_of_a_valid_board_is_valid() {
    let board = board_of(SOLVED);
    let mirrored = transposed(&board);
    assert_eq!(mirrored.get(0, 8), Some(3));
    assert_eq!(mirrored.get(8, 0), Some(2));
    assert!(mirrored.check());

    let mut partial = SudokuBoard::new();
    partial.set(0, 5, Some(9));
    partial.set(4, 5, Some(8));
    partial.set(4, 0, Some(9));
    assert!(partial.check());
    assert!(transposed(&partial).check());
}

#[test]
fn transpose_turns_a_row_repeat_into_a_column_repeat() {
    let mut board = SudokuBoard::new();
    board.set(2, 0, Some(6));
    board.set(2, 8, Some(6));
    assert!(!board.check_row(2));
    assert!(board.check_col(2));
    let mirrored = transposed(&board);
    assert!(mirrored.check_row(2));
    assert!(!mirrored.check_col(2));
    assert!(!mirrored.check());
}
