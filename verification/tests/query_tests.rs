use sudoku::{Cell, Error, Sudoku};

#[test]
fn test_setters_and_getters() {
    let mut board = Sudoku::new();
    board.set_cell(0, 0, Cell::PossibleValues(vec![1, 4, 7])).unwrap();
    board.set_cell(0, 7, Cell::PossibleValues(vec![2, 4, 7, 8, 9])).unwrap();
    board.set_cell(1, 0, Cell::FinalValue(2)).unwrap();
    board.set_cell(2, 0, Cell::FinalValue(3)).unwrap();
    board.set_cell(3, 0, Cell::FinalValue(5)).unwrap();
    board.set_cell(4, 0, Cell::FinalValue(6)).unwrap();
    board.set_cell(5, 0, Cell::FinalValue(7)).unwrap();
    board.set_cell(6, 0, Cell::PossibleValues(vec![8, 9])).unwrap();

    assert_eq!(board.set_cell(19, 1, Cell::FinalValue(0)), Err(Error::OutOfRange));

    match board.get_cell(1, 0) {
        Some(Cell::FinalValue(v)) => assert_eq!(v, &2),
        _ => panic!("Wrong value"),
    }

    match board.get_cell(100, 0) {
        Some(_) => panic!("Should not have return something"),
        _ => {},
    }

    // The queries report finally assigned values only: candidate cells do not
    // contribute, so row 0 holds none and column 0 exactly the five finals.
    assert_eq!(board.get_col(0), Ok(vec![2, 3, 5, 6, 7]));
    assert_eq!(board.get_row(0), Ok(vec![]));
    assert_eq!(board.get_region(0, 1), Ok(vec![2, 3]));
}

#[test]
fn query_results_are_ascending_and_duplicate_free() {
    let mut board = Sudoku::new();
    board.set_cell(2, 0, Cell::FinalValue(7)).unwrap();
    board.set_cell(2, 4, Cell::FinalValue(3)).unwrap();
    board.set_cell(2, 8, Cell::FinalValue(7)).unwrap();
    assert_eq!(board.get_row(2), Ok(vec![3, 7]));

    board.set_cell(0, 5, Cell::FinalValue(9)).unwrap();
    board.set_cell(4, 5, Cell::FinalValue(1)).unwrap();
    board.set_cell(8, 5, Cell::FinalValue(9)).unwrap();
    assert_eq!(board.get_col(5), Ok(vec![1, 9]));

    board.set_cell(6, 6, Cell::FinalValue(5)).unwrap();
    board.set_cell(7, 7, Cell::FinalValue(2)).unwrap();
    board.set_cell(8, 8, Cell::FinalValue(5)).unwrap();
    assert_eq!(board.get_region(8, 6), Ok(vec![2, 5]));
}

#[test]
fn queries_report_every_final_value() {
    // set_cell accepts a final value outside 1..=9 uncritically; the queries
    // still report it.
    let mut board = Sudoku::new();
    board.set_cell(0, 0, Cell::FinalValue(0)).unwrap();
    board.set_cell(0, 5, Cell::FinalValue(42)).unwrap();
    board.set_cell(3, 0, Cell::FinalValue(3)).unwrap();
    assert_eq!(board.get_row(0), Ok(vec![0, 42]));
    assert_eq!(board.get_col(0), Ok(vec![0, 3]));
    assert_eq!(board.get_region(1, 1), Ok(vec![0]));
    assert_eq!(board.get_region(0, 5), Ok(vec![42]));
}

#[test]
fn query_out_of_range_fails() {
    let board = Sudoku::new();
    assert_eq!(board.get_row(9), Err(Error::OutOfRange));
    assert_eq!(board.get_col(9), Err(Error::OutOfRange));
    assert_eq!(board.get_region(9, 0), Err(Error::OutOfRange));
    assert_eq!(board.get_region(0, 9), Err(Error::OutOfRange));
}

#[test]
fn region_values_twice_is_identical() {
    let mut board = Sudoku::new();
    board.set_cell(3, 3, Cell::FinalValue(4)).unwrap();
    board.set_cell(4, 4, Cell::FinalValue(8)).unwrap();
    board.set_cell(5, 5, Cell::PossibleValues(vec![1, 2])).unwrap();

    let first = board.get_region(4, 4);
    let second = board.get_region(4, 4);
    assert_eq!(first, second);
    assert_eq!(first, Ok(vec![4, 8]));
}
