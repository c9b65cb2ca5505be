use sudoku::{Cell, Error, Sudoku};

#[test]
fn test_update_cell() {
    let x: usize = 9;
    let mut board = Sudoku::new();

    board.set_cell(1, 2, Cell::FinalValue(x)).unwrap();
    match board.get_cell(1, 2) {
        Some(Cell::FinalValue(v)) => assert_eq!(v, &x),
        _ => panic!("Wrong value"),
    }
}

#[test]
fn set_cell_out_of_range_leaves_grid_unchanged() {
    let mut board = Sudoku::new();
    board.set_cell(3, 4, Cell::FinalValue(6)).unwrap();

    assert_eq!(board.set_cell(9, 0, Cell::FinalValue(1)), Err(Error::OutOfRange));
    assert_eq!(board.set_cell(0, 9, Cell::FinalValue(1)), Err(Error::OutOfRange));
    assert_eq!(board.set_cell(100, 100, Cell::UnknownState), Err(Error::OutOfRange));

    match board.get_cell(3, 4) {
        Some(Cell::FinalValue(v)) => assert_eq!(v, &6),
        _ => panic!("Wrong value"),
    }
    for i in 0..9usize {
        for j in 0..9usize {
            if (i, j) != (3, 4) {
                assert!(matches!(board.get_cell(i, j), Some(Cell::UnknownState)));
            }
        }
    }
}

#[test]
fn get_cell_out_of_range_is_absence() {
    let board = Sudoku::new();
    assert!(board.get_cell(9, 0).is_none());
    assert!(board.get_cell(0, 9).is_none());
    assert!(board.get_cell(100, 100).is_none());
    assert!(board.get_cell(8, 8).is_some());
}

#[test]
fn set_cell_values_rejects_empty_list() {
    let mut board = Sudoku::new();
    assert_eq!(board.set_cell_values(0, 0, vec![]), Err(Error::EmptyValueSet));
    assert!(matches!(board.get_cell(0, 0), Some(Cell::UnknownState)));

    // Out-of-range coordinates dominate the empty-list check.
    assert_eq!(board.set_cell_values(9, 0, vec![]), Err(Error::OutOfRange));
}

#[test]
fn set_cell_values_singleton_becomes_final() {
    let mut board = Sudoku::new();
    board.set_cell_values(2, 3, vec![7]).unwrap();
    match board.get_cell(2, 3) {
        Some(Cell::FinalValue(v)) => assert_eq!(v, &7),
        _ => panic!("Wrong value"),
    }
    board.set_cell_values(2, 4, vec![1, 5, 9]).unwrap();
    match board.get_cell(2, 4) {
        Some(Cell::PossibleValues(vs)) => assert_eq!(vs, &vec![1, 5, 9]),
        _ => panic!("Wrong value"),
    }
}

#[test]
fn clone_board_is_independent() {
    let mut board = Sudoku::new();
    board.set_cell(0, 0, Cell::FinalValue(4)).unwrap();
    board.set_cell(1, 1, Cell::PossibleValues(vec![2, 8])).unwrap();

    let copy = board.clone_board();
    board.set_cell(0, 0, Cell::FinalValue(9)).unwrap();
    board.set_cell(1, 1, Cell::UnknownState).unwrap();

    match copy.get_cell(0, 0) {
        Some(Cell::FinalValue(v)) => assert_eq!(v, &4),
        _ => panic!("Wrong value"),
    }
    match copy.get_cell(1, 1) {
        Some(Cell::PossibleValues(vs)) => assert_eq!(vs, &vec![2, 8]),
        _ => panic!("Wrong value"),
    }
}

#[test]
fn remove_value_narrows_and_collapses() {
    let c = Cell::PossibleValues(vec![1, 2, 3]);
    match c.remove_value(2) {
        Ok(Cell::PossibleValues(vs)) => assert_eq!(vs, vec![1, 3]),
        _ => panic!("Wrong value"),
    }

    let c = Cell::PossibleValues(vec![1, 2]);
    match c.remove_value(2) {
        Ok(Cell::FinalValue(v)) => assert_eq!(v, 1),
        _ => panic!("Wrong value"),
    }

    let c = Cell::PossibleValues(vec![2]);
    assert!(matches!(c.remove_value(2), Err(Error::Contradiction)));

    let c = Cell::FinalValue(5);
    assert!(matches!(c.remove_value(5), Err(Error::UnsupportedCellOperation)));

    let c = Cell::UnknownState;
    assert!(matches!(c.remove_value(1), Err(Error::UnsupportedCellOperation)));
}
