use sudoku::{Cell, Error, Sudoku};

#[test]
fn test_reader() {
    let board: Sudoku = Sudoku::load_csv("1,1,3\n1,2,4\n5,6,7\n").unwrap();
    match board.get_cell(1, 1) {
        Some(Cell::FinalValue(v)) => assert_eq!(v, &3),
        _ => panic!("Wrong value"),
    }

    match board.get_cell(1, 2) {
        Some(Cell::FinalValue(v)) => assert_eq!(v, &4),
        _ => panic!("Wrong value"),
    }

    match board.get_cell(5, 6) {
        Some(Cell::FinalValue(v)) => assert_eq!(v, &7),
        _ => panic!("Wrong value"),
    }
}

#[test]
fn loader_leaves_unlisted_cells_unknown() {
    let board = Sudoku::load_csv("0,0,5\n").unwrap();
    assert!(matches!(board.get_cell(0, 0), Some(Cell::FinalValue(5))));
    for i in 0..9usize {
        for j in 0..9usize {
            if (i, j) != (0, 0) {
                assert!(matches!(board.get_cell(i, j), Some(Cell::UnknownState)));
            }
        }
    }
}

#[test]
fn loader_last_record_wins() {
    let board = Sudoku::load_csv("2,3,1\n2,3,8\n").unwrap();
    assert!(matches!(board.get_cell(2, 3), Some(Cell::FinalValue(8))));
}

#[test]
fn loader_rejects_malformed_records() {
    assert_eq!(Sudoku::load_csv("a,b,c\n").map(|_| ()), Err(Error::MalformedInput));
    assert_eq!(Sudoku::load_csv("1,2\n").map(|_| ()), Err(Error::MalformedInput));
    assert_eq!(Sudoku::load_csv("1,2,-3\n").map(|_| ()), Err(Error::MalformedInput));
}

#[test]
fn loader_rejects_out_of_range_records() {
    assert_eq!(Sudoku::load_csv("9,0,1\n").map(|_| ()), Err(Error::OutOfRange));
    assert_eq!(Sudoku::load_csv("0,9,1\n").map(|_| ()), Err(Error::OutOfRange));
}

#[test]
fn loader_accepts_empty_input() {
    let board = Sudoku::load_csv("").unwrap();
    assert!(matches!(board.get_cell(4, 4), Some(Cell::UnknownState)));
}

#[test]
fn load_records_applies_in_order() {
    let board = sudoku::loader::load_records(&vec![(0, 0, 2), (8, 8, 6), (0, 0, 4)]).unwrap();
    assert!(matches!(board.get_cell(0, 0), Some(Cell::FinalValue(4))));
    assert!(matches!(board.get_cell(8, 8), Some(Cell::FinalValue(6))));
    assert_eq!(
        sudoku::loader::load_records(&vec![(0, 0, 2), (9, 9, 6)]).map(|_| ()),
        Err(Error::OutOfRange)
    );
}
