use sudoku::{Cell, Error, Sudoku};

fn candidate_count(board: &Sudoku, i: usize, j: usize) -> usize {
    match board.get_cell(i, j) {
        Some(Cell::FinalValue(_)) => 1,
        Some(Cell::PossibleValues(vs)) => vs.len(),
        Some(Cell::UnknownState) => 9,
        None => panic!("Wrong value"),
    }
}

#[test]
fn is_solved_reports_candidates_and_unknowns() {
    let mut board = Sudoku::new();
    assert!(!board.is_solved());

    board.set_cell(4, 4, Cell::PossibleValues(vec![1])).unwrap();
    assert!(!board.is_solved());

    for i in 0..9usize {
        for j in 0..9usize {
            board.set_cell(i, j, Cell::FinalValue(1 + (i + j) % 9)).unwrap();
        }
    }
    assert!(board.is_solved());
}

#[test]
fn solve_completes_a_nearly_full_row() {
    let mut board = Sudoku::new();
    for j in 0..8usize {
        board.set_cell(0, j, Cell::FinalValue(j + 1)).unwrap();
    }
    board.solve().unwrap();
    match board.get_cell(0, 8) {
        Some(Cell::FinalValue(v)) => assert_eq!(v, &9),
        _ => panic!("Wrong value"),
    }
    for j in 0..8usize {
        match board.get_cell(0, j) {
            Some(Cell::FinalValue(v)) => assert_eq!(*v, j + 1),
            _ => panic!("Wrong value"),
        }
    }
}

#[test]
fn solve_on_empty_grid_converges_without_solving() {
    let mut board = Sudoku::new();
    board.solve().unwrap();
    assert!(!board.is_solved());
    match board.get_cell(0, 0) {
        Some(Cell::PossibleValues(vs)) => {
            assert_eq!(vs, &vec![1, 2, 3, 4, 5, 6, 7, 8, 9]);
        },
        _ => panic!("Wrong value"),
    }
}

#[test]
fn solve_reports_contradiction() {
    let mut board = Sudoku::new();
    // Row 0 uses 2..=9 and column 0 also uses 1: nothing is left for (0, 0).
    for j in 1..9usize {
        board.set_cell(0, j, Cell::FinalValue(j + 1)).unwrap();
    }
    board.set_cell(1, 0, Cell::FinalValue(1)).unwrap();
    assert_eq!(board.solve(), Err(Error::Contradiction));
}

#[test]
fn elimination_pass_never_widens_a_cell() {
    let mut board = Sudoku::new();
    board.set_cell(0, 0, Cell::FinalValue(1)).unwrap();
    board.set_cell(0, 4, Cell::FinalValue(5)).unwrap();
    board.set_cell(3, 0, Cell::FinalValue(7)).unwrap();
    board.set_cell(4, 4, Cell::FinalValue(2)).unwrap();
    board.set_cell(8, 8, Cell::FinalValue(9)).unwrap();

    board.eliminate_pass().unwrap();
    let after_first = board.clone_board();
    board.eliminate_pass().unwrap();

    for i in 0..9usize {
        for j in 0..9usize {
            assert!(candidate_count(&board, i, j) <= candidate_count(&after_first, i, j));
            if let Some(Cell::FinalValue(v)) = after_first.get_cell(i, j) {
                match board.get_cell(i, j) {
                    Some(Cell::FinalValue(w)) => assert_eq!(w, v),
                    _ => panic!("Wrong value"),
                }
            }
        }
    }
}
