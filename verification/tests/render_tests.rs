use sudoku::{Cell, Sudoku};

#[test]
fn format_matrix_draws_fixed_width_block() {
    let mut board = Sudoku::new();
    board.set_cell(0, 0, Cell::FinalValue(5)).unwrap();
    board.set_cell(0, 1, Cell::PossibleValues(vec![1, 2])).unwrap();

    let unknown_row = "? ? ? |? ? ? |? ? ? \n";
    let sep = "+-----+-----+-----+\n";
    let mut expected = String::new();
    expected.push_str("5 * ? |? ? ? |? ? ? \n");
    expected.push_str(unknown_row);
    expected.push_str(unknown_row);
    expected.push_str(sep);
    expected.push_str(unknown_row);
    expected.push_str(unknown_row);
    expected.push_str(unknown_row);
    expected.push_str(sep);
    expected.push_str(unknown_row);
    expected.push_str(unknown_row);
    expected.push_str(unknown_row);
    expected.push_str(sep);

    assert_eq!(board.format_matrix(), expected);
}
