use vstd::prelude::*;

use crate::cell::{Cell, Error};

verus! {

/// Number of rows and columns of the grid, and the largest puzzle value.
pub const GRID_SIZE: usize = 9;

/// Both coordinates address a position inside the grid.
pub open spec fn valid_coords(row: int, col: int) -> bool {
    0 <= row < GRID_SIZE && 0 <= col < GRID_SIZE
}

/// The fixed 9 x 9 arrangement of cells under solution, addressed by
/// (row, col). Created with every cell unknown and mutated only through the
/// assignment operations.
pub struct Sudoku {
    matrix: Vec<Vec<Cell>>,
    size: usize,
}

/// `post` is `pre` with exactly the cell at (row, col) replaced by `c`.
pub open spec fn grid_updated(pre: Sudoku, post: Sudoku, row: int, col: int, c: Cell) -> bool {
    &&& post.wf()
    &&& post.cell_at(row, col) == c
    &&& forall|i: int, j: int|
        valid_coords(i, j) && !(i == row && j == col) ==> #[trigger] post.cell_at(i, j)
            == pre.cell_at(i, j)
}

impl Sudoku {
    /// Well-formedness: the grid is exactly 9 rows of 9 cells.
    pub closed spec fn wf(self) -> bool {
        &&& self.size == GRID_SIZE
        &&& self.matrix@.len() == GRID_SIZE
        &&& forall|i: int|
            0 <= i < GRID_SIZE ==> (#[trigger] self.matrix@[i])@.len() == GRID_SIZE
    }

    /// The cell stored at (row, col).
    pub closed spec fn cell_at(self, row: int, col: int) -> Cell {
        self.matrix@[row]@[col]
    }

    /// A fresh grid with every cell in the unknown state.
    pub fn new() -> (r: Sudoku)
        ensures
            r.wf(),
            forall|i: int, j: int|
                valid_coords(i, j) ==> (#[trigger] r.cell_at(i, j)) is UnknownState,
    {
        let mut matrix: Vec<Vec<Cell>> = Vec::new();
        while matrix.len() < GRID_SIZE
            invariant
                matrix@.len() <= GRID_SIZE,
                forall|i: int|
                    0 <= i < matrix@.len() ==> (#[trigger] matrix@[i])@.len() == GRID_SIZE,
                forall|i: int, j: int|
                    0 <= i < matrix@.len() && 0 <= j < GRID_SIZE ==> (#[trigger] matrix@[i]@[j])
                        is UnknownState,
            decreases GRID_SIZE - matrix.len(),
        {
            let mut row: Vec<Cell> = Vec::new();
            while row.len() < GRID_SIZE
                invariant
                    row@.len() <= GRID_SIZE,
                    forall|j: int| 0 <= j < row@.len() ==> (#[trigger] row@[j]) is UnknownState,
                decreases GRID_SIZE - row.len(),
            {
                row.push(Cell::UnknownState);
            }
            matrix.push(row);
        }
        Sudoku { matrix, size: GRID_SIZE }
    }

    /// The cell at (x, y) when both coordinates lie inside the grid; absence,
    /// never an error, otherwise.
    pub fn get_cell(&self, x: usize, y: usize) -> (r: Option<&Cell>)
        requires
            self.wf(),
        ensures
            x < GRID_SIZE && y < GRID_SIZE ==> (r matches Some(c) && *c == self.cell_at(
                x as int,
                y as int,
            )),
            !(x < GRID_SIZE && y < GRID_SIZE) ==> r is None,
    {
        if x < self.size && y < self.size {
            Some(&self.matrix[x][y])
        } else {
            None
        }
    }

    /// Replaces the cell at (x, y) in place. Fails with `OutOfRange`, leaving
    /// the grid unchanged, when either coordinate reaches the grid size; no
    /// other validation is performed.
    pub fn set_cell(&mut self, x: usize, y: usize, cell: Cell) -> (r: Result<(), Error>)
        requires
            old(self).wf(),
        ensures
            final(self).wf(),
            r is Ok <==> x < GRID_SIZE && y < GRID_SIZE,
            x < GRID_SIZE && y < GRID_SIZE ==> grid_updated(
                *old(self),
                *final(self),
                x as int,
                y as int,
                cell,
            ),
            !(x < GRID_SIZE && y < GRID_SIZE) ==> *final(self) == *old(self) && r
                == Result::<(), Error>::Err(Error::OutOfRange),
    {
        if x < self.size && y < self.size {
            self.matrix[x][y] = cell;
            Ok(())
        } else {
            Err(Error::OutOfRange)
        }
    }

    /// Assignment from a plain list of candidate values: a single value
    /// becomes `FinalValue`, several become `PossibleValues`, and an empty
    /// list fails with `EmptyValueSet`. Coordinates are checked first.
    pub fn set_cell_values(&mut self, x: usize, y: usize, values: Vec<usize>) -> (r: Result<
        (),
        Error,
    >)
        requires
            old(self).wf(),
        ensures
            final(self).wf(),
            r is Ok <==> (x < GRID_SIZE && y < GRID_SIZE && values@.len() > 0),
            !(x < GRID_SIZE && y < GRID_SIZE) ==> *final(self) == *old(self) && r
                == Result::<(), Error>::Err(Error::OutOfRange),
            x < GRID_SIZE && y < GRID_SIZE && values@.len() == 0 ==> *final(self) == *old(self)
                && r == Result::<(), Error>::Err(Error::EmptyValueSet),
            x < GRID_SIZE && y < GRID_SIZE && values@.len() == 1 ==> grid_updated(
                *old(self),
                *final(self),
                x as int,
                y as int,
                Cell::FinalValue(values@[0]),
            ),
            x < GRID_SIZE && y < GRID_SIZE && values@.len() >= 2 ==> grid_updated(
                *old(self),
                *final(self),
                x as int,
                y as int,
                Cell::PossibleValues(values),
            ),
    {
        if x < GRID_SIZE && y < GRID_SIZE {
            if values.len() == 0 {
                Err(Error::EmptyValueSet)
            } else if values.len() == 1 {
                let v = values[0];
                self.set_cell(x, y, Cell::FinalValue(v))
            } else {
                self.set_cell(x, y, Cell::PossibleValues(values))
            }
        } else {
            Err(Error::OutOfRange)
        }
    }

    /// A fully independent deep copy of the grid, sharing no ownership with
    /// the original.
    pub fn clone_board(&self) -> (r: Sudoku)
        requires
            self.wf(),
        ensures
            r.wf(),
            forall|i: int, j: int|
                valid_coords(i, j) ==> (#[trigger] r.cell_at(i, j)).eqv(self.cell_at(i, j)),
    {
        let mut matrix: Vec<Vec<Cell>> = Vec::new();
        let mut i: usize = 0;
        while i < GRID_SIZE
            invariant
                self.wf(),
                i <= GRID_SIZE,
                matrix@.len() == i,
                forall|a: int|
                    0 <= a < i ==> (#[trigger] matrix@[a])@.len() == GRID_SIZE,
                forall|a: int, b: int|
                    0 <= a < i && 0 <= b < GRID_SIZE ==> (#[trigger] matrix@[a]@[b]).eqv(
                        self.cell_at(a, b),
                    ),
            decreases GRID_SIZE - i,
        {
            let mut row: Vec<Cell> = Vec::new();
            let mut j: usize = 0;
            while j < GRID_SIZE
                invariant
                    self.wf(),
                    i < GRID_SIZE,
                    j <= GRID_SIZE,
                    row@.len() == j,
                    forall|b: int|
                        0 <= b < j ==> (#[trigger] row@[b]).eqv(self.cell_at(i as int, b)),
                decreases GRID_SIZE - j,
            {
                let c = match self.get_cell(i, j) {
                    Some(c) => c.duplicate(),
                    None => Cell::UnknownState,
                };
                row.push(c);
                j += 1;
            }
            matrix.push(row);
            i += 1;
        }
        Sudoku { matrix, size: GRID_SIZE }
    }
}

/// Law: writing a cell and then reading the same coordinates yields exactly
/// the cell just written.
pub proof fn lemma_set_then_get(pre: Sudoku, post: Sudoku, x: usize, y: usize, c: Cell)
    requires
        x < GRID_SIZE,
        y < GRID_SIZE,
        grid_updated(pre, post, x as int, y as int, c),
    ensures
        post.cell_at(x as int, y as int) == c,
{
}

} // verus!
