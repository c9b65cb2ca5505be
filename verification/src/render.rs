use vstd::prelude::*;
use vstd::string::StringExecFns;

use crate::cell::Cell;
use crate::grid::{Sudoku, GRID_SIZE};

verus! {

/// The horizontal separator drawn after every third row and at the bottom.
pub open spec fn sep_line() -> Seq<char> {
    "+-----+-----+-----+\n"@
}

/// The two characters drawn for one cell: the digit of a final value (a
/// value outside 0..=9 is drawn as '#' to keep the block fixed-width), '*'
/// for a candidate set, '?' for an unknown cell, each followed by a space.
pub open spec fn cell_chars(c: Cell) -> Seq<char> {
    match c {
        Cell::FinalValue(v) => {
            if v == 0 {
                "0 "@
            } else if v == 1 {
                "1 "@
            } else if v == 2 {
                "2 "@
            } else if v == 3 {
                "3 "@
            } else if v == 4 {
                "4 "@
            } else if v == 5 {
                "5 "@
            } else if v == 6 {
                "6 "@
            } else if v == 7 {
                "7 "@
            } else if v == 8 {
                "8 "@
            } else if v == 9 {
                "9 "@
            } else {
                "# "@
            }
        },
        Cell::PossibleValues(_) => "* "@,
        Cell::UnknownState => "? "@,
    }
}

/// The first `j` cells of row `i`, with a vertical separator before every
/// third cell but the first.
pub open spec fn row_chars(g: Sudoku, i: int, j: int) -> Seq<char>
    decreases j,
{
    if j <= 0 {
        Seq::empty()
    } else {
        row_chars(g, i, j - 1) + (if j - 1 > 0 && (j - 1) % 3 == 0 {
            "|"@
        } else {
            Seq::<char>::empty()
        }) + cell_chars(g.cell_at(i, j - 1))
    }
}

/// The first `i` full rows, each ended by a newline, with a separator line
/// before every third row but the first.
pub open spec fn grid_chars(g: Sudoku, i: int) -> Seq<char>
    decreases i,
{
    if i <= 0 {
        Seq::empty()
    } else {
        grid_chars(g, i - 1) + (if i - 1 > 0 && (i - 1) % 3 == 0 {
            sep_line()
        } else {
            Seq::<char>::empty()
        }) + row_chars(g, i - 1, GRID_SIZE as int) + "\n"@
    }
}

/// The complete fixed-width text block for a grid.
pub open spec fn rendered(g: Sudoku) -> Seq<char> {
    grid_chars(g, GRID_SIZE as int) + sep_line()
}

/// What the rows up to `i`, plus row `i`'s leading separator line if it has
/// one, contribute to the text.
pub open spec fn row_prefix(g: Sudoku, i: int) -> Seq<char> {
    grid_chars(g, i) + (if i > 0 && i % 3 == 0 {
        sep_line()
    } else {
        Seq::<char>::empty()
    })
}

/// The fixed-width text for one cell.
fn cell_text(c: &Cell) -> (r: &'static str)
    ensures
        r@ == cell_chars(*c),
{
    match c {
        Cell::FinalValue(v) => match *v {
            0 => "0 ",
            1 => "1 ",
            2 => "2 ",
            3 => "3 ",
            4 => "4 ",
            5 => "5 ",
            6 => "6 ",
            7 => "7 ",
            8 => "8 ",
            9 => "9 ",
            _ => "# ",
        },
        Cell::PossibleValues(_) => "* ",
        Cell::UnknownState => "? ",
    }
}

impl Sudoku {
    /// Renders the grid as fixed-width text: one line per row, a glyph per
    /// cell, vertical separators after every third column, separator lines
    /// after every third row and a trailing separator line.
    pub fn format_matrix(&self) -> (r: String)
        requires
            self.wf(),
        ensures
            r@ == rendered(*self),
    {
        let mut out = String::new();
        let mut i: usize = 0;
        while i < GRID_SIZE
            invariant
                self.wf(),
                i <= GRID_SIZE,
                out@ == grid_chars(*self, i as int),
            decreases GRID_SIZE - i,
        {
            if i > 0 && i % 3 == 0 {
                out.append("+-----+-----+-----+\n");
            }
            proof {
                assert(out@ =~= row_prefix(*self, i as int) + row_chars(*self, i as int, 0));
            }
            let mut j: usize = 0;
            while j < GRID_SIZE
                invariant
                    self.wf(),
                    i < GRID_SIZE,
                    j <= GRID_SIZE,
                    out@ == row_prefix(*self, i as int) + row_chars(*self, i as int, j as int),
                decreases GRID_SIZE - j,
            {
                if j > 0 && j % 3 == 0 {
                    out.append("|");
                }
                match self.get_cell(i, j) {
                    Some(c) => {
                        let t = cell_text(c);
                        out.append(t);
                    },
                    None => {
                        proof {
                            assert(false);
                        }
                    },
                }
                proof {
                    assert(out@ =~= row_prefix(*self, i as int) + row_chars(
                        *self,
                        i as int,
                        j + 1,
                    ));
                }
                j += 1;
            }
            out.append("\n");
            proof {
                assert(out@ =~= grid_chars(*self, i + 1));
            }
            i += 1;
        }
        out.append("+-----+-----+-----+\n");
        proof {
            assert(out@ =~= rendered(*self));
        }
        out
    }
}

} // verus!
