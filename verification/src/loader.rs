use vstd::prelude::*;

use crate::cell::{Cell, Error};
use crate::grid::{grid_updated, valid_coords, Sudoku, GRID_SIZE};

verus! {

/// What the delimited-text parser yields for a given input text: the
/// sequence of (row, col, value) records, or nothing when some record cannot
/// be parsed. The result depends on the text alone.
pub uninterp spec fn csv_triples(text: Seq<char>) -> Option<Seq<(usize, usize, usize)>>;

/// Relies on csv::ReaderBuilder / csv::Reader::into_deserialize: parses
/// comma-separated, unquoted records of three non-negative integers, without
/// a header line; yields nothing when any record fails to parse.
#[verifier::external_body]
fn parse_csv_triples(text: &str) -> (r: Option<Vec<(usize, usize, usize)>>)
    ensures
        r is Some <==> csv_triples(text@) is Some,
        r matches Some(records) ==> records@ == csv_triples(text@)->Some_0,
{
    let rdr = csv::ReaderBuilder::new()
        .has_headers(false)
        .delimiter(b',')
        .flexible(true)
        .double_quote(false)
        .from_reader(text.as_bytes());
    let mut out: Vec<(usize, usize, usize)> = Vec::new();
    for record in rdr.into_deserialize() {
        match record {
            Ok(triple) => out.push(triple),
            Err(_) => return None,
        }
    }
    Some(out)
}

/// The record addresses a position inside the grid.
pub open spec fn record_in_bounds(rec: (usize, usize, usize)) -> bool {
    rec.0 < GRID_SIZE && rec.1 < GRID_SIZE
}

/// The value that ends up at (row, col) after applying `recs` in order to a
/// fresh grid: the value of the last record addressing that position.
pub open spec fn last_value_for(recs: Seq<(usize, usize, usize)>, row: int, col: int) -> Option<
    usize,
>
    decreases recs.len(),
{
    if recs.len() == 0 {
        None
    } else if recs.last().0 == row && recs.last().1 == col {
        Some(recs.last().2)
    } else {
        last_value_for(recs.drop_last(), row, col)
    }
}

/// `g` is the grid that results from applying `recs`, in order, to a fresh
/// grid: each record leaves a final value, later records win, and every
/// other cell is still unknown.
pub open spec fn loaded_from(g: Sudoku, recs: Seq<(usize, usize, usize)>) -> bool {
    forall|i: int, j: int|
        valid_coords(i, j) ==> match last_value_for(recs, i, j) {
            Some(v) => #[trigger] g.cell_at(i, j) == Cell::FinalValue(v),
            None => g.cell_at(i, j) is UnknownState,
        }
}

/// Builds a grid from parsed (row, col, value) records: each record is a
/// single-value assignment, so it always produces a final cell. A record
/// with an out-of-range coordinate fails the whole load.
pub fn load_records(records: &Vec<(usize, usize, usize)>) -> (r: Result<Sudoku, Error>)
    ensures
        r is Ok <==> (forall|k: int|
            0 <= k < records@.len() ==> record_in_bounds(#[trigger] records@[k])),
        r matches Ok(g) ==> g.wf() && loaded_from(g, records@),
        r matches Err(e) ==> e == Error::OutOfRange,
{
    let mut board = Sudoku::new();
    let mut k: usize = 0;
    while k < records.len()
        invariant
            board.wf(),
            k <= records@.len(),
            forall|t: int| 0 <= t < k ==> record_in_bounds(#[trigger] records@[t]),
            loaded_from(board, records@.take(k as int)),
        decreases records.len() - k,
    {
        let (x, y, v) = records[k];
        let mut single: Vec<usize> = Vec::new();
        single.push(v);
        let ghost prev = board;
        match board.set_cell_values(x, y, single) {
            Ok(_) => {},
            Err(_) => {
                return Err(Error::OutOfRange);
            },
        }
        proof {
            assert(records@.take(k + 1).drop_last() =~= records@.take(k as int));
            assert(records@.take(k + 1).last() == records@[k as int]);
            assert(grid_updated(prev, board, x as int, y as int, Cell::FinalValue(v)));
            assert forall|i: int, j: int| valid_coords(i, j) implies match last_value_for(
                records@.take(k + 1),
                i,
                j,
            ) {
                Some(u) => #[trigger] board.cell_at(i, j) == Cell::FinalValue(u),
                None => board.cell_at(i, j) is UnknownState,
            } by {
                if !(i == x && j == y) {
                    assert(board.cell_at(i, j) == prev.cell_at(i, j));
                }
            }
        }
        k += 1;
    }
    proof {
        assert(records@.take(records@.len() as int) =~= records@);
    }
    Ok(board)
}

impl Sudoku {
    /// Builds a grid from delimited text: one comma-separated
    /// (row, col, value) record per line. An unparseable record fails with
    /// `MalformedInput`; a record addressing a position outside the grid
    /// fails with `OutOfRange`.
    pub fn load_csv(text: &str) -> (r: Result<Sudoku, Error>)
        ensures
            csv_triples(text@) is None ==> r == Result::<Sudoku, Error>::Err(
                Error::MalformedInput,
            ),
            csv_triples(text@) matches Some(recs) ==> {
                &&& r is Ok <==> (forall|k: int|
                    0 <= k < recs.len() ==> record_in_bounds(#[trigger] recs[k]))
                &&& r matches Ok(g) ==> g.wf() && loaded_from(g, recs)
                &&& r matches Err(e) ==> e == Error::OutOfRange
            },
    {
        match parse_csv_triples(text) {
            None => Err(Error::MalformedInput),
            Some(records) => load_records(&records),
        }
    }
}

} // verus!
