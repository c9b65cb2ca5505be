use vstd::prelude::*;

use crate::cell::{Cell, Error};
use crate::grid::{Sudoku, GRID_SIZE};

verus! {

/// Value `v` is held by a final cell somewhere in row `row`.
pub open spec fn row_has_final(g: Sudoku, row: int, v: usize) -> bool {
    exists|k: int| 0 <= k < GRID_SIZE && #[trigger] g.cell_at(row, k) == Cell::FinalValue(v)
}

/// Value `v` is held by a final cell somewhere in column `col`.
pub open spec fn col_has_final(g: Sudoku, col: int, v: usize) -> bool {
    exists|k: int| 0 <= k < GRID_SIZE && #[trigger] g.cell_at(k, col) == Cell::FinalValue(v)
}

/// The first coordinate of the 3 x 3 block that `c` falls in.
pub open spec fn block_start(c: int) -> int {
    (c / 3) * 3
}

/// Value `v` is held by a final cell somewhere in the 3 x 3 region around
/// (row, col).
pub open spec fn region_has_final(g: Sudoku, row: int, col: int, v: usize) -> bool {
    exists|a: int, b: int|
        block_start(row) <= a < block_start(row) + 3 && block_start(col) <= b < block_start(col)
            + 3 && #[trigger] g.cell_at(a, b) == Cell::FinalValue(v)
}

/// The sequence grows strictly, so it is also duplicate-free.
pub open spec fn strictly_ascending(s: Seq<usize>) -> bool {
    forall|p: int, q: int| 0 <= p < q < s.len() ==> s[p] < s[q]
}

/// What a successful row query returns: the strictly ascending,
/// duplicate-free sequence of exactly the values held by final cells in the
/// row — every such value, also one outside 1..=9 that `set_cell` accepted
/// uncritically.
pub open spec fn is_row_values(g: Sudoku, row: int, s: Seq<usize>) -> bool {
    &&& strictly_ascending(s)
    &&& forall|v: usize| s.contains(v) <==> row_has_final(g, row, v)
}

/// What a successful column query returns.
pub open spec fn is_col_values(g: Sudoku, col: int, s: Seq<usize>) -> bool {
    &&& strictly_ascending(s)
    &&& forall|v: usize| s.contains(v) <==> col_has_final(g, col, v)
}

/// What a successful region query returns.
pub open spec fn is_region_values(g: Sudoku, row: int, col: int, s: Seq<usize>) -> bool {
    &&& strictly_ascending(s)
    &&& forall|v: usize| s.contains(v) <==> region_has_final(g, row, col, v)
}

/// Inserts `v` into a strictly ascending list at its place; a value already
/// present is not duplicated.
fn insert_sorted(out: &mut Vec<usize>, v: usize)
    requires
        strictly_ascending(old(out)@),
    ensures
        strictly_ascending(final(out)@),
        forall|u: usize| #[trigger] final(out)@.contains(u) <==> (old(out)@.contains(u) || u == v),
{
    let mut idx: usize = 0;
    while idx < out.len() && out[idx] < v
        invariant
            idx <= out@.len(),
            out@ == old(out)@,
            strictly_ascending(out@),
            forall|t: int| 0 <= t < idx ==> out@[t] < v,
        decreases out@.len() - idx,
    {
        idx += 1;
    }
    if idx < out.len() && out[idx] == v {
        proof {
            assert(out@.contains(v));
        }
        return;
    }
    let ghost pre = out@;
    out.insert(idx, v);
    proof {
        pre.insert_ensures(idx as int, v);
        assert(idx < pre.len() ==> pre[idx as int] > v);
        assert forall|p: int, q: int| 0 <= p < q < out@.len() implies out@[p] < out@[q] by {
            if q < idx {
                assert(out@[p] == pre[p] && out@[q] == pre[q]);
            } else if q == idx {
                assert(out@[q] == v && out@[p] == pre[p]);
            } else if p < idx {
                assert(out@[p] == pre[p] && out@[q] == pre[q - 1]);
                assert(pre[p] < v);
                assert(q - 1 >= idx ==> pre[q - 1] >= pre[idx as int]);
            } else if p == idx {
                assert(out@[p] == v && out@[q] == pre[q - 1]);
            } else {
                assert(out@[p] == pre[p - 1] && out@[q] == pre[q - 1]);
            }
        }
        assert forall|u: usize| #[trigger] out@.contains(u) implies (pre.contains(u) || u == v) by {
            let t = choose|t: int| 0 <= t < out@.len() && out@[t] == u;
            if t < idx {
                assert(pre[t] == u);
            } else if t > idx {
                assert(pre[t - 1] == u);
            }
        }
        assert forall|u: usize| pre.contains(u) || u == v implies #[trigger] out@.contains(u) by {
            if pre.contains(u) {
                let t = choose|t: int| 0 <= t < pre.len() && pre[t] == u;
                if t < idx {
                    assert(out@[t] == u);
                } else {
                    assert(out@[t + 1] == u);
                }
            } else {
                assert(out@[idx as int] == u);
            }
        }
    }
}

impl Sudoku {
    /// Collects the row values without the bounds check.
    pub(crate) fn collect_row(&self, row: usize) -> (r: Vec<usize>)
        requires
            self.wf(),
            row < GRID_SIZE,
        ensures
            is_row_values(*self, row as int, r@),
    {
        let mut out: Vec<usize> = Vec::new();
        let mut k: usize = 0;
        while k < GRID_SIZE
            invariant
                self.wf(),
                row < GRID_SIZE,
                k <= GRID_SIZE,
                strictly_ascending(out@),
                forall|u: usize|
                    #[trigger] out@.contains(u) <==> (exists|t: int|
                        0 <= t < k && #[trigger] self.cell_at(row as int, t) == Cell::FinalValue(
                            u,
                        )),
            decreases GRID_SIZE - k,
        {
            let ghost prev = out@;
            match self.get_cell(row, k) {
                Some(Cell::FinalValue(u)) => {
                    let uv = *u;
                    insert_sorted(&mut out, uv);
                    proof {
                        assert forall|w: usize| #[trigger] out@.contains(w) implies (exists|t: int|
                            0 <= t < k + 1 && #[trigger] self.cell_at(row as int, t)
                                == Cell::FinalValue(w)) by {
                            if prev.contains(w) {
                                let t = choose|t: int|
                                    0 <= t < k && #[trigger] self.cell_at(row as int, t)
                                        == Cell::FinalValue(w);
                                assert(self.cell_at(row as int, t) == Cell::FinalValue(w));
                            } else {
                                assert(self.cell_at(row as int, k as int) == Cell::FinalValue(w));
                            }
                        }
                        assert forall|w: usize| (exists|t: int|
                            0 <= t < k + 1 && #[trigger] self.cell_at(row as int, t)
                                == Cell::FinalValue(w)) implies #[trigger] out@.contains(w) by {
                            let t = choose|t: int|
                                0 <= t < k + 1 && #[trigger] self.cell_at(row as int, t)
                                    == Cell::FinalValue(w);
                            if t < k {
                                assert(prev.contains(w));
                            } else {
                                assert(w == uv);
                            }
                        }
                    }
                },
                _ => {
                    proof {
                        assert forall|w: usize| (exists|t: int|
                            0 <= t < k + 1 && #[trigger] self.cell_at(row as int, t)
                                == Cell::FinalValue(w)) implies #[trigger] out@.contains(w) by {
                            let t = choose|t: int|
                                0 <= t < k + 1 && #[trigger] self.cell_at(row as int, t)
                                    == Cell::FinalValue(w);
                            assert(t < k);
                        }
                    }
                },
            }
            k += 1;
        }
        out
    }

    /// Collects the column values without the bounds check.
    pub(crate) fn collect_col(&self, col: usize) -> (r: Vec<usize>)
        requires
            self.wf(),
            col < GRID_SIZE,
        ensures
            is_col_values(*self, col as int, r@),
    {
        let mut out: Vec<usize> = Vec::new();
        let mut k: usize = 0;
        while k < GRID_SIZE
            invariant
                self.wf(),
                col < GRID_SIZE,
                k <= GRID_SIZE,
                strictly_ascending(out@),
                forall|u: usize|
                    #[trigger] out@.contains(u) <==> (exists|t: int|
                        0 <= t < k && #[trigger] self.cell_at(t, col as int) == Cell::FinalValue(
                            u,
                        )),
            decreases GRID_SIZE - k,
        {
            let ghost prev = out@;
            match self.get_cell(k, col) {
                Some(Cell::FinalValue(u)) => {
                    let uv = *u;
                    insert_sorted(&mut out, uv);
                    proof {
                        assert forall|w: usize| #[trigger] out@.contains(w) implies (exists|t: int|
                            0 <= t < k + 1 && #[trigger] self.cell_at(t, col as int)
                                == Cell::FinalValue(w)) by {
                            if prev.contains(w) {
                                let t = choose|t: int|
                                    0 <= t < k && #[trigger] self.cell_at(t, col as int)
                                        == Cell::FinalValue(w);
                                assert(self.cell_at(t, col as int) == Cell::FinalValue(w));
                            } else {
                                assert(self.cell_at(k as int, col as int) == Cell::FinalValue(w));
                            }
                        }
                        assert forall|w: usize| (exists|t: int|
                            0 <= t < k + 1 && #[trigger] self.cell_at(t, col as int)
                                == Cell::FinalValue(w)) implies #[trigger] out@.contains(w) by {
                            let t = choose|t: int|
                                0 <= t < k + 1 && #[trigger] self.cell_at(t, col as int)
                                    == Cell::FinalValue(w);
                            if t < k {
                                assert(prev.contains(w));
                            } else {
                                assert(w == uv);
                            }
                        }
                    }
                },
                _ => {
                    proof {
                        assert forall|w: usize| (exists|t: int|
                            0 <= t < k + 1 && #[trigger] self.cell_at(t, col as int)
                                == Cell::FinalValue(w)) implies #[trigger] out@.contains(w) by {
                            let t = choose|t: int|
                                0 <= t < k + 1 && #[trigger] self.cell_at(t, col as int)
                                    == Cell::FinalValue(w);
                            assert(t < k);
                        }
                    }
                },
            }
            k += 1;
        }
        out
    }

    /// Collects the region values without the bounds check.
    pub(crate) fn collect_region(&self, x: usize, y: usize) -> (r: Vec<usize>)
        requires
            self.wf(),
            x < GRID_SIZE,
            y < GRID_SIZE,
        ensures
            is_region_values(*self, x as int, y as int, r@),
    {
        let xs = (x / 3) * 3;
        let ys = (y / 3) * 3;
        let mut out: Vec<usize> = Vec::new();
        let mut a: usize = xs;
        while a < xs + 3
            invariant
                self.wf(),
                x < GRID_SIZE,
                y < GRID_SIZE,
                xs == block_start(x as int),
                ys == block_start(y as int),
                xs <= a <= xs + 3,
                strictly_ascending(out@),
                forall|u: usize|
                    #[trigger] out@.contains(u) <==> (exists|p: int, q: int|
                        xs <= p < a && ys <= q < ys + 3 && #[trigger] self.cell_at(p, q)
                            == Cell::FinalValue(u)),
            decreases xs + 3 - a,
        {
            let mut b: usize = ys;
            while b < ys + 3
                invariant
                    self.wf(),
                    x < GRID_SIZE,
                    y < GRID_SIZE,
                    xs == block_start(x as int),
                    ys == block_start(y as int),
                    xs <= a < xs + 3,
                    ys <= b <= ys + 3,
                    strictly_ascending(out@),
                    forall|u: usize|
                        #[trigger] out@.contains(u) <==> ((exists|p: int, q: int|
                            xs <= p < a && ys <= q < ys + 3 && #[trigger] self.cell_at(p, q)
                                == Cell::FinalValue(u)) || (exists|q: int|
                            ys <= q < b && #[trigger] self.cell_at(a as int, q)
                                == Cell::FinalValue(u))),
                decreases ys + 3 - b,
            {
                let ghost prev = out@;
                match self.get_cell(a, b) {
                    Some(Cell::FinalValue(u)) => {
                        let uv = *u;
                        insert_sorted(&mut out, uv);
                        proof {
                            assert forall|w: usize| #[trigger] out@.contains(w) implies ((exists|
                                p: int,
                                q: int,
                            |
                                xs <= p < a && ys <= q < ys + 3 && #[trigger] self.cell_at(p, q)
                                    == Cell::FinalValue(w)) || (exists|q: int|
                                ys <= q < b + 1 && #[trigger] self.cell_at(a as int, q)
                                    == Cell::FinalValue(w))) by {
                                if !prev.contains(w) {
                                    assert(self.cell_at(a as int, b as int) == Cell::FinalValue(
                                        w,
                                    ));
                                }
                            }
                            assert forall|w: usize| ((exists|p: int, q: int|
                                xs <= p < a && ys <= q < ys + 3 && #[trigger] self.cell_at(p, q)
                                    == Cell::FinalValue(w)) || (exists|q: int|
                                ys <= q < b + 1 && #[trigger] self.cell_at(a as int, q)
                                    == Cell::FinalValue(w))) implies #[trigger] out@.contains(
                                w,
                            ) by {
                                if exists|q: int|
                                    ys <= q < b + 1 && #[trigger] self.cell_at(a as int, q)
                                        == Cell::FinalValue(w) {
                                    let q = choose|q: int|
                                        ys <= q < b + 1 && #[trigger] self.cell_at(a as int, q)
                                            == Cell::FinalValue(w);
                                    if q < b {
                                        assert(prev.contains(w));
                                    } else {
                                        assert(w == uv);
                                    }
                                } else {
                                    assert(prev.contains(w));
                                }
                            }
                        }
                    },
                    _ => {
                        proof {
                            assert forall|w: usize| (exists|q: int|
                                ys <= q < b + 1 && #[trigger] self.cell_at(a as int, q)
                                    == Cell::FinalValue(w)) implies #[trigger] out@.contains(
                                w,
                            ) by {
                                let q = choose|q: int|
                                    ys <= q < b + 1 && #[trigger] self.cell_at(a as int, q)
                                        == Cell::FinalValue(w);
                                assert(q < b);
                            }
                        }
                    },
                }
                b += 1;
            }
            proof {
                assert forall|u: usize| #[trigger] out@.contains(u) implies (exists|p: int, q: int|
                    xs <= p < a + 1 && ys <= q < ys + 3 && #[trigger] self.cell_at(p, q)
                        == Cell::FinalValue(u)) by {
                    if exists|q: int|
                        ys <= q < ys + 3 && #[trigger] self.cell_at(a as int, q)
                            == Cell::FinalValue(u) {
                        let q = choose|q: int|
                            ys <= q < ys + 3 && #[trigger] self.cell_at(a as int, q)
                                == Cell::FinalValue(u);
                        assert(self.cell_at(a as int, q) == Cell::FinalValue(u));
                    }
                }
                assert forall|u: usize| (exists|p: int, q: int|
                    xs <= p < a + 1 && ys <= q < ys + 3 && #[trigger] self.cell_at(p, q)
                        == Cell::FinalValue(u)) implies #[trigger] out@.contains(u) by {
                    let (p, q) = choose|p: int, q: int|
                        xs <= p < a + 1 && ys <= q < ys + 3 && #[trigger] self.cell_at(p, q)
                            == Cell::FinalValue(u);
                    if p < a {
                    } else {
                        assert(self.cell_at(a as int, q) == Cell::FinalValue(u));
                    }
                }
            }
            a += 1;
        }
        out
    }

    /// The set of values finally assigned along row `row`, strictly
    /// ascending and duplicate-free; `OutOfRange` when the row index reaches
    /// the grid size.
    pub fn get_row(&self, row: usize) -> (r: Result<Vec<usize>, Error>)
        requires
            self.wf(),
        ensures
            r is Ok <==> row < GRID_SIZE,
            r matches Ok(vals) ==> is_row_values(*self, row as int, vals@),
            r matches Err(e) ==> e == Error::OutOfRange,
    {
        if row < GRID_SIZE {
            Ok(self.collect_row(row))
        } else {
            Err(Error::OutOfRange)
        }
    }

    /// The set of values finally assigned along column `col`, strictly
    /// ascending and duplicate-free.
    pub fn get_col(&self, col: usize) -> (r: Result<Vec<usize>, Error>)
        requires
            self.wf(),
        ensures
            r is Ok <==> col < GRID_SIZE,
            r matches Ok(vals) ==> is_col_values(*self, col as int, vals@),
            r matches Err(e) ==> e == Error::OutOfRange,
    {
        if col < GRID_SIZE {
            Ok(self.collect_col(col))
        } else {
            Err(Error::OutOfRange)
        }
    }

    /// The set of values finally assigned in the 3 x 3 region around (x, y).
    /// The region's block start is always below the grid size exactly when
    /// the raw coordinate is, so the raw coordinates are checked directly.
    pub fn get_region(&self, x: usize, y: usize) -> (r: Result<Vec<usize>, Error>)
        requires
            self.wf(),
        ensures
            r is Ok <==> (x < GRID_SIZE && y < GRID_SIZE),
            r matches Ok(vals) ==> is_region_values(*self, x as int, y as int, vals@),
            r matches Err(e) ==> e == Error::OutOfRange,
    {
        if x < GRID_SIZE && y < GRID_SIZE {
            Ok(self.collect_region(x, y))
        } else {
            Err(Error::OutOfRange)
        }
    }
}

/// Two strictly ascending sequences with the same members are the same
/// sequence.
pub proof fn lemma_ascending_same_members(a: Seq<usize>, b: Seq<usize>)
    requires
        strictly_ascending(a),
        strictly_ascending(b),
        forall|v: usize| a.contains(v) <==> b.contains(v),
    ensures
        a == b,
    decreases a.len(),
{
    if a.len() == 0 {
        if b.len() > 0 {
            assert(b.contains(b[0]));
            assert(a.contains(b[0]));
        }
        assert(a =~= b);
    } else if b.len() == 0 {
        assert(a.contains(a[0]));
        assert(b.contains(a[0]));
    } else {
        assert(a.contains(a[0]));
        assert(b.contains(b[0]));
        let ia = choose|i: int| 0 <= i < a.len() && a[i] == b[0];
        let ib = choose|i: int| 0 <= i < b.len() && b[i] == a[0];
        assert(a[0] <= a[ia] && b[0] <= b[ib]);
        assert(a[0] == b[0]);
        let at = a.drop_first();
        let bt = b.drop_first();
        assert forall|v: usize| at.contains(v) implies (a.contains(v) && v > a[0]) by {
            let i = choose|i: int| 0 <= i < at.len() && at[i] == v;
            assert(a[i + 1] == v);
        }
        assert forall|v: usize| a.contains(v) && v > a[0] implies at.contains(v) by {
            let i = choose|i: int| 0 <= i < a.len() && a[i] == v;
            assert(i > 0);
            assert(at[i - 1] == v);
        }
        assert forall|v: usize| bt.contains(v) implies (b.contains(v) && v > b[0]) by {
            let i = choose|i: int| 0 <= i < bt.len() && bt[i] == v;
            assert(b[i + 1] == v);
        }
        assert forall|v: usize| b.contains(v) && v > b[0] implies bt.contains(v) by {
            let i = choose|i: int| 0 <= i < b.len() && b[i] == v;
            assert(i > 0);
            assert(bt[i - 1] == v);
        }
        assert(strictly_ascending(at)) by {
            assert forall|p: int, q: int| 0 <= p < q < at.len() implies at[p] < at[q] by {
                assert(at[p] == a[p + 1] && at[q] == a[q + 1]);
            }
        }
        assert(strictly_ascending(bt)) by {
            assert forall|p: int, q: int| 0 <= p < q < bt.len() implies bt[p] < bt[q] by {
                assert(bt[p] == b[p + 1] && bt[q] == b[q + 1]);
            }
        }
        assert forall|v: usize| at.contains(v) <==> bt.contains(v) by {}
        lemma_ascending_same_members(at, bt);
        assert(a =~= b) by {
            assert forall|i: int| 0 <= i < a.len() implies a[i] == b[i] by {
                if i > 0 {
                    assert(a[i] == at[i - 1] && b[i] == bt[i - 1]);
                }
            }
        }
    }
}

/// Law: with no intervening mutation the row query is deterministic — any
/// two results for the same row are identical.
pub proof fn lemma_row_values_idempotent(g: Sudoku, row: int, r1: Seq<usize>, r2: Seq<usize>)
    requires
        is_row_values(g, row, r1),
        is_row_values(g, row, r2),
    ensures
        r1 == r2,
{
    lemma_ascending_same_members(r1, r2);
}

/// Law: with no intervening mutation the column query is deterministic.
pub proof fn lemma_col_values_idempotent(g: Sudoku, col: int, r1: Seq<usize>, r2: Seq<usize>)
    requires
        is_col_values(g, col, r1),
        is_col_values(g, col, r2),
    ensures
        r1 == r2,
{
    lemma_ascending_same_members(r1, r2);
}

/// Law: computing the region values twice with no intervening mutation
/// yields identical results.
pub proof fn lemma_region_values_idempotent(
    g: Sudoku,
    row: int,
    col: int,
    r1: Seq<usize>,
    r2: Seq<usize>,
)
    requires
        is_region_values(g, row, col, r1),
        is_region_values(g, row, col, r2),
    ensures
        r1 == r2,
{
    lemma_ascending_same_members(r1, r2);
}

} // verus!
