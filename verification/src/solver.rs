use vstd::prelude::*;

use crate::cell::{Cell, Error};
use crate::grid::{valid_coords, Sudoku, GRID_SIZE};
use crate::queries::{
    col_has_final, is_col_values, is_region_values, is_row_values, region_has_final,
    row_has_final, strictly_ascending,
};

verus! {

/// Ceiling on the number of elimination passes, a safety bound against
/// pathological inputs; the loop also stops as soon as a pass changes
/// nothing or the grid is solved.
pub const MAX_PASSES: usize = 100;

/// Value `v` is already assigned somewhere in the row, the column, or the
/// region of (row, col).
pub open spec fn value_used(g: Sudoku, row: int, col: int, v: usize) -> bool {
    row_has_final(g, row, v) || col_has_final(g, col, v) || region_has_final(g, row, col, v)
}

/// The puzzle values still open for the cell at (row, col): all of 1..=9
/// minus the values already used in its row, column and region.
pub open spec fn candidate_values(g: Sudoku, row: int, col: int) -> Set<usize> {
    Set::new(|v: usize| 1 <= v <= GRID_SIZE && !value_used(g, row, col, v))
}

/// Every final cell of `a` stands unchanged in `b`.
pub open spec fn finals_preserved(a: Sudoku, b: Sudoku) -> bool {
    forall|i: int, j: int|
        valid_coords(i, j) && (#[trigger] a.cell_at(i, j)) is FinalValue ==> b.cell_at(i, j)
            == a.cell_at(i, j)
}

/// Every cell of `g` is final.
pub open spec fn all_final(g: Sudoku) -> bool {
    forall|i: int, j: int| valid_coords(i, j) ==> (#[trigger] g.cell_at(i, j)) is FinalValue
}

/// No cell of `g` is in the unknown state.
pub open spec fn no_unknown(g: Sudoku) -> bool {
    forall|i: int, j: int| valid_coords(i, j) ==> !((#[trigger] g.cell_at(i, j)) is UnknownState)
}

/// Some not-yet-final cell of `g` has no value left open — the grid holds a
/// contradiction.
pub open spec fn has_empty_candidates(g: Sudoku) -> bool {
    exists|i: int, j: int|
        valid_coords(i, j) && !(g.cell_at(i, j) is FinalValue) && #[trigger] candidate_values(
            g,
            i,
            j,
        ) == Set::<usize>::empty()
}

/// `ch` is the sequence of grids around the completed elimination passes of
/// one solver run from `a` to `b`: at least one pass, each step a completed
/// pass.
pub open spec fn pass_chain(ch: Seq<Sudoku>, a: Sudoku, b: Sudoku) -> bool {
    &&& ch.len() >= 2
    &&& ch[0] == a
    &&& ch.last() == b
    &&& forall|t: int| 0 <= t < ch.len() - 1 ==> #[trigger] pass_rel(ch[t], ch[t + 1])
}

/// Appending an element adds exactly that element to the members.
proof fn lemma_push_contains(s: Seq<usize>, x: usize)
    ensures
        forall|u: usize| #[trigger] s.push(x).contains(u) <==> (s.contains(u) || u == x),
{
    assert forall|u: usize| #[trigger] s.push(x).contains(u) implies (s.contains(u) || u == x) by {
        let i = choose|i: int| 0 <= i < s.push(x).len() && s.push(x)[i] == u;
        if i < s.len() {
            assert(s[i] == u);
        }
    }
    assert forall|u: usize| s.contains(u) || u == x implies #[trigger] s.push(x).contains(u) by {
        if s.contains(u) {
            let i = choose|i: int| 0 <= i < s.len() && s[i] == u;
            assert(s.push(x)[i] == u);
        } else {
            assert(s.push(x)[s.len() as int] == u);
        }
    }
}

/// Appending an element above every member keeps the sequence strictly
/// ascending.
proof fn lemma_push_ascending(s: Seq<usize>, x: usize)
    requires
        strictly_ascending(s),
        forall|u: usize| s.contains(u) ==> u < x,
    ensures
        strictly_ascending(s.push(x)),
{
    assert forall|p: int, q: int|
        0 <= p < q < s.push(x).len() implies s.push(x)[p] < s.push(x)[q] by {
        if q < s.len() {
            assert(s[p] < s[q]);
        } else {
            assert(s.contains(s[p]));
            assert(s.push(x)[p] == s[p]);
        }
    }
}

/// What one elimination pass from `pre` to `post` did to the cell at
/// (row, col): a final cell stands unchanged; any other cell was reassigned,
/// either to a final value drawn from its candidates at the start of the
/// pass, or to a candidate set bounded by the candidates at the start and at
/// the end of the pass.
pub open spec fn cell_pass_result(pre: Sudoku, post: Sudoku, row: int, col: int) -> bool {
    if pre.cell_at(row, col) is FinalValue {
        post.cell_at(row, col) == pre.cell_at(row, col)
    } else {
        match post.cell_at(row, col) {
            Cell::FinalValue(v) => candidate_values(pre, row, col).contains(v),
            Cell::PossibleValues(vs) => {
                &&& vs@.to_set().subset_of(candidate_values(pre, row, col))
                &&& candidate_values(post, row, col).subset_of(vs@.to_set())
                &&& vs@.to_set().len() >= 2
            },
            Cell::UnknownState => false,
        }
    }
}

/// `post` is the outcome of one completed elimination pass over `pre`.
pub open spec fn pass_rel(pre: Sudoku, post: Sudoku) -> bool {
    &&& pre.wf()
    &&& post.wf()
    &&& finals_preserved(pre, post)
    &&& forall|i: int, j: int| valid_coords(i, j) ==> #[trigger] cell_pass_result(pre, post, i, j)
}

/// How far the cell at (row, col) is from determined: a final cell counts 1,
/// a candidate cell the size of its candidate set, an unknown cell all 9
/// values.
pub open spec fn candidate_count(g: Sudoku, row: int, col: int) -> nat {
    match g.cell_at(row, col) {
        Cell::FinalValue(_) => 1,
        Cell::PossibleValues(vs) => vs@.to_set().len(),
        Cell::UnknownState => GRID_SIZE as nat,
    }
}

/// A grid that kept every final cell of another can only have fewer open
/// candidates at each position.
pub proof fn lemma_more_finals_fewer_candidates(a: Sudoku, b: Sudoku, row: int, col: int)
    requires
        finals_preserved(a, b),
        valid_coords(row, col),
    ensures
        candidate_values(b, row, col).subset_of(candidate_values(a, row, col)),
{
    assert forall|v: usize|
        candidate_values(b, row, col).contains(v) implies candidate_values(
        a,
        row,
        col,
    ).contains(v) by {
        if row_has_final(a, row, v) {
            let k = choose|k: int|
                0 <= k < GRID_SIZE && a.cell_at(row, k) == Cell::FinalValue(v);
            assert(b.cell_at(row, k) == Cell::FinalValue(v));
            assert(row_has_final(b, row, v));
        }
        if col_has_final(a, col, v) {
            let k = choose|k: int|
                0 <= k < GRID_SIZE && a.cell_at(k, col) == Cell::FinalValue(v);
            assert(b.cell_at(k, col) == Cell::FinalValue(v));
            assert(col_has_final(b, col, v));
        }
        if region_has_final(a, row, col, v) {
            let (p, q) = choose|p: int, q: int|
                crate::queries::block_start(row) <= p < crate::queries::block_start(row) + 3
                    && crate::queries::block_start(col) <= q < crate::queries::block_start(col)
                    + 3 && a.cell_at(p, q) == Cell::FinalValue(v);
            assert(b.cell_at(p, q) == Cell::FinalValue(v));
            assert(region_has_final(b, row, col, v));
        }
    }
}

/// Two grids with the same final cells leave the same candidates open
/// everywhere.
pub proof fn lemma_equal_finals_equal_candidates(a: Sudoku, b: Sudoku, row: int, col: int)
    requires
        finals_preserved(a, b),
        finals_preserved(b, a),
        valid_coords(row, col),
    ensures
        candidate_values(a, row, col) == candidate_values(b, row, col),
{
    lemma_more_finals_fewer_candidates(a, b, row, col);
    lemma_more_finals_fewer_candidates(b, a, row, col);
    assert(candidate_values(a, row, col) =~= candidate_values(b, row, col));
}

/// Keeping finals is transitive.
pub proof fn lemma_finals_preserved_trans(a: Sudoku, b: Sudoku, c: Sudoku)
    requires
        finals_preserved(a, b),
        finals_preserved(b, c),
    ensures
        finals_preserved(a, c),
{
    assert forall|i: int, j: int|
        valid_coords(i, j) && (a.cell_at(i, j)) is FinalValue implies c.cell_at(i, j) == a.cell_at(
        i,
        j,
    ) by {
        assert(b.cell_at(i, j) == a.cell_at(i, j));
    }
}

/// A completed pass leaves no cell in the unknown state.
pub proof fn lemma_pass_leaves_no_unknown(pre: Sudoku, post: Sudoku)
    requires
        pass_rel(pre, post),
    ensures
        no_unknown(post),
{
    assert forall|i: int, j: int|
        valid_coords(i, j) implies !((post.cell_at(i, j)) is UnknownState) by {
        assert(cell_pass_result(pre, post, i, j));
    }
}

/// Law: pass over pass, the elimination loop never increases a cell's
/// candidate-set size, and never reassigns a final cell. `g0 -> g1 -> g2`
/// are the grids around two consecutive completed passes.
pub proof fn lemma_elimination_monotone(g0: Sudoku, g1: Sudoku, g2: Sudoku)
    requires
        pass_rel(g0, g1),
        pass_rel(g1, g2),
    ensures
        finals_preserved(g1, g2),
        forall|i: int, j: int|
            valid_coords(i, j) ==> candidate_count(g2, i, j) <= candidate_count(g1, i, j),
{
    broadcast use vstd::seq_lib::seq_to_set_is_finite;

    assert forall|i: int, j: int|
        valid_coords(i, j) implies candidate_count(g2, i, j) <= candidate_count(g1, i, j) by {
        assert(cell_pass_result(g0, g1, i, j));
        assert(cell_pass_result(g1, g2, i, j));
        match g1.cell_at(i, j) {
            Cell::FinalValue(_) => {
                assert(g2.cell_at(i, j) == g1.cell_at(i, j));
            },
            Cell::PossibleValues(s1) => {
                match g2.cell_at(i, j) {
                    Cell::FinalValue(_) => {},
                    Cell::PossibleValues(s2) => {
                        assert(s2@.to_set().subset_of(candidate_values(g1, i, j)));
                        assert(candidate_values(g1, i, j).subset_of(s1@.to_set()));
                        vstd::set_lib::lemma_len_subset(s2@.to_set(), s1@.to_set());
                    },
                    Cell::UnknownState => {},
                }
            },
            Cell::UnknownState => {},
        }
    }
}

/// Compares two value lists for equal contents.
fn vec_eq(a: &Vec<usize>, b: &Vec<usize>) -> (r: bool)
    ensures
        r == (a@ == b@),
{
    if a.len() != b.len() {
        return false;
    }
    let mut i: usize = 0;
    while i < a.len()
        invariant
            i <= a.len(),
            a@.len() == b@.len(),
            forall|t: int| 0 <= t < i ==> a@[t] == b@[t],
        decreases a.len() - i,
    {
        if a[i] != b[i] {
            return false;
        }
        i += 1;
    }
    proof {
        assert(a@ =~= b@);
    }
    true
}

/// Linear scan for a value.
fn vec_has(s: &Vec<usize>, v: usize) -> (r: bool)
    ensures
        r == s@.contains(v),
{
    let mut i: usize = 0;
    while i < s.len()
        invariant
            i <= s.len(),
            forall|t: int| 0 <= t < i ==> s@[t] != v,
        decreases s.len() - i,
    {
        if s[i] == v {
            return true;
        }
        i += 1;
    }
    false
}

impl Sudoku {
    /// The strictly ascending list of values still open for the cell at
    /// (x, y), computed from the row, column and region queries.
    fn compute_candidates(&self, x: usize, y: usize) -> (r: Vec<usize>)
        requires
            self.wf(),
            x < GRID_SIZE,
            y < GRID_SIZE,
        ensures
            strictly_ascending(r@),
            forall|u: usize|
                #[trigger] r@.contains(u) <==> candidate_values(*self, x as int, y as int).contains(
                    u,
                ),
    {
        let row = self.collect_row(x);
        let col = self.collect_col(y);
        let region = self.collect_region(x, y);
        let mut out: Vec<usize> = Vec::new();
        let mut v: usize = 1;
        while v <= GRID_SIZE
            invariant
                self.wf(),
                x < GRID_SIZE,
                y < GRID_SIZE,
                1 <= v <= GRID_SIZE + 1,
                is_row_values(*self, x as int, row@),
                is_col_values(*self, y as int, col@),
                is_region_values(*self, x as int, y as int, region@),
                strictly_ascending(out@),
                forall|u: usize| #[trigger] out@.contains(u) ==> u < v,
                forall|u: usize|
                    #[trigger] out@.contains(u) <==> (u < v && candidate_values(
                        *self,
                        x as int,
                        y as int,
                    ).contains(u)),
            decreases GRID_SIZE + 1 - v,
        {
            let used = vec_has(&row, v) || vec_has(&col, v) || vec_has(&region, v);
            if !used {
                proof {
                    lemma_push_contains(out@, v);
                    lemma_push_ascending(out@, v);
                }
                out.push(v);
            }
            v += 1;
        }
        out
    }

    /// Recomputes one non-final cell from its row, column and region: a
    /// single open value makes the cell final, several replace its candidate
    /// set, and none is a contradiction that leaves the grid untouched. The
    /// returned flag tells whether the cell's contents changed.
    fn eliminate_cell(&mut self, x: usize, y: usize) -> (r: Result<bool, Error>)
        requires
            old(self).wf(),
            x < GRID_SIZE,
            y < GRID_SIZE,
            !((old(self).cell_at(x as int, y as int)) is FinalValue),
        ensures
            final(self).wf(),
            forall|i: int, j: int|
                valid_coords(i, j) && !(i == x && j == y) ==> #[trigger] final(self).cell_at(i, j)
                    == old(self).cell_at(i, j),
            r matches Ok(changed) ==> match final(self).cell_at(x as int, y as int) {
                Cell::FinalValue(v) => candidate_values(*old(self), x as int, y as int) == set![v],
                Cell::PossibleValues(vs) => {
                    &&& vs@.to_set() == candidate_values(*old(self), x as int, y as int)
                    &&& strictly_ascending(vs@)
                    &&& vs@.len() >= 2
                    &&& vs@.to_set().len() >= 2
                },
                Cell::UnknownState => false,
            },
            r matches Ok(changed) && !changed ==> (final(self).cell_at(x as int, y as int)).eqv(
                old(self).cell_at(x as int, y as int),
            ),
            r matches Err(e) ==> e == Error::Contradiction && *final(self) == *old(self)
                && candidate_values(*old(self), x as int, y as int) == Set::<usize>::empty(),
    {
        let cands = self.compute_candidates(x, y);
        if cands.len() == 0 {
            proof {
                assert forall|u: usize|
                    !candidate_values(*self, x as int, y as int).contains(u) by {
                    assert(!cands@.contains(u));
                }
                assert(candidate_values(*self, x as int, y as int) =~= Set::<usize>::empty());
            }
            return Err(Error::Contradiction);
        }
        let changed = if cands.len() == 1 {
            true
        } else {
            match self.get_cell(x, y) {
                Some(Cell::PossibleValues(old_vs)) => !vec_eq(old_vs, &cands),
                _ => true,
            }
        };
        if cands.len() == 1 {
            let v = cands[0];
            proof {
                assert(cands@.contains(cands@[0]));
                assert forall|u: usize|
                    candidate_values(*self, x as int, y as int).contains(u) implies u == v by {
                    assert(cands@.contains(u));
                    let t = choose|t: int| 0 <= t < cands@.len() && cands@[t] == u;
                }
                assert(candidate_values(*self, x as int, y as int) =~= set![v]);
            }
            let _ = self.set_cell(x, y, Cell::FinalValue(v));
            Ok(changed)
        } else {
            proof {
                assert(cands@.no_duplicates()) by {
                    assert forall|p: int, q: int|
                        0 <= p < cands@.len() && 0 <= q < cands@.len() && p != q implies cands@[p]
                        != cands@[q] by {
                        if p < q {
                            assert(cands@[p] < cands@[q]);
                        } else {
                            assert(cands@[q] < cands@[p]);
                        }
                    }
                }
                cands@.unique_seq_to_set();
                assert forall|u: usize|
                    #[trigger] cands@.to_set().contains(u) <==> candidate_values(
                    *self,
                    x as int,
                    y as int,
                ).contains(u) by {
                    assert(cands@.to_set().contains(u) == cands@.contains(u));
                }
                assert(cands@.to_set() =~= candidate_values(*self, x as int, y as int));
            }
            let _ = self.set_cell(x, y, Cell::PossibleValues(cands));
            Ok(changed)
        }
    }

    /// One full elimination pass: every non-final cell is recomputed from the
    /// values already assigned in its row, column and region. Returns whether
    /// anything changed — an unchanged pass certifies that no cell is left
    /// with an empty candidate set — or `Contradiction` exactly when a cell
    /// was found with no open value, which the returned grid then exhibits.
    #[verifier::loop_isolation(false)]
    pub fn eliminate_pass(&mut self) -> (r: Result<bool, Error>)
        requires
            old(self).wf(),
        ensures
            final(self).wf(),
            finals_preserved(*old(self), *final(self)),
            r matches Ok(_) ==> pass_rel(*old(self), *final(self)),
            r matches Ok(changed) && !changed ==> forall|i: int, j: int|
                valid_coords(i, j) ==> (#[trigger] final(self).cell_at(i, j)).eqv(
                    old(self).cell_at(i, j),
                ),
            r matches Ok(changed) && !changed ==> !has_empty_candidates(*final(self)),
            r matches Err(e) ==> e == Error::Contradiction && has_empty_candidates(*final(self)),
    {
        let mut changed: bool = false;
        let mut i: usize = 0;
        while i < GRID_SIZE
            invariant
                self.wf(),
                i <= GRID_SIZE,
                finals_preserved(*old(self), *self),
                forall|a: int, b: int|
                    valid_coords(a, b) && a >= i ==> #[trigger] self.cell_at(a, b) == old(
                        self,
                    ).cell_at(a, b),
                forall|a: int, b: int|
                    valid_coords(a, b) && a < i ==> #[trigger] cell_pass_result(
                        *old(self),
                        *self,
                        a,
                        b,
                    ),
                !changed ==> forall|a: int, b: int|
                    valid_coords(a, b) && a < i ==> (#[trigger] self.cell_at(a, b)).eqv(
                        old(self).cell_at(a, b),
                    ),
                !changed ==> forall|a: int, b: int|
                    valid_coords(a, b) && a < i && !((old(self).cell_at(a, b)) is FinalValue)
                        ==> ((#[trigger] self.cell_at(a, b)) matches Cell::PossibleValues(s)
                        && s@.to_set() == candidate_values(*self, a, b) && s@.to_set().len()
                        >= 2),
            decreases GRID_SIZE - i,
        {
            let mut j: usize = 0;
            while j < GRID_SIZE
                invariant
                    self.wf(),
                    j <= GRID_SIZE,
                    finals_preserved(*old(self), *self),
                    forall|a: int, b: int|
                        valid_coords(a, b) && (a > i || (a == i && b >= j))
                            ==> #[trigger] self.cell_at(a, b) == old(self).cell_at(a, b),
                    forall|a: int, b: int|
                        valid_coords(a, b) && (a < i || (a == i && b < j))
                            ==> #[trigger] cell_pass_result(*old(self), *self, a, b),
                    !changed ==> forall|a: int, b: int|
                        valid_coords(a, b) && (a < i || (a == i && b < j)) ==> (
                        #[trigger] self.cell_at(a, b)).eqv(old(self).cell_at(a, b)),
                    !changed ==> forall|a: int, b: int|
                        valid_coords(a, b) && (a < i || (a == i && b < j)) && !((old(
                            self,
                        ).cell_at(a, b)) is FinalValue) ==> ((#[trigger] self.cell_at(a, b))
                            matches Cell::PossibleValues(s) && s@.to_set() == candidate_values(
                            *self,
                            a,
                            b,
                        ) && s@.to_set().len() >= 2),
                decreases GRID_SIZE - j,
            {
                let skip = match self.get_cell(i, j) {
                    Some(Cell::FinalValue(_)) => true,
                    _ => false,
                };
                if !skip {
                    let ghost before = *self;
                    match self.eliminate_cell(i, j) {
                        Ok(c) => {
                            changed = changed || c;
                            proof {
                                assert(finals_preserved(before, *self)) by {
                                    assert forall|a: int, b: int|
                                        valid_coords(a, b) && (before.cell_at(a, b))
                                            is FinalValue implies self.cell_at(a, b)
                                        == before.cell_at(a, b) by {
                                        assert(!(a == i && b == j));
                                    }
                                }
                                assert(finals_preserved(*old(self), *self)) by {
                                    lemma_finals_preserved_trans(*old(self), before, *self);
                                }
                                assert forall|a: int, b: int|
                                    valid_coords(a, b) && (a < i || (a == i && b < j
                                        + 1)) implies #[trigger] cell_pass_result(
                                    *old(self),
                                    *self,
                                    a,
                                    b,
                                ) by {
                                    if a == i && b == j {
                                        lemma_more_finals_fewer_candidates(
                                            *old(self),
                                            before,
                                            a,
                                            b,
                                        );
                                        lemma_more_finals_fewer_candidates(before, *self, a, b);
                                    } else {
                                        assert(cell_pass_result(*old(self), before, a, b));
                                        lemma_more_finals_fewer_candidates(before, *self, a, b);
                                        assert(self.cell_at(a, b) == before.cell_at(a, b));
                                    }
                                }
                                if !changed {
                                    assert(finals_preserved(*self, before)) by {
                                        assert forall|a: int, b: int|
                                            valid_coords(a, b) && (self.cell_at(a, b))
                                                is FinalValue implies before.cell_at(a, b)
                                            == self.cell_at(a, b) by {
                                            if a == i && b == j {
                                                assert((self.cell_at(a, b)).eqv(
                                                    before.cell_at(a, b),
                                                ));
                                            }
                                        }
                                    }
                                    assert forall|a: int, b: int|
                                        valid_coords(a, b) && (a < i || (a == i && b < j + 1))
                                            && !((old(self).cell_at(a, b))
                                            is FinalValue) implies ((#[trigger] self.cell_at(
                                        a,
                                        b,
                                    )) matches Cell::PossibleValues(s) && s@.to_set()
                                        == candidate_values(*self, a, b) && s@.to_set().len()
                                        >= 2) by {
                                        lemma_equal_finals_equal_candidates(before, *self, a, b);
                                        if a == i && b == j {
                                            assert((self.cell_at(a, b)).eqv(before.cell_at(a, b)));
                                        } else {
                                            assert(self.cell_at(a, b) == before.cell_at(a, b));
                                        }
                                    }
                                }
                            }
                        },
                        Err(e) => {
                            proof {
                                assert(!(self.cell_at(i as int, j as int) is FinalValue));
                                assert(candidate_values(*self, i as int, j as int)
                                    == Set::<usize>::empty());
                                assert(has_empty_candidates(*self));
                            }
                            return Err(e);
                        },
                    }
                } else {
                    proof {
                        assert(self.cell_at(i as int, j as int) == old(self).cell_at(
                            i as int,
                            j as int,
                        ));
                        assert(cell_pass_result(*old(self), *self, i as int, j as int));
                    }
                }
                j += 1;
            }
            i += 1;
        }
        proof {
            if !changed {
                assert forall|a: int, b: int|
                    valid_coords(a, b) && !((self.cell_at(a, b))
                        is FinalValue) implies candidate_values(*self, a, b)
                    != Set::<usize>::empty() by {
                    if (old(self).cell_at(a, b)) is FinalValue {
                        assert(self.cell_at(a, b) == old(self).cell_at(a, b));
                    } else {
                        assert(candidate_values(*self, a, b).len() >= 2);
                        assert(Set::<usize>::empty().len() == 0);
                    }
                }
                assert(!has_empty_candidates(*self));
            }
        }
        Ok(changed)
    }

    /// True exactly when every cell is final.
    #[verifier::loop_isolation(false)]
    pub fn is_solved(&self) -> (r: bool)
        requires
            self.wf(),
        ensures
            r == all_final(*self),
    {
        let mut i: usize = 0;
        while i < GRID_SIZE
            invariant
                i <= GRID_SIZE,
                forall|a: int, b: int|
                    valid_coords(a, b) && a < i ==> (#[trigger] self.cell_at(a, b)) is FinalValue,
            decreases GRID_SIZE - i,
        {
            let mut j: usize = 0;
            while j < GRID_SIZE
                invariant
                    j <= GRID_SIZE,
                    forall|a: int, b: int|
                        valid_coords(a, b) && a < i ==> (#[trigger] self.cell_at(a, b))
                            is FinalValue,
                    forall|b: int|
                        0 <= b < j ==> (#[trigger] self.cell_at(i as int, b)) is FinalValue,
                decreases GRID_SIZE - j,
            {
                match self.get_cell(i, j) {
                    Some(Cell::FinalValue(_)) => {},
                    _ => {
                        return false;
                    },
                }
                j += 1;
            }
            i += 1;
        }
        true
    }

    /// Iterative elimination: passes run until the grid is solved, a pass
    /// changes nothing, or the pass ceiling is reached; a cell left with zero
    /// open values stops the solver with `Contradiction`, and the returned
    /// grid then exhibits such a cell. No guessing or backtracking is
    /// performed, so the solver may stop with the grid only partially
    /// determined, which is not a failure; at the pass ceiling it stops
    /// without declaring failure even if a later pass would have found a
    /// contradiction.
    #[verifier::loop_isolation(false)]
    pub fn solve(&mut self) -> (r: Result<(), Error>)
        requires
            old(self).wf(),
        ensures
            final(self).wf(),
            finals_preserved(*old(self), *final(self)),
            r matches Err(e) ==> e == Error::Contradiction && has_empty_candidates(*final(self)),
            r is Ok ==> no_unknown(*final(self)),
            r is Ok ==> exists|ch: Seq<Sudoku>| #[trigger] pass_chain(
                ch,
                *old(self),
                *final(self),
            ),
    {
        let ghost mut chain: Seq<Sudoku> = seq![*old(self)];
        let mut pass: usize = 0;
        while pass < MAX_PASSES
            invariant
                self.wf(),
                pass <= MAX_PASSES,
                finals_preserved(*old(self), *self),
                pass > 0 ==> no_unknown(*self),
                chain.len() == pass + 1,
                chain[0] == *old(self),
                chain.last() == *self,
                forall|t: int| 0 <= t < chain.len() - 1 ==> #[trigger] pass_rel(
                    chain[t],
                    chain[t + 1],
                ),
            decreases MAX_PASSES - pass,
        {
            let ghost before = *self;
            match self.eliminate_pass() {
                Ok(changed) => {
                    proof {
                        lemma_pass_leaves_no_unknown(before, *self);
                        lemma_finals_preserved_trans(*old(self), before, *self);
                        assert(pass_rel(before, *self));
                        let prev = chain;
                        chain = chain.push(*self);
                        assert(chain.last() == *self);
                        assert forall|t: int|
                            0 <= t < chain.len() - 1 implies #[trigger] pass_rel(
                            chain[t],
                            chain[t + 1],
                        ) by {
                            if t < prev.len() - 1 {
                                assert(chain[t] == prev[t] && chain[t + 1] == prev[t + 1]);
                            } else {
                                assert(chain[t] == before && chain[t + 1] == *self);
                            }
                        }
                    }
                    if self.is_solved() {
                        proof {
                            assert(pass_chain(chain, *old(self), *self));
                        }
                        return Ok(());
                    }
                    if !changed {
                        proof {
                            assert(pass_chain(chain, *old(self), *self));
                        }
                        return Ok(());
                    }
                },
                Err(e) => {
                    proof {
                        lemma_finals_preserved_trans(*old(self), before, *self);
                    }
                    return Err(e);
                },
            }
            pass += 1;
        }
        proof {
            assert(pass_chain(chain, *old(self), *self));
        }
        Ok(())
    }
}

} // verus!
