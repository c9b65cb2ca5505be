use vstd::prelude::*;

verus! {

/// Every failure condition of the library, by condition rather than by type.
#[derive(Clone, Copy, Debug, PartialEq, Eq)]
pub enum Error {
    /// A coordinate at or beyond the grid size was given to a mutation or to a
    /// row/column/region query.
    OutOfRange,
    /// An assignment was attempted with an empty list of candidate values.
    EmptyValueSet,
    /// Candidate removal was requested on a cell that holds no candidate set.
    UnsupportedCellOperation,
    /// A cell was left with zero remaining candidates.
    Contradiction,
    /// A record of the delimited input text could not be parsed.
    MalformedInput,
}

/// The state of one grid position: a determined value, a non-empty set of
/// values not yet ruled out, or no information at all.
#[derive(Debug)]
pub enum Cell {
    FinalValue(usize),
    PossibleValues(Vec<usize>),
    UnknownState,
}

/// The candidate list `vs` with every occurrence of `v` removed, order kept.
pub open spec fn without_value(vs: Seq<usize>, v: usize) -> Seq<usize> {
    vs.filter(|u: usize| u != v)
}

impl Cell {
    /// Two cells hold the same information (deep equality of the variant and
    /// its payload).
    pub open spec fn eqv(self, other: Cell) -> bool {
        match (self, other) {
            (Cell::FinalValue(a), Cell::FinalValue(b)) => a == b,
            (Cell::PossibleValues(a), Cell::PossibleValues(b)) => a@ == b@,
            (Cell::UnknownState, Cell::UnknownState) => true,
            _ => false,
        }
    }

    /// Removes `v` from a candidate cell. When exactly one candidate remains
    /// the cell collapses to `FinalValue`; when none remains the cell would be
    /// an empty candidate set, which is reported as `Contradiction` rather
    /// than silently accepted. On a final or unknown cell the operation is
    /// unsupported.
    pub fn remove_value(&self, v: usize) -> (r: Result<Cell, Error>)
        ensures
            match *self {
                Cell::PossibleValues(vs) => ({
                    let kept = without_value(vs@, v);
                    if kept.len() == 0 {
                        r == Result::<Cell, Error>::Err(Error::Contradiction)
                    } else if kept.len() == 1 {
                        r == Result::<Cell, Error>::Ok(Cell::FinalValue(kept[0]))
                    } else {
                        r matches Ok(c) && c matches Cell::PossibleValues(ws) && ws@ == kept
                    }
                }),
                _ => r == Result::<Cell, Error>::Err(Error::UnsupportedCellOperation),
            },
    {
        match self {
            Cell::PossibleValues(vs) => {
                let mut kept: Vec<usize> = Vec::new();
                let mut i: usize = 0;
                while i < vs.len()
                    invariant
                        i <= vs.len(),
                        kept@ == without_value(vs@.take(i as int), v),
                    decreases vs.len() - i,
                {
                    proof {
                        reveal(Seq::filter);
                        assert(vs@.take(i + 1).drop_last() =~= vs@.take(i as int));
                        assert(vs@.take(i + 1).last() == vs@[i as int]);
                    }
                    if vs[i] != v {
                        kept.push(vs[i]);
                    }
                    i += 1;
                }
                proof {
                    assert(vs@.take(vs@.len() as int) =~= vs@);
                }
                if kept.len() == 0 {
                    Err(Error::Contradiction)
                } else if kept.len() == 1 {
                    let w = kept[0];
                    Ok(Cell::FinalValue(w))
                } else {
                    Ok(Cell::PossibleValues(kept))
                }
            },
            _ => Err(Error::UnsupportedCellOperation),
        }
    }

    /// A fully independent copy of the cell.
    pub fn duplicate(&self) -> (r: Cell)
        ensures
            r.eqv(*self),
    {
        match self {
            Cell::FinalValue(v) => Cell::FinalValue(*v),
            Cell::PossibleValues(vs) => {
                let mut copied: Vec<usize> = Vec::new();
                let mut i: usize = 0;
                while i < vs.len()
                    invariant
                        i <= vs.len(),
                        copied@ == vs@.take(i as int),
                    decreases vs.len() - i,
                {
                    copied.push(vs[i]);
                    proof {
                        assert(vs@.take(i + 1) =~= vs@.take(i as int).push(vs@[i as int]));
                    }
                    i += 1;
                }
                proof {
                    assert(vs@.take(vs@.len() as int) =~= vs@);
                }
                Cell::PossibleValues(copied)
            },
            Cell::UnknownState => Cell::UnknownState,
        }
    }
}

} // verus!
