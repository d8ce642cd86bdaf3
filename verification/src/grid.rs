//! Construction-time validation: a caller-supplied row-major binary grid is
//! either accepted whole or rejected with a structured error. Errors exist
//! only here; a validated world never fails at simulation time.

use vstd::prelude::*;

verus! {

/// Why a grid was rejected. Each kind carries a fixed human-readable
/// description, available through [`WorldError::message`].
#[derive(Clone, Copy, Debug, PartialEq, Eq, Structural)]
pub enum WorldError {
    /// Fewer than two rows.
    TooFewRows,
    /// Fewer than two columns.
    TooFewColumns,
    /// Rows of unequal length, or a cell value other than 0 and 1.
    InconsistentOrInvalidGrid,
}

impl WorldError {
    /// The fixed description of this error kind.
    pub open spec fn spec_message(&self) -> Seq<char> {
        match self {
            WorldError::TooFewRows => "Grid row must have a minimum length of 2"@,
            WorldError::TooFewColumns => "Grid column must have a minimum length of 2"@,
            WorldError::InconsistentOrInvalidGrid => "All grid columns must be of the same length"@,
        }
    }

    /// A human-readable description of this error kind.
    pub fn message(&self) -> (m: String)
        ensures
            m@ == self.spec_message(),
    {
        match self {
            WorldError::TooFewRows => "Grid row must have a minimum length of 2".to_owned(),
            WorldError::TooFewColumns => "Grid column must have a minimum length of 2".to_owned(),
            WorldError::InconsistentOrInvalidGrid => {
                "All grid columns must be of the same length".to_owned()
            },
        }
    }
}

/// The grid as a mathematical value: one sequence of cell values per row.
pub open spec fn grid_seq(g: Seq<Vec<u8>>) -> Seq<Seq<u8>> {
    g.map_values(|row: Vec<u8>| row@)
}

/// A row of the grid value is the value of that row.
pub broadcast proof fn lemma_grid_seq_index(g: Seq<Vec<u8>>, i: int)
    requires
        0 <= i < g.len(),
    ensures
        #[trigger] grid_seq(g)[i] == g[i]@,
{
}

/// Row `i` conforms: it is as long as the first row and holds only 0 and 1.
pub open spec fn row_valid(g: Seq<Seq<u8>>, i: int) -> bool {
    &&& g[i].len() == g[0].len()
    &&& forall|j: int| 0 <= j < g[i].len() ==> g[i][j] == 0 || #[trigger] g[i][j] == 1
}

/// A grid the validator accepts: at least two rows, at least two columns,
/// all rows of equal length, every cell 0 or 1.
pub open spec fn valid_grid(g: Seq<Seq<u8>>) -> bool {
    &&& g.len() >= 2
    &&& g[0].len() >= 2
    &&& forall|i: int| 0 <= i < g.len() ==> #[trigger] row_valid(g, i)
}

/// The set of coordinates holding 1 in the grid.
pub open spec fn grid_live_set(g: Seq<Seq<u8>>) -> Set<(int, int)> {
    Set::new(|p: (int, int)| 0 <= p.0 < g.len() && 0 <= p.1 < g[p.0].len() && g[p.0][p.1] == 1)
}

/// The validator's verdict on a grid: the first check that fails, in order
/// (row count, column count, row consistency and cell values), or nothing.
pub open spec fn grid_error(g: Seq<Seq<u8>>) -> Option<WorldError> {
    if g.len() < 2 {
        Some(WorldError::TooFewRows)
    } else if g[0].len() < 2 {
        Some(WorldError::TooFewColumns)
    } else if !(forall|i: int| 0 <= i < g.len() ==> #[trigger] row_valid(g, i)) {
        Some(WorldError::InconsistentOrInvalidGrid)
    } else {
        None
    }
}

/// Checks a grid, short-circuiting on the first violated rule.
pub fn validate_grid(grid: &Vec<Vec<u8>>) -> (verdict: Option<WorldError>)
    ensures
        verdict == grid_error(grid_seq(grid@)),
        verdict is None <==> valid_grid(grid_seq(grid@)),
{
    let ghost g = grid_seq(grid@);
    let rows = grid.len();
    if rows < 2 {
        return Some(WorldError::TooFewRows);
    }
    let cols = grid[0].len();
    if cols < 2 {
        return Some(WorldError::TooFewColumns);
    }
    let mut i: usize = 0;
    while i < rows
        invariant
            g == grid_seq(grid@),
            rows == grid@.len(),
            cols == g[0].len(),
            rows >= 2,
            cols >= 2,
            i <= rows,
            forall|i2: int| 0 <= i2 < i ==> #[trigger] row_valid(g, i2),
        decreases rows - i,
    {
        let row = &grid[i];
        if row.len() != cols {
            assert(!row_valid(g, i as int));
            return Some(WorldError::InconsistentOrInvalidGrid);
        }
        let mut j: usize = 0;
        while j < cols
            invariant
                g == grid_seq(grid@),
                rows == grid@.len(),
                cols == g[0].len(),
                rows >= 2,
                cols >= 2,
                i < rows,
                j <= cols,
                g[i as int].len() == cols,
                row == &grid[i as int],
                forall|j2: int| 0 <= j2 < j ==> g[i as int][j2] == 0 || #[trigger] g[
                    i as int
                ][j2] == 1,
            decreases cols - j,
        {
            let v = row[j];
            if v != 0 && v != 1 {
                assert(!row_valid(g, i as int));
                return Some(WorldError::InconsistentOrInvalidGrid);
            }
            j += 1;
        }
        assert(row_valid(g, i as int));
        i += 1;
    }
    None
}

} // verus!
