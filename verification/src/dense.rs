//! The dense engine: the same construction contract and the same
//! generation-advance contract as the sparse engine, implemented as a
//! classic double-buffered full-grid scan. It serves as a correctness
//! oracle: both engines advance a generation to exactly
//! [`crate::rules::step_set`] of the previous live set.

use vstd::prelude::*;

use crate::grid::{
    grid_error, grid_live_set, grid_seq, row_valid, valid_grid, validate_grid, WorldError,
};
use crate::rules::{in_range, live_neighbor_count, next_alive, step_set, wrap_dec, wrap_inc};

verus! {

broadcast use crate::grid::lemma_grid_seq_index;

/// The dense world: fixed dimensions and the full grid, one binary value
/// per cell.
pub struct DenseWorld {
    rows: usize,
    cols: usize,
    grid: Vec<Vec<u8>>,
}

impl DenseWorld {
    /// The fixed number of rows.
    pub closed spec fn spec_rows(&self) -> int {
        self.rows as int
    }

    /// The fixed number of columns.
    pub closed spec fn spec_cols(&self) -> int {
        self.cols as int
    }

    /// The grid as a mathematical value.
    pub closed spec fn grid_view(&self) -> Seq<Seq<u8>> {
        grid_seq(self.grid@)
    }

    /// The set of currently live coordinates.
    pub closed spec fn live_set(&self) -> Set<(int, int)> {
        grid_live_set(self.grid_view())
    }

    /// A validated world: dimensions at least two, a full rectangular grid,
    /// every cell 0 or 1.
    pub closed spec fn wf(&self) -> bool {
        &&& self.rows >= 2
        &&& self.cols >= 2
        &&& self.grid@.len() == self.spec_rows()
        &&& forall|i: int|
            0 <= i < self.grid@.len() ==> (#[trigger] self.grid@[i])@.len() == self.spec_cols()
        &&& forall|i: int, j: int|
            0 <= i < self.spec_rows() && 0 <= j < self.spec_cols() ==> ((#[trigger] self.grid@[i]@[
                j
            ]) == 0 || self.grid@[i]@[j] == 1)
    }

    /// The dimensions fixed at construction.
    pub fn dimensions(&self) -> (dims: (usize, usize))
        ensures
            dims.0 as int == self.spec_rows(),
            dims.1 as int == self.spec_cols(),
    {
        (self.rows, self.cols)
    }

    /// Whether the cell at in-range coordinates is currently alive.
    pub fn is_live(&self, row_index: usize, col_index: usize) -> (live: bool)
        requires
            self.wf(),
            (row_index as int) < self.spec_rows(),
            (col_index as int) < self.spec_cols(),
        ensures
            live == self.live_set().contains((row_index as int, col_index as int)),
    {
        proof {
            assert(self.grid_view()[row_index as int] == self.grid@[row_index as int]@);
        }
        self.grid[row_index][col_index] == 1
    }

    /// Validates a row-major binary grid and builds the world whose live
    /// set is exactly the set of cells holding 1, or reports the first
    /// violated rule. The checks and the verdict are the same as for the
    /// sparse engine.
    pub fn from_config(grid: Vec<Vec<u8>>) -> (result: Result<DenseWorld, WorldError>)
        ensures
            result is Ok <==> valid_grid(grid_seq(grid@)),
            match result {
                Ok(w) => {
                    &&& w.wf()
                    &&& w.spec_rows() == grid@.len()
                    &&& w.spec_cols() == grid_seq(grid@)[0].len()
                    &&& w.live_set() == grid_live_set(grid_seq(grid@))
                },
                Err(e) => Some(e) == grid_error(grid_seq(grid@)),
            },
    {
        match validate_grid(&grid) {
            Some(e) => Err(e),
            None => {
                let rows = grid.len();
                let cols = grid[0].len();
                proof {
                    let g = grid_seq(grid@);
                    assert forall|i: int| 0 <= i < grid@.len() implies (#[trigger] grid@[i])@.len()
                        == g[0].len() by {
                        assert(row_valid(g, i));
                        assert(g[i] == grid@[i]@);
                    }
                    assert forall|i: int, j: int|
                        0 <= i < grid@.len() && 0 <= j < g[0].len() implies ((
                        #[trigger] grid@[i]@[j]) == 0 || grid@[i]@[j] == 1) by {
                        assert(row_valid(g, i));
                        assert(g[i] == grid@[i]@);
                    }
                }
                Ok(DenseWorld { rows, cols, grid })
            },
        }
    }

    /// Counts the live cells among the eight neighbor slots of `(row, col)`
    /// by direct lookup.
    fn count_live_neighbors(&self, row: usize, col: usize) -> (n: u8)
        requires
            self.wf(),
            (row as int) < self.spec_rows(),
            (col as int) < self.spec_cols(),
        ensures
            n as int == live_neighbor_count(
                self.live_set(),
                self.spec_rows(),
                self.spec_cols(),
                row as int,
                col as int,
            ),
    {
        let ghost rows_g = self.spec_rows();
        let ghost cols_g = self.spec_cols();
        let ghost s = self.live_set();
        let row_plus_one = if row + 1 == self.rows {
            0
        } else {
            row + 1
        };
        let row_minus_one = if row == 0 {
            self.rows - 1
        } else {
            row - 1
        };
        let col_plus_one = if col + 1 == self.cols {
            0
        } else {
            col + 1
        };
        let col_minus_one = if col == 0 {
            self.cols - 1
        } else {
            col - 1
        };
        proof {
            assert(row_minus_one as int == wrap_dec(row as int, rows_g));
            assert(row_plus_one as int == wrap_inc(row as int, rows_g));
            assert(col_minus_one as int == wrap_dec(col as int, cols_g));
            assert(col_plus_one as int == wrap_inc(col as int, cols_g));
        }
        let mut n: u8 = 0;
        if self.cell_at(row_minus_one, col_minus_one) {
            n += 1;
        }
        if self.cell_at(row_minus_one, col) {
            n += 1;
        }
        if self.cell_at(row_minus_one, col_plus_one) {
            n += 1;
        }
        if self.cell_at(row, col_minus_one) {
            n += 1;
        }
        if self.cell_at(row, col_plus_one) {
            n += 1;
        }
        if self.cell_at(row_plus_one, col_minus_one) {
            n += 1;
        }
        if self.cell_at(row_plus_one, col) {
            n += 1;
        }
        if self.cell_at(row_plus_one, col_plus_one) {
            n += 1;
        }
        n
    }

    /// Whether the in-range cell `(r, c)` holds 1.
    fn cell_at(&self, r: usize, c: usize) -> (live: bool)
        requires
            self.wf(),
            (r as int) < self.spec_rows(),
            (c as int) < self.spec_cols(),
        ensures
            live == self.live_set().contains((r as int, c as int)),
    {
        proof {
            assert(self.grid_view()[r as int] == self.grid@[r as int]@);
        }
        self.grid[r][c] == 1
    }

    /// Advances the world by exactly one generation with a full scan: the
    /// replacement grid is rebuilt cell by cell from the previous grid,
    /// applying the birth/survival rule to every cell.
    pub fn step(&mut self)
        requires
            old(self).wf(),
        ensures
            final(self).wf(),
            final(self).spec_rows() == old(self).spec_rows(),
            final(self).spec_cols() == old(self).spec_cols(),
            final(self).live_set() == step_set(
                old(self).live_set(),
                old(self).spec_rows(),
                old(self).spec_cols(),
            ),
    {
        let ghost rows_g = old(self).spec_rows();
        let ghost cols_g = old(self).spec_cols();
        let ghost s = old(self).live_set();
        let rows = self.rows;
        let cols = self.cols;
        let mut next: Vec<Vec<u8>> = Vec::new();
        let mut r: usize = 0;
        while r < rows
            invariant
                self.wf(),
                self.live_set() == s,
                self.spec_rows() == rows_g,
                self.spec_cols() == cols_g,
                rows == self.rows,
                cols == self.cols,
                r <= rows,
                next@.len() == r,
                forall|i: int| 0 <= i < r ==> (#[trigger] next@[i])@.len() == cols_g,
                forall|i: int, j: int|
                    0 <= i < r && 0 <= j < cols_g ==> (#[trigger] next@[i]@[j]) == (
                    if next_alive(s, rows_g, cols_g, i, j) {
                        1u8
                    } else {
                        0u8
                    }),
            decreases rows - r,
        {
            let mut next_row: Vec<u8> = Vec::new();
            let mut c: usize = 0;
            while c < cols
                invariant
                    self.wf(),
                    self.live_set() == s,
                    self.spec_rows() == rows_g,
                    self.spec_cols() == cols_g,
                    rows == self.rows,
                    cols == self.cols,
                    r < rows,
                    c <= cols,
                    next_row@.len() == c,
                    forall|j: int|
                        0 <= j < c ==> (#[trigger] next_row@[j]) == (if next_alive(
                            s,
                            rows_g,
                            cols_g,
                            r as int,
                            j,
                        ) {
                            1u8
                        } else {
                            0u8
                        }),
                decreases cols - c,
            {
                let n = self.count_live_neighbors(r, c);
                let alive_now = self.cell_at(r, c);
                let cell: u8 = if alive_now {
                    if n == 2 || n == 3 {
                        1
                    } else {
                        0
                    }
                } else {
                    if n == 3 {
                        1
                    } else {
                        0
                    }
                };
                next_row.push(cell);
                c += 1;
            }
            next.push(next_row);
            r += 1;
        }
        self.grid = next;
        proof {
            assert forall|q: (int, int)|
                self.live_set().contains(q) <==> step_set(s, rows_g, cols_g).contains(q) by {
                if in_range(rows_g, cols_g, q) {
                    assert(self.grid_view()[q.0] == next@[q.0]@);
                    assert(next@[q.0]@[q.1] == (if next_alive(s, rows_g, cols_g, q.0, q.1) {
                        1u8
                    } else {
                        0u8
                    }));
                }
            }
            assert(self.live_set() =~= step_set(s, rows_g, cols_g));
        }
    }
}

} // verus!
