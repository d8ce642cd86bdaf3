//! Coordinate indexing: an in-range `(row, col)` pair is stored under a
//! single integer key. The key `row * cols + col` is a true bijection over
//! the cells of one fixed grid shape, so two distinct coordinates of the
//! same grid can never collide; the maps nevertheless store the full
//! coordinate pair alongside the key.

use vstd::prelude::*;

verus! {

/// The storage key of cell `(r, c)` on a grid with `cols` columns.
pub open spec fn cell_key(r: int, c: int, cols: int) -> int {
    r * cols + c
}

/// Computes the storage key of a cell. A 128-bit key cannot overflow for
/// any machine-representable coordinates.
pub fn build_living_cell_key(row_index: usize, col_index: usize, cols: usize) -> (key: u128)
    ensures
        key as int == cell_key(row_index as int, col_index as int, cols as int),
{
    proof {
        vstd::arithmetic::mul::lemma_mul_upper_bound(
            row_index as int,
            0xffff_ffff_ffff_ffffint,
            cols as int,
            0xffff_ffff_ffff_ffffint,
        );
    }
    (row_index as u128) * (cols as u128) + (col_index as u128)
}

/// Within one grid shape the key determines the coordinate pair: two
/// in-range cells with equal keys are the same cell.
pub proof fn lemma_cell_key_injective(r1: int, c1: int, r2: int, c2: int, cols: int)
    requires
        0 <= r1,
        0 <= r2,
        0 <= c1 < cols,
        0 <= c2 < cols,
        cell_key(r1, c1, cols) == cell_key(r2, c2, cols),
    ensures
        r1 == r2,
        c1 == c2,
{
    vstd::arithmetic::div_mod::lemma_fundamental_div_mod_converse(
        cell_key(r1, c1, cols),
        cols,
        r1,
        c1,
    );
    vstd::arithmetic::div_mod::lemma_fundamental_div_mod_converse(
        cell_key(r2, c2, cols),
        cols,
        r2,
        c2,
    );
}

} // verus!
