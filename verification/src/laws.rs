//! Laws the kernel obeys, stated over the spec functions the engines'
//! contracts use and proved once and for all.

use vstd::prelude::*;

use crate::dense::DenseWorld;
use crate::rules::{
    in_range, lemma_tally_is_neighbor_count, live_neighbor_count, neighbor_pos, step_set, tally,
};
use crate::world::DullWorld;

verus! {

/// Engine equivalence: a sparse world and a dense world with the same
/// dimensions and the same live set advance one generation to the same
/// live set. Each engine's `step` guarantees that its live set becomes
/// exactly `step_set` of its previous state, so the two results coincide.
pub proof fn lemma_engine_equivalence(sparse: &DullWorld, dense: &DenseWorld)
    requires
        sparse.wf(),
        dense.wf(),
        sparse.spec_rows() == dense.spec_rows(),
        sparse.spec_cols() == dense.spec_cols(),
        sparse.live_set() == dense.live_set(),
    ensures
        step_set(sparse.live_set(), sparse.spec_rows(), sparse.spec_cols()) == step_set(
            dense.live_set(),
            dense.spec_rows(),
            dense.spec_cols(),
        ),
{
}

/// Order independence of the candidate tally: two enumerations of the same
/// live set, in whatever order each happens to list the cells, accumulate
/// the same tally at every cell. Together with `step`'s contract, which
/// pins the next generation to a function of the live set alone, this is
/// why advancing a captured generation always yields the same result no
/// matter how the live cells are enumerated.
pub proof fn lemma_tally_order_independent(
    rows: int,
    cols: int,
    ls1: Seq<(int, int)>,
    ls2: Seq<(int, int)>,
    d: (int, int),
)
    requires
        rows >= 2,
        cols >= 2,
        ls1.no_duplicates(),
        ls2.no_duplicates(),
        forall|i: int| 0 <= i < ls1.len() ==> in_range(rows, cols, #[trigger] ls1[i]),
        forall|i: int| 0 <= i < ls2.len() ==> in_range(rows, cols, #[trigger] ls2[i]),
        ls1.to_set() == ls2.to_set(),
        in_range(rows, cols, d),
    ensures
        tally(rows, cols, ls1, d) == tally(rows, cols, ls2, d),
{
    lemma_tally_is_neighbor_count(rows, cols, ls1, ls1.to_set(), d);
    lemma_tally_is_neighbor_count(rows, cols, ls2, ls2.to_set(), d);
}

/// Determinism of the sparse engine: two validated worlds with the same
/// dimensions and the same live set — however differently their stores
/// happen to enumerate it — advance one generation to the same live set,
/// since each `step` contract pins the result to `step_set` of the state.
pub proof fn lemma_step_depends_on_state_alone(a: &DullWorld, b: &DullWorld)
    requires
        a.wf(),
        b.wf(),
        a.spec_rows() == b.spec_rows(),
        a.spec_cols() == b.spec_cols(),
        a.live_set() == b.live_set(),
    ensures
        step_set(a.live_set(), a.spec_rows(), a.spec_cols()) == step_set(
            b.live_set(),
            b.spec_rows(),
            b.spec_cols(),
        ),
{
}

/// Construction round trip: an enumeration of the live cells taken right
/// after a world was built from a valid grid — as `get_living_cells`
/// guarantees to produce — is exactly the set of coordinates holding 1 in
/// that grid, as `from_config` guarantees to store.
pub proof fn lemma_construction_round_trip(
    g: Seq<Seq<u8>>,
    w: &DullWorld,
    cells: Seq<(usize, usize)>,
)
    requires
        w.wf(),
        w.live_set() == crate::grid::grid_live_set(g),
        crate::world::cell_seq(cells).to_set() == w.live_set(),
    ensures
        crate::world::cell_seq(cells).to_set() == crate::grid::grid_live_set(g),
{
}

/// Toroidal wrap: the cell at the opposite corner of the grid is a
/// neighbor of the origin, so a live cell there is counted among the
/// origin's live neighbors.
pub proof fn lemma_toroidal_wrap(s: Set<(int, int)>, rows: int, cols: int)
    requires
        rows >= 2,
        cols >= 2,
        s.contains((rows - 1, cols - 1)),
    ensures
        neighbor_pos(rows, cols, 0, 0, 0) == (rows - 1, cols - 1),
        live_neighbor_count(s, rows, cols, 0, 0) >= 1,
{
}

/// A single isolated live cell dies of underpopulation and gives birth to
/// nothing: on a grid of at least three rows and columns the eight
/// neighbor slots of any cell are pairwise distinct, so no dead cell can
/// see the lone cell more than once, let alone three times.
pub proof fn lemma_lone_cell_dies(l: (int, int), rows: int, cols: int)
    requires
        rows >= 3,
        cols >= 3,
        in_range(rows, cols, l),
    ensures
        step_set(Set::<(int, int)>::empty().insert(l), rows, cols) == Set::<(int, int)>::empty(),
{
    let s = Set::<(int, int)>::empty().insert(l);
    assert forall|q: (int, int)| !(#[trigger] step_set(s, rows, cols).contains(q)) by {
        if in_range(rows, cols, q) {
            assert(live_neighbor_count(s, rows, cols, q.0, q.1) <= 1) by {
                assert(forall|k: int|
                    0 <= k < 8 ==> #[trigger] neighbor_pos(rows, cols, q.0, q.1, k) != q);
            }
        }
    }
    assert(step_set(s, rows, cols) =~= Set::<(int, int)>::empty());
}

/// A dead universe stays dead: with no live cells every cell has zero live
/// neighbors, so no step on any grid ever gives birth to a cell.
pub proof fn lemma_empty_universe_stable(rows: int, cols: int)
    ensures
        step_set(Set::<(int, int)>::empty(), rows, cols) == Set::<(int, int)>::empty(),
{
    let e = Set::<(int, int)>::empty();
    assert(step_set(e, rows, cols) =~= e);
}

} // verus!
