//! The sparse engine: the world holds only its live cells, as a map from a
//! cell's storage key to its coordinates, together with the list of those
//! coordinates. A generation advances by visiting live cells and their
//! neighbors only, never by scanning the whole grid.

use std::collections::HashMap;
use vstd::prelude::*;

use crate::grid::{grid_error, grid_live_set, grid_seq, valid_grid, validate_grid, WorldError};
use crate::index::{build_living_cell_key, cell_key, lemma_cell_key_injective};
use crate::rules::{
    hit_count, in_range, lemma_tally_bounds, lemma_tally_is_neighbor_count,
    lemma_tally_out_of_range, live_neighbor_count, nbr_ind, neighbor_pos, slot_ind, step_set,
    tally, wrap_dec, wrap_inc,
};

verus! {

broadcast use vstd::std_specs::hash::group_hash_axioms;

/// A coordinate pair as a mathematical value.
pub open spec fn pi(p: (usize, usize)) -> (int, int) {
    (p.0 as int, p.1 as int)
}

/// A list of coordinate pairs as mathematical values.
pub open spec fn cell_seq(l: Seq<(usize, usize)>) -> Seq<(int, int)> {
    l.map_values(|p: (usize, usize)| pi(p))
}

/// The live-cell store is sound: the list holds each live cell exactly once
/// and in range, and the map holds exactly the listed cells, each under the
/// key derived from its coordinates.
pub open spec fn live_store_wf(
    rows: int,
    cols: int,
    m: Map<u128, (usize, usize)>,
    l: Seq<(usize, usize)>,
) -> bool {
    &&& cell_seq(l).no_duplicates()
    &&& forall|i: int| 0 <= i < l.len() ==> in_range(rows, cols, pi(#[trigger] l[i]))
    &&& forall|i: int| #![trigger l[i]]
        0 <= i < l.len() ==> exists|k: u128| #[trigger] m.contains_key(k) && m[k] == l[i]
    &&& forall|k: u128| #[trigger]
        m.contains_key(k) ==> {
            &&& l.contains(m[k])
            &&& in_range(rows, cols, pi(m[k]))
            &&& k as int == cell_key(m[k].0 as int, m[k].1 as int, cols)
        }
}

/// A key built from in-range coordinates is in the map exactly when those
/// coordinates are in the live set; when it is, it maps to them.
pub proof fn lemma_store_membership(
    rows: int,
    cols: int,
    m: Map<u128, (usize, usize)>,
    l: Seq<(usize, usize)>,
    r: int,
    c: int,
    k: u128,
)
    requires
        live_store_wf(rows, cols, m, l),
        in_range(rows, cols, (r, c)),
        k as int == cell_key(r, c, cols),
    ensures
        m.contains_key(k) <==> cell_seq(l).to_set().contains((r, c)),
        m.contains_key(k) ==> pi(m[k]) == (r, c),
{
    if m.contains_key(k) {
        let p = m[k];
        lemma_cell_key_injective(p.0 as int, p.1 as int, r, c, cols);
        let i = choose|i: int| 0 <= i < l.len() && l[i] == p;
        assert(cell_seq(l)[i] == pi(p));
        assert(cell_seq(l).contains((r, c)));
    }
    if cell_seq(l).to_set().contains((r, c)) {
        let i = choose|i: int| 0 <= i < cell_seq(l).len() && cell_seq(l)[i] == (r, c);
        let k2 = choose|k2: u128| m.contains_key(k2) && m[k2] == l[i];
        assert(pi(l[i]) == (r, c));
        assert(k2 as int == cell_key(r, c, cols));
        assert(k2 == k);
    }
}

/// Inserting a fresh in-range cell under its own key keeps the store sound
/// and grows the live set by exactly that cell.
pub proof fn lemma_store_insert(
    rows: int,
    cols: int,
    m: Map<u128, (usize, usize)>,
    l: Seq<(usize, usize)>,
    k: u128,
    p: (usize, usize),
)
    requires
        live_store_wf(rows, cols, m, l),
        in_range(rows, cols, pi(p)),
        k as int == cell_key(p.0 as int, p.1 as int, cols),
        !cell_seq(l).to_set().contains(pi(p)),
    ensures
        !m.contains_key(k),
        live_store_wf(rows, cols, m.insert(k, p), l.push(p)),
        cell_seq(l.push(p)).to_set() == cell_seq(l).to_set().insert(pi(p)),
{
    lemma_store_membership(rows, cols, m, l, p.0 as int, p.1 as int, k);
    let m2 = m.insert(k, p);
    let l2 = l.push(p);
    assert(cell_seq(l2) =~= cell_seq(l).push(pi(p)));
    assert(!cell_seq(l).contains(pi(p)));
    assert(forall|i: int| 0 <= i < l.len() ==> #[trigger] l2[i] == l[i]);
    assert(l2[l.len() as int] == p);
    assert forall|i: int| 0 <= i < l2.len() implies in_range(rows, cols, pi(#[trigger] l2[i])) by {
        if i < l.len() {
            assert(in_range(rows, cols, pi(l[i])));
        }
    }
    assert(cell_seq(l2).no_duplicates()) by {
        assert(forall|i: int, j: int|
            0 <= i < j < cell_seq(l2).len() ==> cell_seq(l2)[i] != cell_seq(l2)[j]) by {
            assert(forall|i: int|
                0 <= i < cell_seq(l).len() ==> cell_seq(l2)[i] == cell_seq(l)[i]);
        }
    }
    assert forall|i: int| #![trigger l2[i]] 0 <= i < l2.len() implies exists|k2: u128| #[trigger]
        m2.contains_key(k2) && m2[k2] == l2[i] by {
        if i < l.len() {
            let k2 = choose|k2: u128| m.contains_key(k2) && m[k2] == l[i];
            assert(m2.contains_key(k2) && m2[k2] == l2[i]);
        } else {
            assert(m2.contains_key(k) && m2[k] == l2[i]);
        }
    }
    assert forall|k2: u128| #[trigger] m2.contains_key(k2) implies {
        &&& l2.contains(m2[k2])
        &&& in_range(rows, cols, pi(m2[k2]))
        &&& k2 as int == cell_key(m2[k2].0 as int, m2[k2].1 as int, cols)
    } by {
        if k2 == k {
            assert(l2[l.len() as int] == p);
        } else {
            let q = m[k2];
            let i = choose|i: int| 0 <= i < l.len() && l[i] == q;
            assert(l2[i] == q);
        }
    }
    assert forall|q: (int, int)| #[trigger]
        cell_seq(l2).contains(q) implies cell_seq(l).contains(q) || q == pi(p) by {
        let i = choose|i: int| 0 <= i < cell_seq(l2).len() && cell_seq(l2)[i] == q;
        if i < l.len() {
            assert(cell_seq(l)[i] == q);
        }
    }
    assert forall|q: (int, int)| #[trigger] cell_seq(l).contains(q) implies cell_seq(l2).contains(
        q,
    ) by {
        let i = choose|i: int| 0 <= i < cell_seq(l).len() && cell_seq(l)[i] == q;
        assert(cell_seq(l2)[i] == q);
    }
    assert(cell_seq(l2)[l.len() as int] == pi(p));
    assert(cell_seq(l2).contains(pi(p)));
    assert(cell_seq(l2).to_set() =~= cell_seq(l).to_set().insert(pi(p)));
}

/// The sparse world: fixed dimensions and the live-cell store. Mutated only
/// by [`DullWorld::step`], which replaces the store atomically.
pub struct DullWorld {
    rows: usize,
    cols: usize,
    living_cells: HashMap<u128, (usize, usize)>,
    live_list: Vec<(usize, usize)>,
}

impl DullWorld {
    /// The fixed number of rows.
    pub closed spec fn spec_rows(&self) -> int {
        self.rows as int
    }

    /// The fixed number of columns.
    pub closed spec fn spec_cols(&self) -> int {
        self.cols as int
    }

    /// The set of currently live coordinates.
    pub closed spec fn live_set(&self) -> Set<(int, int)> {
        cell_seq(self.live_list@).to_set()
    }

    /// A validated world: dimensions at least two and a sound store.
    pub closed spec fn wf(&self) -> bool {
        &&& self.rows >= 2
        &&& self.cols >= 2
        &&& live_store_wf(self.rows as int, self.cols as int, self.living_cells@, self.live_list@)
    }

    /// The dimensions fixed at construction.
    pub fn dimensions(&self) -> (dims: (usize, usize))
        ensures
            dims.0 as int == self.spec_rows(),
            dims.1 as int == self.spec_cols(),
    {
        (self.rows, self.cols)
    }

    /// All currently live coordinates, each exactly once.
    pub fn get_living_cells(&self) -> (cells: Vec<(usize, usize)>)
        requires
            self.wf(),
        ensures
            cell_seq(cells@).to_set() == self.live_set(),
            cell_seq(cells@).no_duplicates(),
    {
        let mut cells: Vec<(usize, usize)> = Vec::new();
        let mut i: usize = 0;
        while i < self.live_list.len()
            invariant
                i <= self.live_list@.len(),
                cells@ == self.live_list@.take(i as int),
            decreases self.live_list@.len() - i,
        {
            assert(self.live_list@.take(i + 1) =~= self.live_list@.take(i as int).push(
                self.live_list@[i as int],
            ));
            cells.push(self.live_list[i]);
            i += 1;
        }
        assert(cells@ =~= self.live_list@);
        cells
    }

    /// Whether the cell at in-range coordinates is currently alive.
    pub fn is_live(&self, row_index: usize, col_index: usize) -> (live: bool)
        requires
            self.wf(),
            (row_index as int) < self.spec_rows(),
            (col_index as int) < self.spec_cols(),
        ensures
            live == self.live_set().contains((row_index as int, col_index as int)),
    {
        let key = build_living_cell_key(row_index, col_index, self.cols);
        proof {
            lemma_store_membership(
                self.rows as int,
                self.cols as int,
                self.living_cells@,
                self.live_list@,
                row_index as int,
                col_index as int,
                key,
            );
        }
        self.living_cells.contains_key(&key)
    }

    /// Looks at one neighbor slot of the live cell `(row, col)`: reports
    /// whether the cell there is alive, and when it is dead raises its tally
    /// in the candidate accumulator by one.
    fn visit_neighbor(
        &self,
        row: usize,
        col: usize,
        slot: Ghost<int>,
        nr: usize,
        nc: usize,
        acc: &mut Accumulator,
    ) -> (was_live: bool)
        requires
            self.wf(),
            old(acc).wf(),
            old(acc).rows == self.spec_rows(),
            old(acc).cols == self.spec_cols(),
            0 <= slot@ < 8,
            (nr as int, nc as int) == neighbor_pos(
                self.spec_rows(),
                self.spec_cols(),
                row as int,
                col as int,
                slot@,
            ),
            (nr as int) < self.spec_rows(),
            (nc as int) < self.spec_cols(),
            acc_cnt(old(acc).counts@, (nr as int, nc as int)) <= 100,
        ensures
            final(acc).wf(),
            final(acc).rows == old(acc).rows,
            final(acc).cols == old(acc).cols,
            was_live == self.live_set().contains((nr as int, nc as int)),
            was_live == (nbr_ind(
                self.live_set(),
                self.spec_rows(),
                self.spec_cols(),
                row as int,
                col as int,
                slot@,
            ) == 1),
            forall|d: (int, int)|
                self.live_set().contains(d) ==> acc_cnt(final(acc).counts@, d) == acc_cnt(
                    old(acc).counts@,
                    d,
                ),
            forall|d: (int, int)|
                !self.live_set().contains(d) ==> acc_cnt(final(acc).counts@, d) == acc_cnt(
                    old(acc).counts@,
                    d,
                ) + slot_ind(
                    self.spec_rows(),
                    self.spec_cols(),
                    (row as int, col as int),
                    d,
                    slot@,
                ),
            forall|d: (int, int)|
                acc_cnt(final(acc).counts@, d) <= acc_cnt(old(acc).counts@, d) + 1,
    {
        let ghost rows = self.spec_rows();
        let ghost cols = self.spec_cols();
        let ghost s = self.live_set();
        let ghost np = (nr as int, nc as int);
        let key = build_living_cell_key(nr, nc, self.cols);
        proof {
            lemma_store_membership(
                rows,
                cols,
                self.living_cells@,
                self.live_list@,
                nr as int,
                nc as int,
                key,
            );
        }
        if self.living_cells.contains_key(&key) {
            proof {
                assert forall|d: (int, int)| !s.contains(d) implies slot_ind(
                    rows,
                    cols,
                    (row as int, col as int),
                    d,
                    slot@,
                ) == 0 by {
                    assert(np != d);
                }
            }
            true
        } else {
            let found: Option<(u8, (usize, usize))> = match acc.counts.get(&key) {
                Some(entry) => Some(*entry),
                None => None,
            };
            match found {
                Some((n, p)) => {
                    proof {
                        assert(acc.counts@[key] == (n, p));
                        lemma_cell_key_injective(p.0 as int, p.1 as int, nr as int, nc as int,
                            self.spec_cols());
                        assert(pi(p) == np);
                        lemma_acc_cnt(rows, cols, acc.counts@, acc.cells@, key);
                        assert(n as int <= 100);
                        lemma_acc_bump(rows, cols, acc.counts@, acc.cells@, key);
                    }
                    acc.counts.insert(key, (n + 1, p));
                },
                None => {
                    proof {
                        lemma_acc_insert_fresh(
                            rows,
                            cols,
                            acc.counts@,
                            acc.cells@,
                            key,
                            (nr, nc),
                        );
                    }
                    acc.counts.insert(key, (1, (nr, nc)));
                    acc.cells.push((nr, nc));
                },
            }
            proof {
                assert forall|d: (int, int)| !s.contains(d) implies acc_cnt(acc.counts@, d)
                    == acc_cnt(old(acc).counts@, d) + slot_ind(
                    rows,
                    cols,
                    (row as int, col as int),
                    d,
                    slot@,
                ) by {
                    if d != np {
                        assert(slot_ind(rows, cols, (row as int, col as int), d, slot@) == 0);
                    }
                }
                assert forall|d: (int, int)| s.contains(d) implies acc_cnt(acc.counts@, d)
                    == acc_cnt(old(acc).counts@, d) by {
                    assert(d != np);
                }
            }
            false
        }
    }

    /// Computes the live-neighbor count of the live cell `(row, col)` and,
    /// for each of its dead neighbor slots, raises that dead cell's tally in
    /// the candidate accumulator by one.
    #[verifier::rlimit(100)]
    #[verifier::spinoff_prover]
    fn process_neighbors(&self, row: usize, col: usize, acc: &mut Accumulator) -> (n: u8)
        requires
            self.wf(),
            old(acc).wf(),
            old(acc).rows == self.spec_rows(),
            old(acc).cols == self.spec_cols(),
            (row as int) < self.spec_rows(),
            (col as int) < self.spec_cols(),
            forall|d: (int, int)| acc_cnt(old(acc).counts@, d) <= 8,
        ensures
            final(acc).wf(),
            final(acc).rows == old(acc).rows,
            final(acc).cols == old(acc).cols,
            n as int == live_neighbor_count(
                self.live_set(),
                self.spec_rows(),
                self.spec_cols(),
                row as int,
                col as int,
            ),
            forall|d: (int, int)|
                self.live_set().contains(d) ==> acc_cnt(final(acc).counts@, d) == acc_cnt(
                    old(acc).counts@,
                    d,
                ),
            forall|d: (int, int)|
                !self.live_set().contains(d) ==> acc_cnt(final(acc).counts@, d) == acc_cnt(
                    old(acc).counts@,
                    d,
                ) + hit_count(
                    self.spec_rows(),
                    self.spec_cols(),
                    (row as int, col as int),
                    d,
                ),
    {
        let ghost rows = self.spec_rows();
        let ghost cols = self.spec_cols();
        let ghost s = self.live_set();
        let ghost lc = (row as int, col as int);
        let ghost m0 = old(acc).counts@;
        let row_plus_one = if row + 1 == self.rows {
            0
        } else {
            row + 1
        };
        let row_minus_one = if row == 0 {
            self.rows - 1
        } else {
            row - 1
        };
        let col_plus_one = if col + 1 == self.cols {
            0
        } else {
            col + 1
        };
        let col_minus_one = if col == 0 {
            self.cols - 1
        } else {
            col - 1
        };
        proof {
            assert(row_minus_one as int == wrap_dec(row as int, rows));
            assert(row_plus_one as int == wrap_inc(row as int, rows));
            assert(col_minus_one as int == wrap_dec(col as int, cols));
            assert(col_plus_one as int == wrap_inc(col as int, cols));
        }
        let mut n: u8 = 0;
        let b0 = self.visit_neighbor(row, col, Ghost(0), row_minus_one, col_minus_one, acc);
        if b0 {
            n += 1;
        }
        proof {
            assert(forall|d: (int, int)| acc_cnt(acc.counts@, d) <= acc_cnt(m0, d) + 1);
        }
        let b1 = self.visit_neighbor(row, col, Ghost(1), row_minus_one, col, acc);
        if b1 {
            n += 1;
        }
        proof {
            assert(forall|d: (int, int)| acc_cnt(acc.counts@, d) <= acc_cnt(m0, d) + 2);
        }
        let b2 = self.visit_neighbor(row, col, Ghost(2), row_minus_one, col_plus_one, acc);
        if b2 {
            n += 1;
        }
        proof {
            assert(forall|d: (int, int)| acc_cnt(acc.counts@, d) <= acc_cnt(m0, d) + 3);
        }
        let b3 = self.visit_neighbor(row, col, Ghost(3), row, col_minus_one, acc);
        if b3 {
            n += 1;
        }
        proof {
            assert(forall|d: (int, int)| acc_cnt(acc.counts@, d) <= acc_cnt(m0, d) + 4);
        }
        let b4 = self.visit_neighbor(row, col, Ghost(4), row, col_plus_one, acc);
        if b4 {
            n += 1;
        }
        proof {
            assert(forall|d: (int, int)| acc_cnt(acc.counts@, d) <= acc_cnt(m0, d) + 5);
        }
        let b5 = self.visit_neighbor(row, col, Ghost(5), row_plus_one, col_minus_one, acc);
        if b5 {
            n += 1;
        }
        proof {
            assert(forall|d: (int, int)| acc_cnt(acc.counts@, d) <= acc_cnt(m0, d) + 6);
        }
        let b6 = self.visit_neighbor(row, col, Ghost(6), row_plus_one, col, acc);
        if b6 {
            n += 1;
        }
        proof {
            assert(forall|d: (int, int)| acc_cnt(acc.counts@, d) <= acc_cnt(m0, d) + 7);
        }
        let b7 = self.visit_neighbor(row, col, Ghost(7), row_plus_one, col_plus_one, acc);
        if b7 {
            n += 1;
        }
        proof {
            assert(n as int == live_neighbor_count(s, rows, cols, row as int, col as int));
        }
        n
    }

    /// Advances the world by exactly one generation: every live cell with
    /// two or three live neighbors survives, every dead cell with exactly
    /// three live neighbors is born, and nothing else lives. The previous
    /// generation's store is replaced atomically.
    ///
    /// The result is a function of the previous live set and the dimensions
    /// alone, so the order in which live cells happen to be enumerated
    /// internally cannot affect it.
    #[verifier::rlimit(100)]
    #[verifier::spinoff_prover]
    pub fn step(&mut self)
        requires
            old(self).wf(),
        ensures
            final(self).wf(),
            final(self).spec_rows() == old(self).spec_rows(),
            final(self).spec_cols() == old(self).spec_cols(),
            final(self).live_set() == step_set(
                old(self).live_set(),
                old(self).spec_rows(),
                old(self).spec_cols(),
            ),
    {
        let ghost rows_g = old(self).spec_rows();
        let ghost cols_g = old(self).spec_cols();
        let ghost s = old(self).live_set();
        let ghost full = cell_seq(old(self).live_list@);
        proof {
            assert(forall|t: int| 0 <= t < full.len() ==> #[trigger] full[t] == pi(
                old(self).live_list@[t],
            ));
            assert(forall|t: int| 0 <= t < full.len() ==> in_range(rows_g, cols_g, #[trigger] full[t]));
        }
        let rows = self.rows;
        let cols = self.cols;
        let mut acc = Accumulator::new(rows, cols);
        let mut next_map: HashMap<u128, (usize, usize)> = HashMap::new();
        let mut next_list: Vec<(usize, usize)> = Vec::new();
        assert(cell_seq(next_list@).to_set() =~= survivors(s, rows_g, cols_g, full.take(0)));
        let mut i: usize = 0;
        while i < self.live_list.len()
            invariant
                self.wf(),
                self.live_set() == s,
                self.spec_rows() == rows_g,
                self.spec_cols() == cols_g,
                rows == self.rows,
                cols == self.cols,
                full == cell_seq(self.live_list@),
                forall|t: int| 0 <= t < full.len() ==> in_range(rows_g, cols_g, #[trigger] full[t]),
                i <= self.live_list@.len(),
                acc.wf(),
                acc.rows == rows,
                acc.cols == cols,
                forall|d: (int, int)| s.contains(d) ==> acc_cnt(acc.counts@, d) == 0,
                forall|d: (int, int)|
                    !s.contains(d) ==> acc_cnt(acc.counts@, d) == tally(
                        rows_g,
                        cols_g,
                        full.take(i as int),
                        d,
                    ),
                live_store_wf(rows_g, cols_g, next_map@, next_list@),
                cell_seq(next_list@).to_set() == survivors(s, rows_g, cols_g, full.take(i as int)),
            decreases self.live_list@.len() - i,
        {
            let ghost prefix = full.take(i as int);
            let ghost prefix2 = full.take(i + 1);
            let cell = self.live_list[i];
            let row = cell.0;
            let col = cell.1;
            proof {
                assert(full[i as int] == pi(cell));
                assert(full.contains(pi(cell)));
                assert(s.contains((row as int, col as int)));
                lemma_prefix_wf(rows_g, cols_g, full, i as int);
                assert forall|d: (int, int)| acc_cnt(acc.counts@, d) <= 8 by {
                    if s.contains(d) {
                    } else if in_range(rows_g, cols_g, d) {
                        lemma_tally_bounds(rows_g, cols_g, prefix, d);
                    } else {
                        lemma_tally_out_of_range(rows_g, cols_g, prefix, d);
                    }
                }
            }
            let n = self.process_neighbors(row, col, &mut acc);
            proof {
                assert(prefix2.drop_last() =~= prefix);
                assert(prefix2.last() == full[i as int]);
                assert forall|d: (int, int)| !s.contains(d) implies acc_cnt(acc.counts@, d)
                    == tally(rows_g, cols_g, prefix2, d) by {
                    assert(tally(rows_g, cols_g, prefix2, d) == tally(rows_g, cols_g, prefix, d)
                        + hit_count(rows_g, cols_g, full[i as int], d));
                }
            }
            if n == 2 || n == 3 {
                let key = build_living_cell_key(row, col, cols);
                proof {
                    assert(!cell_seq(next_list@).to_set().contains(pi(cell))) by {
                        if survivors(s, rows_g, cols_g, prefix).contains(pi(cell)) {
                            let t = choose|t: int|
                                0 <= t < prefix.len() && prefix[t] == pi(cell);
                            assert(full[t] == full[i as int]);
                        }
                    }
                    lemma_store_insert(rows_g, cols_g, next_map@, next_list@, key, cell);
                }
                next_map.insert(key, cell);
                next_list.push(cell);
            }
            proof {
                assert forall|q: (int, int)|
                    survivors(s, rows_g, cols_g, prefix2).contains(q) <==> (survivors(
                        s,
                        rows_g,
                        cols_g,
                        prefix,
                    ).contains(q) || (q == pi(cell) && (n == 2 || n == 3))) by {
                    assert(forall|t: int| 0 <= t < prefix.len() ==> prefix2[t] == #[trigger] prefix[t]);
                    assert(prefix2[i as int] == pi(cell));
                    if prefix2.contains(q) {
                        let t = choose|t: int| 0 <= t < prefix2.len() && prefix2[t] == q;
                        if t < i {
                            assert(prefix[t] == q);
                        }
                    }
                    if prefix.contains(q) {
                        let t = choose|t: int| 0 <= t < prefix.len() && prefix[t] == q;
                        assert(prefix2[t] == q);
                    }
                    assert(prefix2.contains(pi(cell)));
                }
                assert(cell_seq(next_list@).to_set() =~= survivors(s, rows_g, cols_g, prefix2));
            }
            i += 1;
        }
        proof {
            assert(full.take(self.live_list@.len() as int) =~= full);
        }
        let ghost cand = cell_seq(acc.cells@);
        assert(cell_seq(next_list@).to_set() =~= survivors(s, rows_g, cols_g, full).union(
            born_set(acc.counts@, cand.take(0)),
        ));
        let mut j: usize = 0;
        while j < acc.cells.len()
            invariant
                self.wf(),
                self.live_set() == s,
                self.spec_rows() == rows_g,
                self.spec_cols() == cols_g,
                rows == self.rows,
                cols == self.cols,
                full == cell_seq(self.live_list@),
                acc.wf(),
                acc.rows == rows,
                acc.cols == cols,
                cand == cell_seq(acc.cells@),
                j <= acc.cells@.len(),
                forall|d: (int, int)| s.contains(d) ==> acc_cnt(acc.counts@, d) == 0,
                forall|d: (int, int)|
                    !s.contains(d) ==> acc_cnt(acc.counts@, d) == tally(rows_g, cols_g, full, d),
                live_store_wf(rows_g, cols_g, next_map@, next_list@),
                cell_seq(next_list@).to_set() == survivors(s, rows_g, cols_g, full).union(
                    born_set(acc.counts@, cand.take(j as int)),
                ),
            decreases acc.cells@.len() - j,
        {
            let ghost bprefix = cand.take(j as int);
            let ghost bprefix2 = cand.take(j + 1);
            let p = acc.cells[j];
            proof {
                assert(cand[j as int] == pi(p));
                assert(in_range(rows_g, cols_g, pi(p)));
            }
            let key = build_living_cell_key(p.0, p.1, cols);
            proof {
                let k2 = choose|k2: u128| #[trigger]
                    acc.counts@.contains_key(k2) && acc.counts@[k2].1 == acc.cells@[j as int];
                assert(k2 as int == cell_key(p.0 as int, p.1 as int, cols_g));
                assert(k2 == key);
                assert(acc.counts@.contains_key(key) && acc.counts@[key].1 == p);
                lemma_acc_cnt(rows_g, cols_g, acc.counts@, acc.cells@, key);
            }
            let count = match acc.counts.get(&key) {
                Some(entry) => entry.0,
                None => 0,
            };
            proof {
                assert(count as int == acc_cnt(acc.counts@, pi(p)));
            }
            if count == 3 {
                proof {
                    assert(!s.contains(pi(p)));
                    assert(!cell_seq(next_list@).to_set().contains(pi(p))) by {
                        if survivors(s, rows_g, cols_g, full).contains(pi(p)) {
                            assert(full.contains(pi(p)));
                        }
                        if born_set(acc.counts@, bprefix).contains(pi(p)) {
                            let t = choose|t: int| 0 <= t < bprefix.len() && bprefix[t] == pi(p);
                            assert(cand[t] == cand[j as int]);
                        }
                    }
                    lemma_store_insert(rows_g, cols_g, next_map@, next_list@, key, p);
                }
                next_map.insert(key, p);
                next_list.push(p);
            }
            proof {
                assert forall|q: (int, int)|
                    born_set(acc.counts@, bprefix2).contains(q) <==> (born_set(
                        acc.counts@,
                        bprefix,
                    ).contains(q) || (q == pi(p) && count == 3)) by {
                    assert(forall|t: int| 0 <= t < bprefix.len() ==> bprefix2[t] == #[trigger] bprefix[t]);
                    assert(bprefix2[j as int] == pi(p));
                    if bprefix2.contains(q) {
                        let t = choose|t: int| 0 <= t < bprefix2.len() && bprefix2[t] == q;
                        if t < j {
                            assert(bprefix[t] == q);
                        }
                    }
                    if bprefix.contains(q) {
                        let t = choose|t: int| 0 <= t < bprefix.len() && bprefix[t] == q;
                        assert(bprefix2[t] == q);
                    }
                    assert(bprefix2.contains(pi(p)));
                }
                assert(cell_seq(next_list@).to_set() =~= survivors(s, rows_g, cols_g, full).union(
                    born_set(acc.counts@, bprefix2),
                ));
            }
            j += 1;
        }
        proof {
            assert(cand.take(acc.cells@.len() as int) =~= cand);
            let ns = cell_seq(next_list@).to_set();
            assert forall|q: (int, int)| ns.contains(q) implies step_set(
                s,
                rows_g,
                cols_g,
            ).contains(q) by {
                if survivors(s, rows_g, cols_g, full).contains(q) {
                    assert(full.contains(q));
                    assert(s.contains(q));
                    let t = choose|t: int| 0 <= t < full.len() && full[t] == q;
                    assert(in_range(rows_g, cols_g, q));
                } else {
                    assert(born_set(acc.counts@, cand).contains(q));
                    assert(cand.contains(q));
                    let t = choose|t: int| 0 <= t < cand.len() && cand[t] == q;
                    assert(cand[t] == pi(acc.cells@[t]));
                    assert(in_range(rows_g, cols_g, q));
                    assert(!s.contains(q)) by {
                        if s.contains(q) {
                            assert(acc_cnt(acc.counts@, q) == 0);
                        }
                    }
                    lemma_tally_is_neighbor_count(rows_g, cols_g, full, s, q);
                    assert(live_neighbor_count(s, rows_g, cols_g, q.0, q.1) == 3);
                }
            }
            assert forall|q: (int, int)| step_set(s, rows_g, cols_g).contains(q) implies ns.contains(
                q,
            ) by {
                if s.contains(q) {
                    assert(full.contains(q));
                    assert(survivors(s, rows_g, cols_g, full).contains(q));
                } else {
                    lemma_tally_is_neighbor_count(rows_g, cols_g, full, s, q);
                    assert(acc_cnt(acc.counts@, q) == 3);
                    let k2 = choose|k2: u128| #[trigger]
                        acc.counts@.contains_key(k2) && pi(acc.counts@[k2].1) == q;
                    assert(acc.cells@.contains(acc.counts@[k2].1));
                    let t = choose|t: int|
                        0 <= t < acc.cells@.len() && acc.cells@[t] == acc.counts@[k2].1;
                    assert(cand[t] == q);
                    assert(cand.contains(q));
                    assert(born_set(acc.counts@, cand).contains(q));
                }
            }
            assert(cell_seq(next_list@).to_set() =~= step_set(s, rows_g, cols_g));
        }
        self.living_cells = next_map;
        self.live_list = next_list;
    }

    /// Validates a row-major binary grid and builds the world whose live
    /// set is exactly the set of cells holding 1, or reports the first
    /// violated rule.
    pub fn from_config(grid: Vec<Vec<u8>>) -> (result: Result<DullWorld, WorldError>)
        ensures
            result is Ok <==> valid_grid(grid_seq(grid@)),
            match result {
                Ok(w) => {
                    &&& w.wf()
                    &&& w.spec_rows() == grid@.len()
                    &&& w.spec_cols() == grid_seq(grid@)[0].len()
                    &&& w.live_set() == grid_live_set(grid_seq(grid@))
                },
                Err(e) => Some(e) == grid_error(grid_seq(grid@)),
            },
    {
        match validate_grid(&grid) {
            Some(e) => Err(e),
            None => {
                let rows = grid.len();
                let cols = grid[0].len();
                let (living_cells, live_list) = build_map_from_grid(&grid);
                Ok(DullWorld { rows, cols, living_cells, live_list })
            },
        }
    }
}

/// The candidate store is sound: the list holds each tracked cell exactly
/// once and in range, and the map holds exactly the listed cells, each under
/// its own key, with a tally of at least one.
spec fn acc_store_wf(
    rows: int,
    cols: int,
    m: Map<u128, (u8, (usize, usize))>,
    l: Seq<(usize, usize)>,
) -> bool {
    &&& cell_seq(l).no_duplicates()
    &&& forall|i: int| 0 <= i < l.len() ==> in_range(rows, cols, pi(#[trigger] l[i]))
    &&& forall|i: int| #![trigger l[i]]
        0 <= i < l.len() ==> exists|k: u128| #[trigger] m.contains_key(k) && m[k].1 == l[i]
    &&& forall|k: u128| #[trigger]
        m.contains_key(k) ==> {
            &&& l.contains(m[k].1)
            &&& in_range(rows, cols, pi(m[k].1))
            &&& k as int == cell_key(m[k].1.0 as int, m[k].1.1 as int, cols)
            &&& m[k].0 >= 1
        }
}

/// The tally the candidate store holds for cell `d`: the count recorded
/// under `d`'s entry, or zero when `d` is not tracked.
spec fn acc_cnt(m: Map<u128, (u8, (usize, usize))>, d: (int, int)) -> int {
    if exists|k: u128| #[trigger] m.contains_key(k) && pi(m[k].1) == d {
        let k = choose|k: u128| #[trigger] m.contains_key(k) && pi(m[k].1) == d;
        m[k].0 as int
    } else {
        0
    }
}

/// In a sound candidate store a cell is tracked under at most one key.
proof fn lemma_acc_key_unique(
    rows: int,
    cols: int,
    m: Map<u128, (u8, (usize, usize))>,
    l: Seq<(usize, usize)>,
    k1: u128,
    k2: u128,
)
    requires
        acc_store_wf(rows, cols, m, l),
        m.contains_key(k1),
        m.contains_key(k2),
        pi(m[k1].1) == pi(m[k2].1),
    ensures
        k1 == k2,
{
    lemma_cell_key_injective(
        m[k1].1.0 as int,
        m[k1].1.1 as int,
        m[k2].1.0 as int,
        m[k2].1.1 as int,
        cols,
    );
}

/// Any entry of a sound candidate store gives the tally of its cell.
proof fn lemma_acc_cnt(
    rows: int,
    cols: int,
    m: Map<u128, (u8, (usize, usize))>,
    l: Seq<(usize, usize)>,
    k: u128,
)
    requires
        acc_store_wf(rows, cols, m, l),
        m.contains_key(k),
    ensures
        acc_cnt(m, pi(m[k].1)) == m[k].0 as int,
{
    let d = pi(m[k].1);
    assert(exists|k2: u128| #[trigger] m.contains_key(k2) && pi(m[k2].1) == d);
    let k2 = choose|k2: u128| #[trigger] m.contains_key(k2) && pi(m[k2].1) == d;
    lemma_acc_key_unique(rows, cols, m, l, k, k2);
}

/// An untracked cell has tally zero; in particular a key built from its
/// coordinates is not in the store.
proof fn lemma_acc_cnt_absent(
    rows: int,
    cols: int,
    m: Map<u128, (u8, (usize, usize))>,
    l: Seq<(usize, usize)>,
    d: (int, int),
    k: u128,
)
    requires
        acc_store_wf(rows, cols, m, l),
        in_range(rows, cols, d),
        k as int == cell_key(d.0, d.1, cols),
        !m.contains_key(k),
    ensures
        acc_cnt(m, d) == 0,
        !cell_seq(l).to_set().contains(d),
{
    assert forall|k2: u128| #[trigger] m.contains_key(k2) implies pi(m[k2].1) != d by {
        if pi(m[k2].1) == d {
            lemma_cell_key_injective(m[k2].1.0 as int, m[k2].1.1 as int, d.0, d.1, cols);
        }
    }
    if cell_seq(l).to_set().contains(d) {
        let i = choose|i: int| 0 <= i < cell_seq(l).len() && cell_seq(l)[i] == d;
        assert(pi(l[i]) == d);
        let k2 = choose|k2: u128| #[trigger] m.contains_key(k2) && m[k2].1 == l[i];
        assert(pi(m[k2].1) == d);
    }
}

/// Raising a tracked cell's tally by one keeps the store sound, raises that
/// cell's tally alone, and moves every tally by at most one.
proof fn lemma_acc_bump(
    rows: int,
    cols: int,
    m: Map<u128, (u8, (usize, usize))>,
    l: Seq<(usize, usize)>,
    k: u128,
)
    requires
        acc_store_wf(rows, cols, m, l),
        m.contains_key(k),
        m[k].0 < 255,
    ensures
        ({
            let m2 = m.insert(k, ((m[k].0 + 1) as u8, m[k].1));
            &&& acc_store_wf(rows, cols, m2, l)
            &&& acc_cnt(m2, pi(m[k].1)) == acc_cnt(m, pi(m[k].1)) + 1
            &&& forall|d: (int, int)| d != pi(m[k].1) ==> acc_cnt(m2, d) == acc_cnt(m, d)
            &&& forall|d: (int, int)| acc_cnt(m2, d) <= acc_cnt(m, d) + 1
        }),
{
    let p = m[k].1;
    let m2 = m.insert(k, ((m[k].0 + 1) as u8, p));
    assert(acc_store_wf(rows, cols, m2, l)) by {
        assert forall|i: int| #![trigger l[i]] 0 <= i < l.len() implies exists|k2: u128|
            #[trigger] m2.contains_key(k2) && m2[k2].1 == l[i] by {
            let k2 = choose|k2: u128| #[trigger] m.contains_key(k2) && m[k2].1 == l[i];
            assert(m2.contains_key(k2) && m2[k2].1 == l[i]);
        }
    }
    lemma_acc_cnt(rows, cols, m, l, k);
    lemma_acc_cnt(rows, cols, m2, l, k);
    assert forall|d: (int, int)| d != pi(p) implies acc_cnt(m2, d) == acc_cnt(m, d) by {
        if exists|k2: u128| #[trigger] m2.contains_key(k2) && pi(m2[k2].1) == d {
            let k2 = choose|k2: u128| #[trigger] m2.contains_key(k2) && pi(m2[k2].1) == d;
            assert(k2 != k);
            assert(m.contains_key(k2) && pi(m[k2].1) == d);
            lemma_acc_cnt(rows, cols, m, l, k2);
            lemma_acc_cnt(rows, cols, m2, l, k2);
        } else {
            if exists|k2: u128| #[trigger] m.contains_key(k2) && pi(m[k2].1) == d {
                let k2 = choose|k2: u128| #[trigger] m.contains_key(k2) && pi(m[k2].1) == d;
                assert(k2 != k);
                assert(m2.contains_key(k2) && pi(m2[k2].1) == d);
            }
        }
    }
}

/// Starting to track a fresh cell at tally one keeps the store sound, gives
/// that cell tally one, and leaves every other tally unchanged.
proof fn lemma_acc_insert_fresh(
    rows: int,
    cols: int,
    m: Map<u128, (u8, (usize, usize))>,
    l: Seq<(usize, usize)>,
    k: u128,
    p: (usize, usize),
)
    requires
        acc_store_wf(rows, cols, m, l),
        in_range(rows, cols, pi(p)),
        k as int == cell_key(p.0 as int, p.1 as int, cols),
        !m.contains_key(k),
    ensures
        ({
            let m2 = m.insert(k, (1u8, p));
            let l2 = l.push(p);
            &&& acc_store_wf(rows, cols, m2, l2)
            &&& acc_cnt(m, pi(p)) == 0
            &&& acc_cnt(m2, pi(p)) == 1
            &&& forall|d: (int, int)| d != pi(p) ==> acc_cnt(m2, d) == acc_cnt(m, d)
            &&& forall|d: (int, int)| acc_cnt(m2, d) <= acc_cnt(m, d) + 1
        }),
{
    lemma_acc_cnt_absent(rows, cols, m, l, pi(p), k);
    let m2 = m.insert(k, (1u8, p));
    let l2 = l.push(p);
    assert(cell_seq(l2) =~= cell_seq(l).push(pi(p)));
    assert(!cell_seq(l).contains(pi(p)));
    assert(forall|i: int| 0 <= i < l.len() ==> #[trigger] l2[i] == l[i]);
    assert(l2[l.len() as int] == p);
    assert(acc_store_wf(rows, cols, m2, l2)) by {
        assert(cell_seq(l2).no_duplicates()) by {
            assert(forall|i: int|
                0 <= i < cell_seq(l).len() ==> cell_seq(l2)[i] == cell_seq(l)[i]);
        }
        assert forall|i: int| #![trigger l2[i]] 0 <= i < l2.len() implies exists|k2: u128|
            #[trigger] m2.contains_key(k2) && m2[k2].1 == l2[i] by {
            if i < l.len() {
                let k2 = choose|k2: u128| #[trigger] m.contains_key(k2) && m[k2].1 == l[i];
                assert(m2.contains_key(k2) && m2[k2].1 == l2[i]);
            } else {
                assert(m2.contains_key(k) && m2[k].1 == l2[i]);
            }
        }
        assert forall|k2: u128| #[trigger] m2.contains_key(k2) implies {
            &&& l2.contains(m2[k2].1)
            &&& in_range(rows, cols, pi(m2[k2].1))
            &&& k2 as int == cell_key(m2[k2].1.0 as int, m2[k2].1.1 as int, cols)
            &&& m2[k2].0 >= 1
        } by {
            if k2 == k {
                assert(l2[l.len() as int] == p);
            } else {
                let q = m[k2].1;
                let i = choose|i: int| 0 <= i < l.len() && l[i] == q;
                assert(l2[i] == q);
            }
        }
    }
    lemma_acc_cnt(rows, cols, m2, l2, k);
    assert forall|d: (int, int)| d != pi(p) implies acc_cnt(m2, d) == acc_cnt(m, d) by {
        if exists|k2: u128| #[trigger] m2.contains_key(k2) && pi(m2[k2].1) == d {
            let k2 = choose|k2: u128| #[trigger] m2.contains_key(k2) && pi(m2[k2].1) == d;
            assert(k2 != k);
            assert(m.contains_key(k2) && pi(m[k2].1) == d);
            lemma_acc_cnt(rows, cols, m, l, k2);
            lemma_acc_cnt(rows, cols, m2, l2, k2);
        } else {
            if exists|k2: u128| #[trigger] m.contains_key(k2) && pi(m[k2].1) == d {
                let k2 = choose|k2: u128| #[trigger] m.contains_key(k2) && pi(m[k2].1) == d;
                assert(k2 != k);
                assert(m2.contains_key(k2) && pi(m2[k2].1) == d);
            }
        }
    }
}

/// The per-generation candidate accumulator: for every dead cell adjacent
/// to a live cell processed so far, the number of live neighbors it has
/// seen. Built afresh inside one [`DullWorld::step`] call and discarded at
/// its end.
struct Accumulator {
    rows: usize,
    cols: usize,
    counts: HashMap<u128, (u8, (usize, usize))>,
    cells: Vec<(usize, usize)>,
}

impl Accumulator {
    spec fn wf(&self) -> bool {
        &&& self.rows >= 2
        &&& self.cols >= 2
        &&& acc_store_wf(self.rows as int, self.cols as int, self.counts@, self.cells@)
    }

    fn new(rows: usize, cols: usize) -> (acc: Accumulator)
        requires
            rows >= 2,
            cols >= 2,
        ensures
            acc.wf(),
            acc.rows == rows,
            acc.cols == cols,
            acc.cells@.len() == 0,
            forall|d: (int, int)| acc_cnt(acc.counts@, d) == 0,
    {
        let acc = Accumulator {
            rows,
            cols,
            counts: HashMap::new(),
            cells: Vec::new(),
        };
        proof {
            assert(forall|k: u128| !acc.counts@.contains_key(k));
        }
        acc
    }
}

/// The live cells of the processed prefix that survive into the next
/// generation: those with exactly two or three live neighbors.
spec fn survivors(
    s: Set<(int, int)>,
    rows: int,
    cols: int,
    prefix: Seq<(int, int)>,
) -> Set<(int, int)> {
    Set::new(
        |p: (int, int)|
            prefix.contains(p) && {
                let n = live_neighbor_count(s, rows, cols, p.0, p.1);
                n == 2 || n == 3
            },
    )
}

/// The candidate cells of the processed prefix that are born into the next
/// generation: those whose final tally is exactly three.
spec fn born_set(m: Map<u128, (u8, (usize, usize))>, prefix: Seq<(int, int)>) -> Set<(int, int)> {
    Set::new(|p: (int, int)| prefix.contains(p) && acc_cnt(m, p) == 3)
}

/// A prefix of a duplicate-free in-range sequence is duplicate-free and in
/// range.
proof fn lemma_prefix_wf(rows: int, cols: int, ls: Seq<(int, int)>, i: int)
    requires
        ls.no_duplicates(),
        forall|t: int| 0 <= t < ls.len() ==> in_range(rows, cols, #[trigger] ls[t]),
        0 <= i <= ls.len(),
    ensures
        ls.take(i).no_duplicates(),
        forall|t: int| 0 <= t < i ==> in_range(rows, cols, #[trigger] ls.take(i)[t]),
{
    assert(forall|t: int| 0 <= t < i ==> #[trigger] ls.take(i)[t] == ls[t]);
}

/// The cells holding 1 among those the row-major scan has passed: every
/// cell of an earlier row, and the earlier cells of row `r`.
spec fn ones_before(g: Seq<Seq<u8>>, r: int, c: int) -> Set<(int, int)> {
    Set::new(
        |p: (int, int)|
            {
                &&& 0 <= p.0 < g.len()
                &&& 0 <= p.1 < g[p.0].len()
                &&& g[p.0][p.1] == 1
                &&& (p.0 < r || (p.0 == r && p.1 < c))
            },
    )
}

/// Builds the live-cell store of a validated grid by a row-major scan.
fn build_map_from_grid(grid: &Vec<Vec<u8>>) -> (store: (HashMap<u128, (usize, usize)>, Vec<
    (usize, usize),
>))
    requires
        valid_grid(grid_seq(grid@)),
    ensures
        live_store_wf(grid@.len() as int, grid_seq(grid@)[0].len() as int, store.0@, store.1@),
        cell_seq(store.1@).to_set() == grid_live_set(grid_seq(grid@)),
{
    let ghost g = grid_seq(grid@);
    let rows = grid.len();
    let cols = grid[0].len();
    let mut living_cells: HashMap<u128, (usize, usize)> = HashMap::new();
    let mut live_list: Vec<(usize, usize)> = Vec::new();
    assert(cell_seq(live_list@).to_set() =~= ones_before(g, 0, 0));
    let mut r: usize = 0;
    while r < rows
        invariant
            g == grid_seq(grid@),
            valid_grid(g),
            rows == g.len(),
            cols == g[0].len(),
            r <= rows,
            live_store_wf(rows as int, cols as int, living_cells@, live_list@),
            cell_seq(live_list@).to_set() == ones_before(g, r as int, 0),
        decreases rows - r,
    {
        assert(crate::grid::row_valid(g, r as int));
        let mut c: usize = 0;
        while c < cols
            invariant
                g == grid_seq(grid@),
                valid_grid(g),
                rows == g.len(),
                cols == g[0].len(),
                r < rows,
                c <= cols,
                g[r as int].len() == cols,
                live_store_wf(rows as int, cols as int, living_cells@, live_list@),
                cell_seq(live_list@).to_set() == ones_before(g, r as int, c as int),
            decreases cols - c,
        {
            if grid[r][c] == 1 {
                let key = build_living_cell_key(r, c, cols);
                proof {
                    lemma_store_insert(
                        rows as int,
                        cols as int,
                        living_cells@,
                        live_list@,
                        key,
                        (r, c),
                    );
                }
                living_cells.insert(key, (r, c));
                live_list.push((r, c));
            }
            assert(cell_seq(live_list@).to_set() =~= ones_before(g, r as int, c + 1));
            c += 1;
        }
        assert(ones_before(g, r as int, cols as int) =~= ones_before(g, r + 1, 0));
        r += 1;
    }
    assert(ones_before(g, rows as int, 0) =~= grid_live_set(g));
    (living_cells, live_list)
}

} // verus!
