//! The mathematical model of the automaton: toroidal neighborhoods, the
//! birth/survival rule, and the tally argument that justifies the sparse
//! engine's candidate accumulator.

use vstd::prelude::*;

verus! {

/// Position one step back (up or left) on a wrapping axis of length `n`.
pub open spec fn wrap_dec(i: int, n: int) -> int {
    if i == 0 {
        n - 1
    } else {
        i - 1
    }
}

/// Position one step forward (down or right) on a wrapping axis of length `n`.
pub open spec fn wrap_inc(i: int, n: int) -> int {
    if i + 1 == n {
        0
    } else {
        i + 1
    }
}

/// True when `p` is a coordinate of a `rows` by `cols` grid.
pub open spec fn in_range(rows: int, cols: int, p: (int, int)) -> bool {
    0 <= p.0 < rows && 0 <= p.1 < cols
}

/// The eight neighbor slots of `(r, c)` on a `rows` by `cols` torus, indexed
/// `k` in 0..8, in reading order: the row above, the same row, the row below.
/// On a two-row or two-column torus distinct slots may point at the same
/// cell; every count in this module counts such a cell once per slot.
pub open spec fn neighbor_pos(rows: int, cols: int, r: int, c: int, k: int) -> (int, int) {
    let ru = wrap_dec(r, rows);
    let rd = wrap_inc(r, rows);
    let cl = wrap_dec(c, cols);
    let cr = wrap_inc(c, cols);
    if k == 0 {
        (ru, cl)
    } else if k == 1 {
        (ru, c)
    } else if k == 2 {
        (ru, cr)
    } else if k == 3 {
        (r, cl)
    } else if k == 4 {
        (r, cr)
    } else if k == 5 {
        (rd, cl)
    } else if k == 6 {
        (rd, c)
    } else {
        (rd, cr)
    }
}

/// 1 when the `k`-th neighbor slot of `(r, c)` holds a cell of the live set
/// `s`, else 0.
pub open spec fn nbr_ind(s: Set<(int, int)>, rows: int, cols: int, r: int, c: int, k: int) -> int {
    if s.contains(neighbor_pos(rows, cols, r, c, k)) {
        1
    } else {
        0
    }
}

/// How many of the eight neighbor slots of `(r, c)` hold a live cell.
pub open spec fn live_neighbor_count(
    s: Set<(int, int)>,
    rows: int,
    cols: int,
    r: int,
    c: int,
) -> int {
    nbr_ind(s, rows, cols, r, c, 0) + nbr_ind(s, rows, cols, r, c, 1) + nbr_ind(
        s,
        rows,
        cols,
        r,
        c,
        2,
    ) + nbr_ind(s, rows, cols, r, c, 3) + nbr_ind(s, rows, cols, r, c, 4) + nbr_ind(
        s,
        rows,
        cols,
        r,
        c,
        5,
    ) + nbr_ind(s, rows, cols, r, c, 6) + nbr_ind(s, rows, cols, r, c, 7)
}

/// The birth/survival rule: a live cell survives with exactly two or three
/// live neighbors, a dead cell is born with exactly three.
pub open spec fn next_alive(s: Set<(int, int)>, rows: int, cols: int, r: int, c: int) -> bool {
    let n = live_neighbor_count(s, rows, cols, r, c);
    if s.contains((r, c)) {
        n == 2 || n == 3
    } else {
        n == 3
    }
}

/// The entire next generation of the live set `s`.
pub open spec fn step_set(s: Set<(int, int)>, rows: int, cols: int) -> Set<(int, int)> {
    Set::new(|p: (int, int)| in_range(rows, cols, p) && next_alive(s, rows, cols, p.0, p.1))
}

/// 1 when the `k`-th neighbor slot of `l` lands on `d`, else 0.
pub open spec fn slot_ind(rows: int, cols: int, l: (int, int), d: (int, int), k: int) -> int {
    if neighbor_pos(rows, cols, l.0, l.1, k) == d {
        1
    } else {
        0
    }
}

/// How many of `l`'s eight neighbor slots land on `d`.
pub open spec fn hit_count(rows: int, cols: int, l: (int, int), d: (int, int)) -> int {
    slot_ind(rows, cols, l, d, 0) + slot_ind(rows, cols, l, d, 1) + slot_ind(rows, cols, l, d, 2)
        + slot_ind(rows, cols, l, d, 3) + slot_ind(rows, cols, l, d, 4) + slot_ind(
        rows,
        cols,
        l,
        d,
        5,
    ) + slot_ind(rows, cols, l, d, 6) + slot_ind(rows, cols, l, d, 7)
}

/// The tally `d` accumulates while the cells of `ls` are processed one by
/// one: the total number of neighbor slots of cells of `ls` that land on `d`.
pub open spec fn tally(rows: int, cols: int, ls: Seq<(int, int)>, d: (int, int)) -> int
    decreases ls.len(),
{
    if ls.len() == 0 {
        0
    } else {
        tally(rows, cols, ls.drop_last(), d) + hit_count(rows, cols, ls.last(), d)
    }
}

/// The part of the tally owed to slot `k` alone.
pub open spec fn slot_sum(rows: int, cols: int, ls: Seq<(int, int)>, d: (int, int), k: int) -> int
    decreases ls.len(),
{
    if ls.len() == 0 {
        0
    } else {
        slot_sum(rows, cols, ls.drop_last(), d, k) + slot_ind(rows, cols, ls.last(), d, k)
    }
}

/// Neighbor slots of an in-range cell stay in range.
pub proof fn lemma_neighbor_in_range(rows: int, cols: int, r: int, c: int, k: int)
    requires
        rows >= 2,
        cols >= 2,
        in_range(rows, cols, (r, c)),
    ensures
        in_range(rows, cols, neighbor_pos(rows, cols, r, c, k)),
{
}

/// Slot `k` seen from `l` lands on `d` exactly when the opposite slot seen
/// from `d` lands back on `l`.
pub proof fn lemma_slot_symmetry(rows: int, cols: int, l: (int, int), d: (int, int), k: int)
    requires
        rows >= 2,
        cols >= 2,
        in_range(rows, cols, l),
        in_range(rows, cols, d),
        0 <= k < 8,
    ensures
        (neighbor_pos(rows, cols, l.0, l.1, k) == d) <==> (neighbor_pos(
            rows,
            cols,
            d.0,
            d.1,
            7 - k,
        ) == l),
{
}

/// At most one cell can reach `d` through slot `k`, namely the cell that `d`
/// reaches through the opposite slot; so the per-slot tally over a
/// duplicate-free sequence is 0 or 1, and says exactly whether that cell is
/// in the sequence.
pub proof fn lemma_slot_sum_characterization(
    rows: int,
    cols: int,
    ls: Seq<(int, int)>,
    d: (int, int),
    k: int,
)
    requires
        rows >= 2,
        cols >= 2,
        ls.no_duplicates(),
        forall|i: int| 0 <= i < ls.len() ==> in_range(rows, cols, #[trigger] ls[i]),
        in_range(rows, cols, d),
        0 <= k < 8,
    ensures
        slot_sum(rows, cols, ls, d, k) == if ls.contains(
            neighbor_pos(rows, cols, d.0, d.1, 7 - k),
        ) {
            1int
        } else {
            0int
        },
    decreases ls.len(),
{
    let t = neighbor_pos(rows, cols, d.0, d.1, 7 - k);
    if ls.len() == 0 {
        assert(!ls.contains(t));
    } else {
        let pre = ls.drop_last();
        let last = ls.last();
        assert(forall|i: int| 0 <= i < pre.len() ==> pre[i] == ls[i]);
        lemma_slot_sum_characterization(rows, cols, pre, d, k);
        lemma_slot_symmetry(rows, cols, last, d, k);
        if last == t {
            assert(!pre.contains(t)) by {
                if pre.contains(t) {
                    let i = choose|i: int| 0 <= i < pre.len() && pre[i] == t;
                    assert(ls[i] == ls[ls.len() - 1]);
                }
            }
            assert(ls.contains(t)) by {
                assert(ls[ls.len() - 1] == t);
            }
        } else {
            assert(ls.contains(t) <==> pre.contains(t)) by {
                if ls.contains(t) {
                    let i = choose|i: int| 0 <= i < ls.len() && ls[i] == t;
                    assert(i < ls.len() - 1);
                    assert(pre[i] == t);
                }
                if pre.contains(t) {
                    let i = choose|i: int| 0 <= i < pre.len() && pre[i] == t;
                    assert(ls[i] == t);
                }
            }
        }
    }
}

/// The tally splits into the eight per-slot tallies.
pub proof fn lemma_tally_split(rows: int, cols: int, ls: Seq<(int, int)>, d: (int, int))
    ensures
        tally(rows, cols, ls, d) == slot_sum(rows, cols, ls, d, 0) + slot_sum(
            rows,
            cols,
            ls,
            d,
            1,
        ) + slot_sum(rows, cols, ls, d, 2) + slot_sum(rows, cols, ls, d, 3) + slot_sum(
            rows,
            cols,
            ls,
            d,
            4,
        ) + slot_sum(rows, cols, ls, d, 5) + slot_sum(rows, cols, ls, d, 6) + slot_sum(
            rows,
            cols,
            ls,
            d,
            7,
        ),
    decreases ls.len(),
{
    if ls.len() > 0 {
        lemma_tally_split(rows, cols, ls.drop_last(), d);
    }
}

/// The central fact behind the sparse engine: once every live cell has been
/// processed exactly once, the tally accumulated at `d` equals `d`'s live
/// neighbor count, no matter in which order the live cells were processed.
pub proof fn lemma_tally_is_neighbor_count(
    rows: int,
    cols: int,
    ls: Seq<(int, int)>,
    s: Set<(int, int)>,
    d: (int, int),
)
    requires
        rows >= 2,
        cols >= 2,
        ls.no_duplicates(),
        forall|i: int| 0 <= i < ls.len() ==> in_range(rows, cols, #[trigger] ls[i]),
        in_range(rows, cols, d),
        s == ls.to_set(),
    ensures
        tally(rows, cols, ls, d) == live_neighbor_count(s, rows, cols, d.0, d.1),
{
    lemma_tally_split(rows, cols, ls, d);
    lemma_slot_sum_characterization(rows, cols, ls, d, 0);
    lemma_slot_sum_characterization(rows, cols, ls, d, 1);
    lemma_slot_sum_characterization(rows, cols, ls, d, 2);
    lemma_slot_sum_characterization(rows, cols, ls, d, 3);
    lemma_slot_sum_characterization(rows, cols, ls, d, 4);
    lemma_slot_sum_characterization(rows, cols, ls, d, 5);
    lemma_slot_sum_characterization(rows, cols, ls, d, 6);
    lemma_slot_sum_characterization(rows, cols, ls, d, 7);
    assert(forall|p: (int, int)| s.contains(p) <==> ls.contains(p));
}

/// The tally never exceeds the eight slots.
pub proof fn lemma_tally_bounds(rows: int, cols: int, ls: Seq<(int, int)>, d: (int, int))
    requires
        rows >= 2,
        cols >= 2,
        ls.no_duplicates(),
        forall|i: int| 0 <= i < ls.len() ==> in_range(rows, cols, #[trigger] ls[i]),
        in_range(rows, cols, d),
    ensures
        0 <= tally(rows, cols, ls, d) <= 8,
{
    lemma_tally_is_neighbor_count(rows, cols, ls, ls.to_set(), d);
}

/// A cell outside the grid accumulates no tally: every slot of an in-range
/// cell lands in range.
pub proof fn lemma_tally_out_of_range(rows: int, cols: int, ls: Seq<(int, int)>, d: (int, int))
    requires
        rows >= 2,
        cols >= 2,
        forall|i: int| 0 <= i < ls.len() ==> in_range(rows, cols, #[trigger] ls[i]),
        !in_range(rows, cols, d),
    ensures
        tally(rows, cols, ls, d) == 0,
    decreases ls.len(),
{
    if ls.len() > 0 {
        let pre = ls.drop_last();
        assert(forall|i: int| 0 <= i < pre.len() ==> pre[i] == ls[i]);
        lemma_tally_out_of_range(rows, cols, pre, d);
        let l = ls.last();
        assert(hit_count(rows, cols, l, d) == 0) by {
            lemma_neighbor_in_range(rows, cols, l.0, l.1, 0);
            lemma_neighbor_in_range(rows, cols, l.0, l.1, 1);
            lemma_neighbor_in_range(rows, cols, l.0, l.1, 2);
            lemma_neighbor_in_range(rows, cols, l.0, l.1, 3);
            lemma_neighbor_in_range(rows, cols, l.0, l.1, 4);
            lemma_neighbor_in_range(rows, cols, l.0, l.1, 5);
            lemma_neighbor_in_range(rows, cols, l.0, l.1, 6);
            lemma_neighbor_in_range(rows, cols, l.0, l.1, 7);
        }
    }
}

} // verus!
