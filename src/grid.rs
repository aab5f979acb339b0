use vstd::prelude::*;
use vstd::arithmetic::div_mod::{
    lemma_div_pos_is_pos, lemma_fundamental_div_mod, lemma_fundamental_div_mod_converse,
    lemma_mod_bound,
};

verus! {

/// Value of a border cell: permanently unusable, never empty.
pub const SENTINEL: u32 = 0xffff_ffff;

/// Width of the sentinel margin on every side of the board.
pub const MARGIN: u32 = 2;

/// Flat index of cell `p` on a padded grid of width `w` (row-major).
pub open spec fn idx(w: int, p: (int, int)) -> int {
    p.1 * w + p.0
}

/// Column and row of flat index `i` on a grid of width `w`.
pub open spec fn coords(w: int, i: int) -> (int, int) {
    (i % w, i / w)
}

/// `p` lies in the true board, inside the margin of a `w` x `h` padded grid.
pub open spec fn interior(w: int, h: int, p: (int, int)) -> bool {
    2 <= p.0 < w - 2 && 2 <= p.1 < h - 2
}

/// Which cells are empty (value 0).
pub open spec fn free_of(cells: Seq<u32>) -> Seq<bool> {
    cells.map_values(|v: u32| v == 0)
}

/// `p` is an empty cell of the flat occupancy `free` of a grid of width `w`.
pub open spec fn is_free(w: int, free: Seq<bool>, p: (int, int)) -> bool {
    &&& 0 <= p.0 < w
    &&& 0 <= p.1
    &&& 0 <= idx(w, p) < free.len()
    &&& free[idx(w, p)]
}

/// Number of empty cells.
pub open spec fn count_free(s: Seq<bool>) -> nat
    decreases s.len(),
{
    if s.len() == 0 {
        0
    } else {
        count_free(s.drop_last()) + if s.last() {
            1nat
        } else {
            0nat
        }
    }
}

/// The grid that a fresh board starts from: interior cells empty, the margin
/// filled with the sentinel.
pub open spec fn initial_cells(w: int, h: int) -> Seq<u32> {
    Seq::new((w * h) as nat, |i: int| if interior(w, h, coords(w, i)) { 0u32 } else { SENTINEL })
}

/// Well-formed occupancy grid of a padded `w` x `h` board holding `n` knights:
/// margin cells hold the sentinel and nothing else does, and the knights plus
/// the empty cells make up the true board.
pub open spec fn cells_wf(w: int, h: int, n: int, cells: Seq<u32>) -> bool {
    &&& 7 <= w
    &&& 7 <= h
    &&& w * h < SENTINEL
    &&& cells.len() == w * h
    &&& forall|i: int|
        0 <= i < cells.len() ==> (#[trigger] cells[i] == SENTINEL) == !interior(w, h, coords(w, i))
    &&& 0 <= n
    &&& n + count_free(free_of(cells)) == (w - 4) * (h - 4)
}

/// The grid after placing the `n + 1`-th knight on `p`.
pub open spec fn put_cells(w: int, cells: Seq<u32>, n: int, p: (int, int)) -> Seq<u32> {
    cells.update(idx(w, p), (n + 1) as u32)
}

/// The grid after taking the knight off `p`.
pub open spec fn remove_cells(w: int, cells: Seq<u32>, p: (int, int)) -> Seq<u32> {
    cells.update(idx(w, p), 0u32)
}

/// Rows of the true board among the first `y` rows of the padded grid.
spec fn rows_done(h: int, y: int) -> int {
    if y < 2 {
        0
    } else if y > h - 2 {
        h - 4
    } else {
        y - 2
    }
}

/// Builds the grid of a fresh `w_inner` x `h_inner` board, padded with a
/// margin of two sentinel cells on every side: all cells of the true board
/// empty.
pub fn padded_cells(w_inner: u32, h_inner: u32) -> (cells: Vec<u32>)
    requires
        3 <= w_inner,
        3 <= h_inner,
        (w_inner + 4) * (h_inner + 4) < SENTINEL,
    ensures
        cells@ == initial_cells(w_inner + 4, h_inner + 4),
        cells_wf(w_inner + 4, h_inner + 4, 0, cells@),
{
    let ghost wi = w_inner + 4;
    let ghost hi = h_inner + 4;
    assert(wi <= wi * hi && hi <= wi * hi) by (nonlinear_arith)
        requires
            7 <= wi,
            7 <= hi,
    ;
    let w: u32 = w_inner + 2 * MARGIN;
    let h: u32 = h_inner + 2 * MARGIN;
    let mut cells: Vec<u32> = Vec::new();
    let mut y: u32 = 0;
    while y < h
        invariant
            w == wi,
            h == hi,
            7 <= wi,
            7 <= hi,
            0 <= y <= h,
            cells@.len() == y * w,
            forall|i: int| 0 <= i < cells@.len() ==> cells@[i] == #[trigger] initial_cells(wi, hi)[i],
            count_free(free_of(cells@)) == rows_done(hi, y as int) * (wi - 4),
        decreases h - y,
    {
        let mut x: u32 = 0;
        while x < w
            invariant
                w == wi,
                h == hi,
                7 <= wi,
                7 <= hi,
                0 <= y < h,
                0 <= x <= w,
                cells@.len() == y * w + x,
                forall|i: int|
                    0 <= i < cells@.len() ==> cells@[i] == #[trigger] initial_cells(wi, hi)[i],
                count_free(free_of(cells@)) == rows_done(hi, y as int) * (wi - 4) + if 2 <= y < hi
                    - 2 {
                    if x < 2 {
                        0
                    } else if x > w - 2 {
                        wi - 4
                    } else {
                        x - 2
                    }
                } else {
                    0
                },
            decreases w - x,
        {
            let inside = MARGIN <= x && x < w - MARGIN && MARGIN <= y && y < h - MARGIN;
            let v: u32 = if inside {
                0
            } else {
                SENTINEL
            };
            proof {
                lemma_coords(wi, (x as int, y as int));
                lemma_idx_in_range(wi, hi, (x as int, y as int));
                assert(free_of(cells@.push(v)) =~= free_of(cells@).push(v == 0));
                lemma_count_push(free_of(cells@), v == 0);
            }
            cells.push(v);
            x += 1;
        }
        proof {
            let r = rows_done(hi, y as int);
            assert((y + 1) * wi == y * wi + wi) by (nonlinear_arith);
            if 2 <= y < hi - 2 {
                assert(r * (wi - 4) + (wi - 4) == (r + 1) * (wi - 4)) by (nonlinear_arith);
            }
        }
        y += 1;
    }
    proof {
        assert(hi * wi == wi * hi) by (nonlinear_arith);
        assert(cells@ =~= initial_cells(wi, hi));
        assert((hi - 4) * (wi - 4) == (wi - 4) * (hi - 4)) by (nonlinear_arith);
    }
    cells
}

pub proof fn lemma_coords(w: int, p: (int, int))
    requires
        0 <= p.0 < w,
    ensures
        coords(w, idx(w, p)) == p,
{
    lemma_fundamental_div_mod_converse(idx(w, p), w, p.1, p.0);
}

pub proof fn lemma_idx_coords(w: int, h: int, i: int)
    requires
        0 < w,
        0 < h,
        0 <= i < w * h,
    ensures
        idx(w, coords(w, i)) == i,
        0 <= coords(w, i).0 < w,
        0 <= coords(w, i).1 < h,
{
    lemma_fundamental_div_mod(i, w);
    lemma_mod_bound(i, w);
    lemma_div_pos_is_pos(i, w);
    let q = i / w;
    let r = i % w;
    assert(q < h) by (nonlinear_arith)
        requires
            i == w * q + r,
            0 <= r,
            i < w * h,
            0 < w,
    ;
    assert(q * w == w * q) by (nonlinear_arith);
}

pub proof fn lemma_idx_in_range(w: int, h: int, p: (int, int))
    requires
        0 <= p.0 < w,
        0 <= p.1 < h,
    ensures
        0 <= idx(w, p) < w * h,
{
    assert(0 <= p.1 * w + p.0 < w * h) by (nonlinear_arith)
        requires
            0 <= p.0 < w,
            0 <= p.1 < h,
    ;
}

pub proof fn lemma_area(w: int, h: int)
    requires
        7 <= w,
        7 <= h,
    ensures
        0 < (w - 4) * (h - 4) < w * h,
{
    assert(0 < (w - 4) * (h - 4) < w * h) by (nonlinear_arith)
        requires
            7 <= w,
            7 <= h,
    ;
}

pub proof fn lemma_count_push(s: Seq<bool>, b: bool)
    ensures
        count_free(s.push(b)) == count_free(s) + if b {
            1nat
        } else {
            0nat
        },
{
    assert(s.push(b).drop_last() =~= s);
}

pub proof fn lemma_count_update(s: Seq<bool>, i: int)
    requires
        0 <= i < s.len(),
        s[i],
    ensures
        count_free(s.update(i, false)) + 1 == count_free(s),
    decreases s.len(),
{
    if i == s.len() - 1 {
        assert(s.update(i, false).drop_last() =~= s.drop_last());
    } else {
        lemma_count_update(s.drop_last(), i);
        assert(s.update(i, false).drop_last() =~= s.drop_last().update(i, false));
    }
}

/// An empty cell is a cell of the true board.
pub proof fn lemma_free_interior(w: int, h: int, n: int, cells: Seq<u32>, p: (int, int))
    requires
        cells_wf(w, h, n, cells),
        is_free(w, free_of(cells), p),
    ensures
        interior(w, h, p),
{
    lemma_coords(w, p);
    assert(cells[idx(w, p)] == 0);
}

/// Emptying or filling one cell changes only that cell's emptiness.
pub proof fn lemma_free_update(w: int, free: Seq<bool>, p: (int, int), b: bool)
    requires
        0 <= p.0 < w,
        0 <= p.1,
        0 <= idx(w, p) < free.len(),
    ensures
        forall|q: (int, int)|
            #[trigger] is_free(w, free.update(idx(w, p), b), q) == if q == p {
                b
            } else {
                is_free(w, free, q)
            },
{
    assert forall|q: (int, int)|
        #[trigger] is_free(w, free.update(idx(w, p), b), q) == if q == p {
            b
        } else {
            is_free(w, free, q)
        } by {
        if 0 <= q.0 < w {
            lemma_coords(w, p);
            lemma_coords(w, q);
        }
    }
}

pub proof fn lemma_cells_put(w: int, h: int, n: int, cells: Seq<u32>, p: (int, int))
    requires
        cells_wf(w, h, n, cells),
        is_free(w, free_of(cells), p),
    ensures
        cells_wf(w, h, n + 1, put_cells(w, cells, n, p)),
        free_of(put_cells(w, cells, n, p)) == free_of(cells).update(idx(w, p), false),
        n + 1 < SENTINEL,
{
    let i = idx(w, p);
    let c2 = put_cells(w, cells, n, p);
    lemma_free_interior(w, h, n, cells, p);
    lemma_coords(w, p);
    lemma_area(w, h);
    lemma_count_update(free_of(cells), i);
    assert(free_of(c2) =~= free_of(cells).update(i, false));
}

pub proof fn lemma_cells_remove(w: int, h: int, n: int, cells: Seq<u32>, p: (int, int))
    requires
        cells_wf(w, h, n, cells),
        0 <= p.0 < w,
        0 <= p.1 < h,
        cells[idx(w, p)] == n,
        n > 0,
    ensures
        cells_wf(w, h, n - 1, remove_cells(w, cells, p)),
        free_of(remove_cells(w, cells, p)) == free_of(cells).update(idx(w, p), true),
{
    let i = idx(w, p);
    let c2 = remove_cells(w, cells, p);
    lemma_area(w, h);
    lemma_idx_in_range(w, h, p);
    lemma_coords(w, p);
    assert(free_of(c2) =~= free_of(cells).update(i, true));
    assert(free_of(c2).update(i, false) =~= free_of(cells));
    lemma_count_update(free_of(c2), i);
}

/// Places knights on the cells `ps`, in order, starting from `n` knights.
/// Returns the new count and grid.
pub open spec fn put_all(w: int, n: int, cells: Seq<u32>, ps: Seq<(int, int)>) -> (int, Seq<u32>)
    decreases ps.len(),
{
    if ps.len() == 0 {
        (n, cells)
    } else {
        put_all(w, n + 1, put_cells(w, cells, n, ps[0]), ps.drop_first())
    }
}

/// Takes the knights off the cells `ps`, in order, starting from `n` knights.
/// Returns the new count and grid.
pub open spec fn remove_all(w: int, n: int, cells: Seq<u32>, ps: Seq<(int, int)>) -> (int, Seq<u32>)
    decreases ps.len(),
{
    if ps.len() == 0 {
        (n, cells)
    } else {
        let prev = remove_all(w, n, cells, ps.drop_last());
        (prev.0 - 1, remove_cells(w, prev.1, ps.last()))
    }
}

/// Placing a knight on an empty cell and taking it off again gives back the
/// same grid and the same count; in between, the cell holds the new count.
pub proof fn law_put_then_remove(w: int, h: int, n: int, cells: Seq<u32>, p: (int, int))
    requires
        cells_wf(w, h, n, cells),
        is_free(w, free_of(cells), p),
    ensures
        cells_wf(w, h, n + 1, put_cells(w, cells, n, p)),
        put_cells(w, cells, n, p)[idx(w, p)] == n + 1,
        remove_cells(w, put_cells(w, cells, n, p), p) == cells,
{
    lemma_cells_put(w, h, n, cells, p);
    assert(remove_cells(w, put_cells(w, cells, n, p), p) =~= cells);
}

/// Placing knights on distinct empty cells adds one to the count per knight;
/// taking them off again in the reverse order gives back the grid and count
/// that were there before.
pub proof fn law_put_sequence(w: int, h: int, n: int, cells: Seq<u32>, ps: Seq<(int, int)>)
    requires
        cells_wf(w, h, n, cells),
        forall|i: int| 0 <= i < ps.len() ==> is_free(w, free_of(cells), #[trigger] ps[i]),
        forall|i: int, j: int| 0 <= i < j < ps.len() ==> ps[i] != ps[j],
    ensures
        put_all(w, n, cells, ps).0 == n + ps.len(),
        cells_wf(w, h, n + ps.len(), put_all(w, n, cells, ps).1),
        remove_all(w, put_all(w, n, cells, ps).0, put_all(w, n, cells, ps).1, ps.reverse()) == (
            n,
            cells,
        ),
    decreases ps.len(),
{
    if ps.len() > 0 {
        let q = ps[0];
        let tail = ps.drop_first();
        let c1 = put_cells(w, cells, n, q);
        law_put_then_remove(w, h, n, cells, q);
        lemma_cells_put(w, h, n, cells, q);
        lemma_free_update(w, free_of(cells), q, false);
        assert forall|i: int| 0 <= i < tail.len() implies is_free(w, free_of(c1), #[trigger] tail[i]) by {
            assert(tail[i] == ps[i + 1]);
        }
        assert forall|i: int, j: int| 0 <= i < j < tail.len() implies tail[i] != tail[j] by {
            assert(tail[i] == ps[i + 1] && tail[j] == ps[j + 1]);
        }
        law_put_sequence(w, h, n + 1, c1, tail);
        assert(ps.reverse() =~= tail.reverse().push(q));
        assert(tail.reverse().push(q).drop_last() =~= tail.reverse());
    }
}

} // verus!
