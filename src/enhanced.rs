//! Search that keeps, for every cell, the number of its empty knight
//! neighbours, and uses it to force or cut branches.
use vstd::prelude::*;
use crate::grid::{
    cells_wf, coords, count_free, free_of, idx, initial_cells, interior, is_free, lemma_area,
    lemma_cells_put, lemma_cells_remove, lemma_coords, lemma_count_update, lemma_free_interior,
    lemma_free_update, lemma_idx_coords, lemma_idx_in_range, padded_cells, put_cells, remove_cells,
    MARGIN, SENTINEL,
};
use crate::knight::{nb, neighbors, pos};
use crate::tour::{
    blocking, check_size, dir, free_deg, free_deg_upto, indicator, lemma_deg_change, lemma_deg_expand,
    lemma_forced, lemma_two_forced, paths, paths_upto, saturate, size_check,
    tour_count, SizeError, XY_FIRST, XY_LAST, XY_SECOND,
};

verus! {

/// Degree grid of a padded `w` x `h` grid of cells: each cell of the true
/// board holds its number of empty knight neighbours, every margin cell 0.
pub open spec fn degs_wf(w: int, h: int, cells: Seq<u32>, degs: Seq<u32>) -> bool {
    &&& degs.len() == w * h
    &&& forall|i: int|
        0 <= i < degs.len() ==> #[trigger] degs[i] == if interior(w, h, coords(w, i)) {
            free_deg(w, free_of(cells), coords(w, i))
        } else {
            0
        }
}

/// A padded board: the occupancy grid, with a margin of sentinel cells, the
/// number of knights placed, and the degree of every cell.
pub struct Board {
    w: u32,
    h: u32,
    n: u32,
    cells: Vec<u32>,
    degs: Vec<u32>,
}

impl Board {
    /// Width of the padded grid.
    pub closed spec fn width(&self) -> int {
        self.w as int
    }

    /// Height of the padded grid.
    pub closed spec fn height(&self) -> int {
        self.h as int
    }

    /// Number of knights on the board.
    pub closed spec fn placed(&self) -> int {
        self.n as int
    }

    /// The grid, row by row: 0 for empty, the visit order for an occupied
    /// cell, the sentinel for the margin.
    pub closed spec fn grid(&self) -> Seq<u32> {
        self.cells@
    }

    /// The degree counters, row by row.
    pub closed spec fn degrees(&self) -> Seq<u32> {
        self.degs@
    }

    /// The occupancy grid and the count of knights agree.
    pub open spec fn cells_ok(&self) -> bool {
        cells_wf(self.width(), self.height(), self.placed(), self.grid())
    }

    /// Every degree counter of a cell of the true board equals its number of
    /// empty knight neighbours.
    pub open spec fn degrees_exact(&self) -> bool {
        degs_wf(self.width(), self.height(), self.grid(), self.degrees())
    }

    pub open spec fn wf(&self) -> bool {
        self.cells_ok() && self.degrees_exact()
    }

    /// Which cells are empty.
    pub open spec fn free(&self) -> Seq<bool> {
        free_of(self.grid())
    }

    /// `xy` lies on the padded grid.
    pub open spec fn in_grid(&self, xy: (u32, u32)) -> bool {
        xy.0 < self.width() && xy.1 < self.height()
    }

    pub open spec fn at(&self, xy: (u32, u32)) -> u32 {
        self.grid()[idx(self.width(), pos(xy))]
    }

    /// A fresh `w_inner` x `h_inner` board: every cell empty, no knight
    /// placed, each degree counted from the empty grid.
    pub fn new(w_inner: u32, h_inner: u32) -> (r: Board)
        requires
            3 <= w_inner,
            3 <= h_inner,
            (w_inner + 4) * (h_inner + 4) < u32::MAX,
        ensures
            r.wf(),
            r.width() == w_inner + 4,
            r.height() == h_inner + 4,
            r.placed() == 0,
            r.grid() == initial_cells(w_inner + 4, h_inner + 4),
    {
        assert(w_inner + 4 <= (w_inner + 4) * (h_inner + 4) && h_inner + 4 <= (w_inner + 4) * (
        h_inner + 4)) by (nonlinear_arith)
            requires
                3 <= w_inner,
                3 <= h_inner,
        ;
        let cells = padded_cells(w_inner, h_inner);
        let w = w_inner + 2 * MARGIN;
        let h = h_inner + 2 * MARGIN;
        let mut board = Board { w, h, n: 0, cells, degs: Vec::new() };
        let mut degs: Vec<u32> = Vec::new();
        let mut i: u32 = 0;
        while i < w * h
            invariant
                board.cells_ok(),
                board.w == w,
                board.h == h,
                w == w_inner + 4,
                h == h_inner + 4,
                board.placed() == 0,
                board.grid() == initial_cells(w_inner + 4, h_inner + 4),
                0 <= i <= w * h,
                degs@.len() == i,
                forall|j: int|
                    0 <= j < i ==> #[trigger] degs@[j] == if interior(w as int, h as int, coords(w as int, j)) {
                        free_deg(w as int, board.free(), coords(w as int, j))
                    } else {
                        0
                    },
            decreases w * h - i,
        {
            proof {
                lemma_idx_coords(w as int, h as int, i as int);
            }
            let xy = (i % w, i / w);
            let d = if MARGIN <= xy.0 && xy.0 < w - MARGIN && MARGIN <= xy.1 && xy.1 < h - MARGIN {
                board.count_empty_neighbors(xy)
            } else {
                0
            };
            degs.push(d);
            i += 1;
        }
        board.degs = degs;
        board
    }

    /// Counts the knight moves from the cell `xy` of the true board that land
    /// on an empty cell.
    fn count_empty_neighbors(&self, xy: (u32, u32)) -> (r: u32)
        requires
            self.cells_ok(),
            interior(self.width(), self.height(), pos(xy)),
        ensures
            r == free_deg(self.width(), self.free(), pos(xy)),
    {
        proof {
            lemma_deg_expand(self.width(), self.free(), pos(xy));
        }
        let ns = neighbors(xy);
        let mut count: u32 = 0;
        let mut k: usize = 0;
        while k < 8
            invariant
                self.cells_ok(),
                interior(self.width(), self.height(), pos(xy)),
                0 <= k <= 8,
                forall|j: int| 0 <= j < 8 ==> #[trigger] pos(ns@[j]) == nb(pos(xy), j),
                forall|j: int|
                    0 <= j < 8 ==> xy.0 - 2 <= #[trigger] ns@[j].0 <= xy.0 + 2 && xy.1 - 2 <= ns@[j].1
                        <= xy.1 + 2,
                count == free_deg_upto(self.width(), self.free(), pos(xy), k as int),
                count <= k,
            decreases 8 - k,
        {
            assert(pos(ns@[k as int]) == nb(pos(xy), k as int));
            if self.is_empty(ns[k]) {
                count += 1;
            }
            k += 1;
        }
        count
    }

    pub fn w_inner(&self) -> (r: u32)
        requires
            self.cells_ok(),
        ensures
            r == self.width() - 4,
    {
        self.w - 2 * MARGIN
    }

    pub fn h_inner(&self) -> (r: u32)
        requires
            self.cells_ok(),
        ensures
            r == self.height() - 4,
    {
        self.h - 2 * MARGIN
    }

    /// Number of cells of the true board still empty.
    pub fn n_remain(&self) -> (r: u32)
        requires
            self.cells_ok(),
        ensures
            r == (self.width() - 4) * (self.height() - 4) - self.placed(),
            r == count_free(self.free()),
    {
        proof {
            lemma_area(self.width(), self.height());
        }
        self.w_inner() * self.h_inner() - self.n
    }

    /// Every cell of the true board holds a knight.
    pub fn is_completed(&self) -> (r: bool)
        requires
            self.cells_ok(),
        ensures
            r == (self.placed() == (self.width() - 4) * (self.height() - 4)),
            r == (count_free(self.free()) == 0),
    {
        self.n_remain() == 0
    }

    pub fn get(&self, xy: (u32, u32)) -> (r: u32)
        requires
            self.cells_ok(),
            self.in_grid(xy),
        ensures
            r == self.at(xy),
    {
        self.cells[self.xy2idx(xy)]
    }

    pub fn is_empty(&self, xy: (u32, u32)) -> (r: bool)
        requires
            self.cells_ok(),
            self.in_grid(xy),
        ensures
            r == is_free(self.width(), self.free(), pos(xy)),
    {
        proof {
            lemma_idx_in_range(self.width(), self.height(), pos(xy));
        }
        self.get(xy) == 0
    }

    /// The degree counter of `xy`: its number of empty knight neighbours on
    /// the true board, 0 on the margin.
    pub fn get_deg(&self, xy: (u32, u32)) -> (r: u32)
        requires
            self.wf(),
            self.in_grid(xy),
        ensures
            r == if interior(self.width(), self.height(), pos(xy)) {
                free_deg(self.width(), self.free(), pos(xy))
            } else {
                0
            },
    {
        let i = self.xy2idx(xy);
        proof {
            lemma_coords(self.width(), pos(xy));
        }
        self.degs[i]
    }

    /// Moves the degree counter of each cell of the true board a knight move
    /// away from `xy` by one: down when `xy` has just been filled, up when it
    /// has just been emptied. Counters of occupied cells are kept too, so every
    /// counter of the true board stays exact.
    fn shift_neighbor_degrees(&mut self, xy: (u32, u32), down: bool)
        requires
            old(self).cells_ok(),
            interior(old(self).width(), old(self).height(), pos(xy)),
            old(self).degrees().len() == old(self).width() * old(self).height(),
            forall|i: int|
                0 <= i < old(self).degrees().len() ==> #[trigger] old(self).degrees()[i] == if interior(
                    old(self).width(),
                    old(self).height(),
                    coords(old(self).width(), i),
                ) {
                    free_deg(old(self).width(), old(self).free(), coords(old(self).width(), i))
                        + if down {
                        indicator(dir(pos(xy), coords(old(self).width(), i)) < 8)
                    } else {
                        0
                    } - if down {
                        0
                    } else {
                        indicator(dir(pos(xy), coords(old(self).width(), i)) < 8)
                    }
                } else {
                    0
                },
        ensures
            final(self).wf(),
            final(self).width() == old(self).width(),
            final(self).height() == old(self).height(),
            final(self).placed() == old(self).placed(),
            final(self).grid() == old(self).grid(),
    {
        let ghost w = self.width();
        let ghost h = self.height();
        let ghost p = pos(xy);
        let ns = neighbors(xy);
        let mut k: usize = 0;
        while k < 8
            invariant
                self.cells_ok(),
                self.width() == w,
                self.height() == h,
                self.placed() == old(self).placed(),
                self.grid() == old(self).grid(),
                interior(w, h, p),
                0 <= k <= 8,
                forall|j: int| 0 <= j < 8 ==> #[trigger] pos(ns@[j]) == nb(p, j),
                forall|j: int|
                    0 <= j < 8 ==> xy.0 - 2 <= #[trigger] ns@[j].0 <= xy.0 + 2 && xy.1 - 2 <= ns@[j].1
                        <= xy.1 + 2,
                self.degrees().len() == w * h,
                forall|i: int|
                    0 <= i < self.degrees().len() ==> #[trigger] self.degrees()[i] == if interior(
                        w,
                        h,
                        coords(w, i),
                    ) {
                        free_deg(w, self.free(), coords(w, i)) + if down {
                            indicator(k <= dir(p, coords(w, i)) < 8)
                        } else {
                            0
                        } - if down {
                            0
                        } else {
                            indicator(k <= dir(p, coords(w, i)) < 8)
                        }
                    } else {
                        0
                    },
            decreases 8 - k,
        {
            let to = ns[k];
            assert(pos(to) == nb(p, k as int));
            if self.get(to) != SENTINEL {
                let i = self.xy2idx(to);
                proof {
                    lemma_coords(w, pos(to));
                    lemma_deg_expand(w, self.free(), pos(to));
                }
                let d = self.degs[i];
                if down {
                    self.degs.set(i, d - 1);
                } else {
                    self.degs.set(i, d + 1);
                }
                proof {
                    assert forall|i2: int| 0 <= i2 < self.degrees().len() && i2 != i implies dir(
                        p,
                        coords(w, i2),
                    ) != k by {
                        lemma_idx_coords(w, h, i2);
                    }
                }
            } else {
                proof {
                    lemma_coords(w, pos(to));
                    lemma_idx_in_range(w, h, pos(to));
                    assert forall|i2: int| 0 <= i2 < self.degrees().len() && interior(w, h, coords(w, i2))
                        implies dir(p, coords(w, i2)) != k by {
                        lemma_idx_coords(w, h, i2);
                    }
                }
            }
            k += 1;
        }
    }

    /// Places the next knight on the empty cell `xy`.
    pub fn put(&mut self, xy: (u32, u32))
        requires
            old(self).wf(),
            is_free(old(self).width(), old(self).free(), pos(xy)),
        ensures
            final(self).wf(),
            final(self).degrees_exact(),
            final(self).width() == old(self).width(),
            final(self).height() == old(self).height(),
            final(self).placed() == old(self).placed() + 1,
            final(self).grid() == put_cells(old(self).width(), old(self).grid(), old(self).placed(), pos(xy)),
    {
        let ghost w = self.width();
        let ghost free0 = self.free();
        proof {
            lemma_cells_put(self.width(), self.height(), self.placed(), self.grid(), pos(xy));
            lemma_free_interior(self.width(), self.height(), self.placed(), self.grid(), pos(xy));
            assert forall|i: int| 0 <= i < self.degrees().len() implies #[trigger] free_deg(w, free0, coords(w, i)) == free_deg(w, free0.update(idx(w, pos(xy)), false), coords(w, i)) + indicator(dir(pos(xy), coords(w, i)) < 8) by {
                lemma_deg_change(w, free0, pos(xy), coords(w, i));
            }
        }
        let idx = self.xy2idx(xy);
        self.n += 1;
        self.cells.set(idx, self.n);
        self.shift_neighbor_degrees(xy, true);
    }

    /// Takes the last knight placed off `xy`.
    pub fn remove(&mut self, xy: (u32, u32))
        requires
            old(self).wf(),
            old(self).in_grid(xy),
            old(self).placed() > 0,
            old(self).at(xy) == old(self).placed(),
        ensures
            final(self).wf(),
            final(self).degrees_exact(),
            final(self).width() == old(self).width(),
            final(self).height() == old(self).height(),
            final(self).placed() == old(self).placed() - 1,
            final(self).grid() == remove_cells(old(self).width(), old(self).grid(), pos(xy)),
    {
        let ghost w = self.width();
        let ghost free0 = self.free();
        proof {
            lemma_cells_remove(self.width(), self.height(), self.placed(), self.grid(), pos(xy));
            lemma_idx_in_range(w, self.height(), pos(xy));
            let free1 = free0.update(idx(w, pos(xy)), true);
            lemma_free_interior(self.width(), self.height(), self.placed() - 1, remove_cells(w, self.grid(), pos(xy)), pos(xy));
            assert(free1.update(idx(w, pos(xy)), false) =~= free0);
            assert forall|i: int| 0 <= i < self.degrees().len() implies #[trigger] free_deg(w, free1, coords(w, i)) == free_deg(w, free0, coords(w, i)) + indicator(dir(pos(xy), coords(w, i)) < 8) by {
                lemma_deg_change(w, free1, pos(xy), coords(w, i));
            }
        }
        let idx = self.xy2idx(xy);
        self.n -= 1;
        self.cells.set(idx, 0);
        self.shift_neighbor_degrees(xy, false);
    }

    pub fn xy2idx(&self, xy: (u32, u32)) -> (r: usize)
        requires
            self.cells_ok(),
            self.in_grid(xy),
        ensures
            r == idx(self.width(), pos(xy)),
            r < self.grid().len(),
    {
        proof {
            lemma_idx_in_range(self.width(), self.height(), pos(xy));
            assert(self.w * xy.1 == xy.1 * self.w) by (nonlinear_arith);
        }
        (self.w * xy.1 + xy.0) as usize
    }
}

/// The degree grid is a function of the occupancy grid: two exact degree
/// grids of the same cells are equal.
pub proof fn law_degrees_follow_cells(w: int, h: int, cells: Seq<u32>, d1: Seq<u32>, d2: Seq<u32>)
    requires
        degs_wf(w, h, cells, d1),
        degs_wf(w, h, cells, d2),
    ensures
        d1 == d2,
{
    assert(d1 =~= d2);
}

/// Counts the paths that step onto the empty cell `xy` next, then cover every
/// other empty cell and end on the last cell, adding them to `ans` (saturating
/// at `u64::MAX`). The board is left as it was found.
///
/// After `xy` is taken, an empty neighbour with no empty neighbour of its own
/// must come next, and so must a lone neighbour other than the last cell with
/// exactly one; two of the latter leave no path.
#[verifier::loop_isolation(false)]
pub fn rec(ans: &mut u64, board: &mut Board, xy: (u32, u32))
    requires
        old(board).wf(),
        is_free(old(board).width(), old(board).free(), pos(xy)),
    ensures
        final(board).width() == old(board).width(),
        final(board).height() == old(board).height(),
        final(board).placed() == old(board).placed(),
        final(board).grid() == old(board).grid(),
        final(board).degrees() == old(board).degrees(),
        *final(ans) == saturate(*old(ans) + paths(old(board).width(), old(board).free(), pos(xy))),
    decreases count_free(old(board).free()),
{
    let ghost w = board.width();
    let ghost h = board.height();
    let ghost n0 = board.placed();
    let ghost grid0 = board.grid();
    let ghost degs0 = board.degrees();
    let ghost free0 = board.free();
    let ghost ans0 = *ans;
    let ghost p = pos(xy);
    proof {
        lemma_free_interior(w, h, n0, grid0, p);
        lemma_cells_put(w, h, n0, grid0, p);
        lemma_count_update(free0, idx(w, p));
        assert(remove_cells(w, put_cells(w, grid0, n0, p), p) =~= grid0);
    }
    board.put(xy);
    let ghost rest = board.free();
    assert(rest == free0.update(idx(w, p), false));

    if xy.0 == XY_LAST.0 && xy.1 == XY_LAST.1 {
        if board.is_completed() {
            if *ans < u64::MAX {
                *ans = *ans + 1;
            }
        }
        board.remove(xy);
        proof {
            law_degrees_follow_cells(w, h, grid0, board.degrees(), degs0);
        }
        return;
    }
    assert(paths(w, free0, p) == paths_upto(w, rest, p, 8));

    let ns = neighbors(xy);
    let mut n_deg1: u32 = 0;
    let mut to_deg1: Option<(u32, u32)> = None;
    let ghost mut k_first: int = 0;
    let ghost mut k_last: int = 0;
    let mut k: usize = 0;
    while k < 8
        invariant
            board.wf(),
            board.width() == w,
            board.height() == h,
            board.placed() == n0 + 1,
            board.grid() == put_cells(w, grid0, n0, p),
            board.free() == rest,
            2 <= xy.0 < w - 2,
            2 <= xy.1 < h - 2,
            0 <= k <= 8,
            n0 >= 0,
            *ans == ans0,
            n_deg1 <= k,
            n_deg1 >= 1 ==> 0 <= k_last < k && to_deg1 == Some(ns@[k_last]) && blocking(
                w,
                rest,
                nb(p, k_last),
            ),
            n_deg1 >= 2 ==> 0 <= k_first < k_last && blocking(w, rest, nb(p, k_first)),
        decreases 8 - k,
    {
        let to = ns[k];
        assert(pos(to) == nb(p, k as int));
        if board.is_empty(to) {
            proof {
                lemma_free_interior(w, h, n0 + 1, board.grid(), pos(to));
            }
            let d = board.get_deg(to);
            if d == 0 {
                proof {
                    lemma_forced(w, rest, p, k as int);
                }
                rec(ans, board, to);
                board.remove(xy);
                proof {
                    law_degrees_follow_cells(w, h, grid0, board.degrees(), degs0);
                }
                return;
            } else if d == 1 && !(to.0 == XY_LAST.0 && to.1 == XY_LAST.1) {
                proof {
                    if n_deg1 == 0 {
                        k_first = k as int;
                    } else {
                        k_first = if n_deg1 == 1 { k_last } else { k_first };
                    }
                    k_last = k as int;
                }
                n_deg1 += 1;
                to_deg1 = Some(to);
            }
        }
        k += 1;
    }
    if n_deg1 == 1 {
        proof {
            lemma_forced(w, rest, p, k_last);
        }
        if let Some(to) = to_deg1 {
            rec(ans, board, to);
        }
        board.remove(xy);
        proof {
            law_degrees_follow_cells(w, h, grid0, board.degrees(), degs0);
        }
        return;
    } else if n_deg1 >= 2 {
        proof {
            lemma_two_forced(w, rest, p, k_first, k_last);
        }
        board.remove(xy);
        proof {
            law_degrees_follow_cells(w, h, grid0, board.degrees(), degs0);
        }
        return;
    }

    let mut k: usize = 0;
    while k < 8
        invariant
            board.wf(),
            board.width() == w,
            board.height() == h,
            board.placed() == n0 + 1,
            board.grid() == put_cells(w, grid0, n0, p),
            board.free() == rest,
            count_free(rest) < count_free(free0),
            2 <= xy.0 < w - 2,
            2 <= xy.1 < h - 2,
            0 <= k <= 8,
            n0 >= 0,
            *ans == saturate(ans0 + paths_upto(w, rest, p, k as int)),
        decreases 8 - k,
    {
        let to = ns[k];
        assert(pos(to) == nb(p, k as int));
        if board.is_empty(to) {
            rec(ans, board, to);
        } else {
            assert(paths(w, rest, pos(to)) == 0);
        }
        assert(paths_upto(w, rest, p, k + 1) == paths_upto(w, rest, p, k as int) + paths(
            w,
            rest,
            nb(p, k as int),
        ));
        k += 1;
    }
    board.remove(xy);
    proof {
        law_degrees_follow_cells(w, h, grid0, board.degrees(), degs0);
    }
}

/// Counts the knight paths on a `w_inner` x `h_inner` board that start on
/// the first cell, continue on the second, visit every cell once and end on
/// the last cell (saturating at `u64::MAX`).
pub fn count_tours(w_inner: u32, h_inner: u32) -> (r: Result<u64, SizeError>)
    ensures
        match size_check(w_inner as int, h_inner as int) {
            Err(e) => r == Err::<u64, SizeError>(e),
            Ok(_) => r == Ok::<u64, SizeError>(
                saturate(tour_count(w_inner + 4, h_inner + 4) as int) as u64,
            ),
        },
{
    if let Err(e) = check_size(w_inner, h_inner) {
        return Err(e);
    }
    let mut board = Board::new(w_inner, h_inner);
    let ghost w = board.width();
    proof {
        lemma_idx_in_range(w, board.height(), pos(XY_FIRST));
        lemma_coords(w, pos(XY_FIRST));
        lemma_cells_put(w, board.height(), 0, board.grid(), pos(XY_FIRST));
    }
    board.put(XY_FIRST);
    proof {
        lemma_idx_in_range(w, board.height(), pos(XY_SECOND));
        lemma_coords(w, pos(XY_SECOND));
        lemma_free_update(w, free_of(initial_cells(w, board.height())), pos(XY_FIRST), false);
    }
    let mut ans: u64 = 0;
    rec(&mut ans, &mut board, XY_SECOND);
    Ok(ans)
}

} // verus!
