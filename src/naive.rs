//! Search with a single pruning rule: give up as soon as a neighbour of the
//! current cell is left with no empty neighbour.
use vstd::prelude::*;
use crate::grid::{
    cells_wf, count_free, free_of, idx, initial_cells, is_free, lemma_area, lemma_cells_put,
    lemma_cells_remove, lemma_coords, lemma_count_update, lemma_free_interior, lemma_free_update, lemma_idx_in_range, padded_cells,
    put_cells, remove_cells, MARGIN,
};
use crate::knight::{nb, neighbors, pos};
use crate::tour::{
    check_size, free_deg, lemma_deg_expand, lemma_deg_pos, lemma_isolated_neighbor, paths, paths_upto, saturate,
    size_check, tour_count, SizeError, XY_FIRST, XY_LAST, XY_SECOND,
};

verus! {

/// A padded board: the occupancy grid, with a margin of sentinel cells, and
/// the number of knights placed.
pub struct Board {
    w: u32,
    h: u32,
    n: u32,
    cells: Vec<u32>,
}

impl Board {
    /// Width of the padded grid.
    pub closed spec fn width(&self) -> int {
        self.w as int
    }

    /// Height of the padded grid.
    pub closed spec fn height(&self) -> int {
        self.h as int
    }

    /// Number of knights on the board.
    pub closed spec fn placed(&self) -> int {
        self.n as int
    }

    /// The grid, row by row: 0 for empty, the visit order for an occupied
    /// cell, the sentinel for the margin.
    pub closed spec fn grid(&self) -> Seq<u32> {
        self.cells@
    }

    pub open spec fn wf(&self) -> bool {
        cells_wf(self.width(), self.height(), self.placed(), self.grid())
    }

    /// Which cells are empty.
    pub open spec fn free(&self) -> Seq<bool> {
        free_of(self.grid())
    }

    /// `xy` lies on the padded grid.
    pub open spec fn in_grid(&self, xy: (u32, u32)) -> bool {
        xy.0 < self.width() && xy.1 < self.height()
    }

    pub open spec fn at(&self, xy: (u32, u32)) -> u32 {
        self.grid()[idx(self.width(), pos(xy))]
    }

    /// A fresh `w_inner` x `h_inner` board: every cell empty, no knight placed.
    pub fn new(w_inner: u32, h_inner: u32) -> (r: Board)
        requires
            3 <= w_inner,
            3 <= h_inner,
            (w_inner + 4) * (h_inner + 4) < u32::MAX,
        ensures
            r.wf(),
            r.width() == w_inner + 4,
            r.height() == h_inner + 4,
            r.placed() == 0,
            r.grid() == initial_cells(w_inner + 4, h_inner + 4),
    {
        assert(w_inner + 4 <= (w_inner + 4) * (h_inner + 4) && h_inner + 4 <= (w_inner + 4) * (
        h_inner + 4)) by (nonlinear_arith)
            requires
                3 <= w_inner,
                3 <= h_inner,
        ;
        let cells = padded_cells(w_inner, h_inner);
        Board { w: w_inner + 2 * MARGIN, h: h_inner + 2 * MARGIN, n: 0, cells }
    }

    pub fn w_inner(&self) -> (r: u32)
        requires
            self.wf(),
        ensures
            r == self.width() - 4,
    {
        self.w - 2 * MARGIN
    }

    pub fn h_inner(&self) -> (r: u32)
        requires
            self.wf(),
        ensures
            r == self.height() - 4,
    {
        self.h - 2 * MARGIN
    }

    pub fn n(&self) -> (r: u32)
        ensures
            r == self.placed(),
    {
        self.n
    }

    /// Every cell of the true board holds a knight.
    pub fn is_completed(&self) -> (r: bool)
        requires
            self.wf(),
        ensures
            r == (self.placed() == (self.width() - 4) * (self.height() - 4)),
            r == (count_free(self.free()) == 0),
    {
        proof {
            lemma_area(self.width(), self.height());
        }
        self.n == self.w_inner() * self.h_inner()
    }

    pub fn get(&self, xy: (u32, u32)) -> (r: u32)
        requires
            self.wf(),
            self.in_grid(xy),
        ensures
            r == self.at(xy),
    {
        self.cells[self.xy2idx(xy)]
    }

    pub fn is_empty(&self, xy: (u32, u32)) -> (r: bool)
        requires
            self.wf(),
            self.in_grid(xy),
        ensures
            r == is_free(self.width(), self.free(), pos(xy)),
    {
        proof {
            lemma_idx_in_range(self.width(), self.height(), pos(xy));
        }
        self.get(xy) == 0
    }

    /// `xy` is empty and none of its knight moves lands on an empty cell.
    pub fn is_deadend(&self, xy: (u32, u32)) -> (r: bool)
        requires
            self.wf(),
            self.in_grid(xy),
        ensures
            r == (is_free(self.width(), self.free(), pos(xy)) && free_deg(
                self.width(),
                self.free(),
                pos(xy),
            ) == 0),
    {
        if !self.is_empty(xy) {
            return false;
        }
        proof {
            lemma_free_interior(self.width(), self.height(), self.placed(), self.grid(), pos(xy));
            lemma_deg_expand(self.width(), self.free(), pos(xy));
        }
        let ns = neighbors(xy);
        let mut k: usize = 0;
        while k < 8
            invariant
                self.wf(),
                2 <= xy.0 < self.width() - 2,
                2 <= xy.1 < self.height() - 2,
                0 <= k <= 8,
                forall|j: int| 0 <= j < 8 ==> #[trigger] pos(ns@[j]) == nb(pos(xy), j),
                forall|j: int|
                    0 <= j < k ==> !is_free(self.width(), self.free(), #[trigger] nb(pos(xy), j)),
            decreases 8 - k,
        {
            assert(pos(ns@[k as int]) == nb(pos(xy), k as int));
            if self.is_empty(ns[k]) {
                proof {
                    lemma_deg_pos(self.width(), self.free(), pos(xy), k as int);
                }
                return false;
            }
            k += 1;
        }
        true
    }

    /// Places the next knight on the empty cell `xy`.
    pub fn put(&mut self, xy: (u32, u32))
        requires
            old(self).wf(),
            is_free(old(self).width(), old(self).free(), pos(xy)),
        ensures
            final(self).wf(),
            final(self).width() == old(self).width(),
            final(self).height() == old(self).height(),
            final(self).placed() == old(self).placed() + 1,
            final(self).grid() == put_cells(old(self).width(), old(self).grid(), old(self).placed(), pos(xy)),
    {
        proof {
            lemma_cells_put(self.width(), self.height(), self.placed(), self.grid(), pos(xy));
            lemma_free_interior(self.width(), self.height(), self.placed(), self.grid(), pos(xy));
        }
        let idx = self.xy2idx(xy);
        self.n += 1;
        self.cells.set(idx, self.n);
    }

    /// Takes the last knight placed off `xy`.
    pub fn remove(&mut self, xy: (u32, u32))
        requires
            old(self).wf(),
            old(self).in_grid(xy),
            old(self).placed() > 0,
            old(self).at(xy) == old(self).placed(),
        ensures
            final(self).wf(),
            final(self).width() == old(self).width(),
            final(self).height() == old(self).height(),
            final(self).placed() == old(self).placed() - 1,
            final(self).grid() == remove_cells(old(self).width(), old(self).grid(), pos(xy)),
    {
        proof {
            lemma_cells_remove(self.width(), self.height(), self.placed(), self.grid(), pos(xy));
        }
        let idx = self.xy2idx(xy);
        self.n -= 1;
        self.cells.set(idx, 0);
    }

    pub fn xy2idx(&self, xy: (u32, u32)) -> (r: usize)
        requires
            self.wf(),
            self.in_grid(xy),
        ensures
            r == idx(self.width(), pos(xy)),
            r < self.grid().len(),
    {
        proof {
            lemma_idx_in_range(self.width(), self.height(), pos(xy));
            assert(self.w * xy.1 == xy.1 * self.w) by (nonlinear_arith);
        }
        (self.w * xy.1 + xy.0) as usize
    }
}

/// Counts the paths that step onto the empty cell `xy` next, then cover every
/// other empty cell and end on the last cell, adding them to `ans` (saturating
/// at `u64::MAX`). The board is left as it was found.
#[verifier::loop_isolation(false)]
pub fn rec(ans: &mut u64, board: &mut Board, xy: (u32, u32))
    requires
        old(board).wf(),
        is_free(old(board).width(), old(board).free(), pos(xy)),
    ensures
        final(board).width() == old(board).width(),
        final(board).height() == old(board).height(),
        final(board).placed() == old(board).placed(),
        final(board).grid() == old(board).grid(),
        *final(ans) == saturate(*old(ans) + paths(old(board).width(), old(board).free(), pos(xy))),
    decreases count_free(old(board).free()),
{
    let ghost w = board.width();
    let ghost h = board.height();
    let ghost n0 = board.placed();
    let ghost grid0 = board.grid();
    let ghost free0 = board.free();
    let ghost ans0 = *ans;
    let ghost p = pos(xy);
    proof {
        lemma_free_interior(w, h, n0, grid0, p);
        lemma_cells_put(w, h, n0, grid0, p);
        lemma_count_update(free0, idx(w, p));
        assert(remove_cells(w, put_cells(w, grid0, n0, p), p) =~= grid0);
    }
    board.put(xy);
    let ghost rest = board.free();
    assert(rest == free0.update(idx(w, p), false));

    if xy.0 == XY_LAST.0 && xy.1 == XY_LAST.1 {
        if board.is_completed() {
            if *ans < u64::MAX {
                *ans = *ans + 1;
            }
        }
        board.remove(xy);
        return;
    }
    assert(paths(w, free0, p) == paths_upto(w, rest, p, 8));

    let ns = neighbors(xy);
    proof {
        lemma_area(w, h);
    }
    if board.n() < board.w_inner() * board.h_inner() - 1 {
        let mut k: usize = 0;
        while k < 8
            invariant
                board.wf(),
                board.width() == w,
                board.height() == h,
                board.placed() == n0 + 1,
                board.grid() == put_cells(w, grid0, n0, p),
                board.free() == rest,
                2 <= xy.0 < w - 2,
                2 <= xy.1 < h - 2,
                0 <= k <= 8,
                count_free(rest) >= 2,
                *ans == ans0,
                n0 >= 0,
            decreases 8 - k,
        {
            assert(pos(ns@[k as int]) == nb(p, k as int));
            if board.is_deadend(ns[k]) {
                proof {
                    lemma_isolated_neighbor(w, rest, p, k as int);
                }
                board.remove(xy);
                return;
            }
            k += 1;
        }
    }
    let mut k: usize = 0;
    while k < 8
        invariant
            board.wf(),
            board.width() == w,
            board.height() == h,
            board.placed() == n0 + 1,
            board.grid() == put_cells(w, grid0, n0, p),
            board.free() == rest,
            count_free(rest) < count_free(free0),
            2 <= xy.0 < w - 2,
            2 <= xy.1 < h - 2,
            0 <= k <= 8,
            *ans == saturate(ans0 + paths_upto(w, rest, p, k as int)),
            n0 >= 0,
        decreases 8 - k,
    {
        let to = ns[k];
        assert(pos(to) == nb(p, k as int));
        if board.is_empty(to) {
            rec(ans, board, to);
        } else {
            assert(paths(w, rest, pos(to)) == 0);
        }
        assert(paths_upto(w, rest, p, k + 1) == paths_upto(w, rest, p, k as int) + paths(
            w,
            rest,
            nb(p, k as int),
        ));
        k += 1;
    }
    board.remove(xy);
}

/// Counts the knight paths on a `w_inner` x `h_inner` board that start on
/// the first cell, continue on the second, visit every cell once and end on
/// the last cell (saturating at `u64::MAX`).
pub fn count_tours(w_inner: u32, h_inner: u32) -> (r: Result<u64, SizeError>)
    ensures
        match size_check(w_inner as int, h_inner as int) {
            Err(e) => r == Err::<u64, SizeError>(e),
            Ok(_) => r == Ok::<u64, SizeError>(
                saturate(tour_count(w_inner + 4, h_inner + 4) as int) as u64,
            ),
        },
{
    if let Err(e) = check_size(w_inner, h_inner) {
        return Err(e);
    }
    let mut board = Board::new(w_inner, h_inner);
    let ghost w = board.width();
    proof {
        lemma_idx_in_range(w, board.height(), pos(XY_FIRST));
        lemma_coords(w, pos(XY_FIRST));
        lemma_cells_put(w, board.height(), 0, board.grid(), pos(XY_FIRST));
    }
    board.put(XY_FIRST);
    proof {
        lemma_idx_in_range(w, board.height(), pos(XY_SECOND));
        lemma_coords(w, pos(XY_SECOND));
        lemma_free_update(w, free_of(initial_cells(w, board.height())), pos(XY_FIRST), false);
    }
    let mut ans: u64 = 0;
    rec(&mut ans, &mut board, XY_SECOND);
    Ok(ans)
}

} // verus!
