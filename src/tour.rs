use vstd::prelude::*;
use crate::grid::{
    count_free, free_of, idx, initial_cells, is_free, lemma_count_update, lemma_free_update, SENTINEL,
};
use crate::knight::{nb, pos};

verus! {

/// First cell of every counted path, occupied before the search starts.
pub const XY_FIRST: (u32, u32) = (2, 2);

/// Second cell of every counted path, where the search starts.
pub const XY_SECOND: (u32, u32) = (4, 3);

/// Last cell of every counted path.
pub const XY_LAST: (u32, u32) = (3, 4);

/// Why a board size is refused.
#[derive(PartialEq, Eq, Debug, Clone, Copy)]
pub enum SizeError {
    /// A side of the true board is shorter than 3.
    TooSmall,
    /// The padded grid has too many cells to be indexed by `u32`.
    TooLarge,
}

/// Whether a `w_inner` x `h_inner` board can be searched, and if not, why.
pub open spec fn size_check(w_inner: int, h_inner: int) -> Result<(), SizeError> {
    if w_inner < 3 || h_inner < 3 {
        Err(SizeError::TooSmall)
    } else if (w_inner + 4) * (h_inner + 4) >= SENTINEL {
        Err(SizeError::TooLarge)
    } else {
        Ok(())
    }
}

/// Checks a board size: each side at least 3, so that the three fixed cells
/// lie on the board, and the padded grid small enough for `u32` indices.
pub fn check_size(w_inner: u32, h_inner: u32) -> (r: Result<(), SizeError>)
    ensures
        r == size_check(w_inner as int, h_inner as int),
{
    if w_inner < 3 || h_inner < 3 {
        return Err(SizeError::TooSmall);
    }
    let w = w_inner as u64 + 4;
    let h = h_inner as u64 + 4;
    assert(w < SENTINEL && h < SENTINEL ==> w * h <= u64::MAX) by (nonlinear_arith);
    assert(w >= SENTINEL ==> w * h >= SENTINEL) by (nonlinear_arith)
        requires
            h >= 7,
    ;
    assert(h >= SENTINEL ==> w * h >= SENTINEL) by (nonlinear_arith)
        requires
            w >= 7,
    ;
    if w >= SENTINEL as u64 || h >= SENTINEL as u64 || w * h >= SENTINEL as u64 {
        Err(SizeError::TooLarge)
    } else {
        Ok(())
    }
}

/// `x`, or `u64::MAX` where `x` is larger.
pub open spec fn saturate(x: int) -> int {
    if x > u64::MAX {
        u64::MAX as int
    } else {
        x
    }
}

/// Number of knight paths on a padded `w` x `h` grid that start on the first
/// cell, continue on the second, visit every cell of the true board exactly
/// once and end on the last cell.
pub open spec fn tour_count(w: int, h: int) -> nat {
    paths(w, free_of(initial_cells(w, h)).update(idx(w, pos(XY_FIRST)), false), pos(XY_SECOND))
}

/// Number of knight paths that step onto `p` now, then visit every other empty
/// cell of `free` exactly once, and end on the last cell. A path may only end
/// there: reaching it early is a dead end.
pub open spec fn paths(w: int, free: Seq<bool>, p: (int, int)) -> nat
    decreases count_free(free), 9int,
{
    if !is_free(w, free, p) {
        0
    } else {
        let rest = free.update(idx(w, p), false);
        if p == pos(XY_LAST) {
            if count_free(rest) == 0 {
                1
            } else {
                0
            }
        } else {
            proof {
                lemma_count_update(free, idx(w, p));
            }
            paths_upto(w, rest, p, 8)
        }
    }
}

/// Sum of `paths(w, rest, nb(p, j))` over the first `k` moves `j` from `p`.
pub open spec fn paths_upto(w: int, rest: Seq<bool>, p: (int, int), k: int) -> nat
    decreases count_free(rest) + 1, k,
{
    if k <= 0 {
        0
    } else {
        paths_upto(w, rest, p, k - 1) + paths(w, rest, nb(p, k - 1))
    }
}

pub open spec fn indicator(b: bool) -> nat {
    if b {
        1
    } else {
        0
    }
}

/// Degree of `c`: how many of its eight knight moves land on an empty cell.
pub open spec fn free_deg(w: int, free: Seq<bool>, c: (int, int)) -> nat {
    free_deg_upto(w, free, c, 8)
}

/// How many of the first `k` knight moves from `c` land on an empty cell.
pub open spec fn free_deg_upto(w: int, free: Seq<bool>, c: (int, int), k: int) -> nat
    decreases k,
{
    if k <= 0 {
        0
    } else {
        free_deg_upto(w, free, c, k - 1) + indicator(is_free(w, free, nb(c, k - 1)))
    }
}

/// The move that leads from `p` to `c`, or 8 when `c` is no knight move away.
pub open spec fn dir(p: (int, int), c: (int, int)) -> int {
    let d = (c.0 - p.0, c.1 - p.1);
    if d == (-1int, -2int) {
        0
    } else if d == (1int, -2int) {
        1
    } else if d == (-2int, -1int) {
        2
    } else if d == (2int, -1int) {
        3
    } else if d == (-2int, 1int) {
        4
    } else if d == (2int, 1int) {
        5
    } else if d == (-1int, 2int) {
        6
    } else if d == (1int, 2int) {
        7
    } else {
        8
    }
}

/// An empty cell that a path starting anywhere else can never pass through:
/// it has no empty neighbour left, or it is not the last cell and has at
/// most one, so a path could enter it but not leave it.
pub open spec fn blocking(w: int, free: Seq<bool>, q: (int, int)) -> bool {
    &&& is_free(w, free, q)
    &&& (free_deg(w, free, q) == 0 || (q != pos(XY_LAST) && free_deg(w, free, q) <= 1))
}

pub proof fn lemma_deg_expand(w: int, free: Seq<bool>, c: (int, int))
    ensures
        free_deg(w, free, c) == indicator(is_free(w, free, nb(c, 0))) + indicator(
            is_free(w, free, nb(c, 1)),
        ) + indicator(is_free(w, free, nb(c, 2))) + indicator(is_free(w, free, nb(c, 3)))
            + indicator(is_free(w, free, nb(c, 4))) + indicator(is_free(w, free, nb(c, 5)))
            + indicator(is_free(w, free, nb(c, 6))) + indicator(is_free(w, free, nb(c, 7))),
{
    reveal_with_fuel(free_deg_upto, 9);
}

/// Filling the empty cell `p` lowers by one the degree of each cell a knight
/// move away from it, and leaves every other degree alone.
pub proof fn lemma_deg_change(w: int, free: Seq<bool>, p: (int, int), c: (int, int))
    requires
        is_free(w, free, p),
    ensures
        free_deg(w, free, c) == free_deg(w, free.update(idx(w, p), false), c) + indicator(
            dir(p, c) < 8,
        ),
{
    lemma_free_update(w, free, p, false);
    lemma_deg_expand(w, free, c);
    lemma_deg_expand(w, free.update(idx(w, p), false), c);
}

/// A cell with an empty cell one knight move away has a positive degree.
pub proof fn lemma_deg_pos(w: int, free: Seq<bool>, c: (int, int), k: int)
    requires
        0 <= k < 8,
        is_free(w, free, nb(c, k)),
    ensures
        free_deg(w, free, c) >= 1,
{
    lemma_deg_expand(w, free, c);
    assert(k == 0 || k == 1 || k == 2 || k == 3 || k == 4 || k == 5 || k == 6 || k == 7);
}

/// `paths_upto` when at most the move `j0` can contribute.
pub proof fn lemma_upto_only(w: int, rest: Seq<bool>, p: (int, int), k: int, j0: int)
    requires
        forall|j: int| 0 <= j < k && j != j0 ==> #[trigger] paths(w, rest, nb(p, j)) == 0,
    ensures
        paths_upto(w, rest, p, k) == if 0 <= j0 < k {
            paths(w, rest, nb(p, j0))
        } else {
            0
        },
    decreases k,
{
    if k > 0 {
        lemma_upto_only(w, rest, p, k - 1, j0);
        assert(paths_upto(w, rest, p, k) == paths_upto(w, rest, p, k - 1) + paths(
            w,
            rest,
            nb(p, k - 1),
        ));
    }
}

/// An empty cell other than the last one with no empty neighbour starts no path.
pub proof fn lemma_dead(w: int, free: Seq<bool>, q: (int, int))
    requires
        is_free(w, free, q),
        q != pos(XY_LAST),
        free_deg(w, free, q) == 0,
    ensures
        paths(w, free, q) == 0,
{
    let rest = free.update(idx(w, q), false);
    lemma_free_update(w, free, q, false);
    lemma_deg_expand(w, free, q);
    assert forall|j: int| 0 <= j < 8 && j != -1 implies #[trigger] paths(w, rest, nb(q, j)) == 0 by {
        assert(!is_free(w, rest, nb(q, j)));
    }
    lemma_upto_only(w, rest, q, 8, -1);
}

/// While a blocking cell `q` stays empty, no path starts anywhere else.
pub proof fn lemma_blocked(w: int, free: Seq<bool>, r: (int, int), q: (int, int))
    requires
        blocking(w, free, q),
        r != q,
    ensures
        paths(w, free, r) == 0,
    decreases count_free(free),
{
    if is_free(w, free, r) {
        let rest = free.update(idx(w, r), false);
        lemma_free_update(w, free, r, false);
        lemma_count_update(free, idx(w, r));
        if r == pos(XY_LAST) {
            assert(is_free(w, rest, q));
            lemma_count_update(rest, idx(w, q));
        } else {
            lemma_deg_expand(w, free, q);
            lemma_deg_expand(w, rest, q);
            assert forall|j: int| 0 <= j < 8 && j != -1 implies #[trigger] paths(
                w,
                rest,
                nb(r, j),
            ) == 0 by {
                let t = nb(r, j);
                if t == q {
                    assert(nb(q, 7 - j) == r);
                    lemma_dead(w, rest, q);
                } else {
                    lemma_blocked(w, rest, t, q);
                }
            }
            lemma_upto_only(w, rest, r, 8, -1);
        }
    }
}

/// Of the moves from `p`, only the one onto the blocking cell `nb(p, k)` can
/// lead to a path.
pub proof fn lemma_forced(w: int, rest: Seq<bool>, p: (int, int), k: int)
    requires
        0 <= k < 8,
        blocking(w, rest, nb(p, k)),
    ensures
        paths_upto(w, rest, p, 8) == paths(w, rest, nb(p, k)),
{
    assert forall|j: int| 0 <= j < 8 && j != k implies #[trigger] paths(w, rest, nb(p, j)) == 0 by {
        lemma_blocked(w, rest, nb(p, j), nb(p, k));
    }
    lemma_upto_only(w, rest, p, 8, k);
}

/// Two distinct blocking cells among the moves from `p` leave no path.
pub proof fn lemma_two_forced(w: int, rest: Seq<bool>, p: (int, int), k1: int, k2: int)
    requires
        0 <= k1 < 8,
        0 <= k2 < 8,
        k1 != k2,
        blocking(w, rest, nb(p, k1)),
        blocking(w, rest, nb(p, k2)),
    ensures
        paths_upto(w, rest, p, 8) == 0,
{
    assert forall|j: int| 0 <= j < 8 && j != -1 implies #[trigger] paths(w, rest, nb(p, j)) == 0 by {
        if j != k1 {
            lemma_blocked(w, rest, nb(p, j), nb(p, k1));
        } else {
            lemma_blocked(w, rest, nb(p, j), nb(p, k2));
        }
    }
    lemma_upto_only(w, rest, p, 8, -1);
}

/// A neighbour of `p` left without any empty neighbour, while at least two
/// cells are still empty, leaves no path from `p`.
pub proof fn lemma_isolated_neighbor(w: int, rest: Seq<bool>, p: (int, int), k: int)
    requires
        0 <= k < 8,
        is_free(w, rest, nb(p, k)),
        free_deg(w, rest, nb(p, k)) == 0,
        count_free(rest) >= 2,
    ensures
        paths_upto(w, rest, p, 8) == 0,
{
    let q = nb(p, k);
    assert forall|j: int| 0 <= j < 8 && j != -1 implies #[trigger] paths(w, rest, nb(p, j)) == 0 by {
        if j != k {
            lemma_blocked(w, rest, nb(p, j), q);
        } else if q == pos(XY_LAST) {
            let rest2 = rest.update(idx(w, q), false);
            lemma_count_update(rest, idx(w, q));
        } else {
            lemma_dead(w, rest, q);
        }
    }
    lemma_upto_only(w, rest, p, 8, -1);
}

} // verus!
