use vstd::prelude::*;

verus! {

/// The `k`-th knight move from `p`, in the fixed enumeration order.
pub open spec fn nb(p: (int, int), k: int) -> (int, int) {
    if k == 0 {
        (p.0 - 1, p.1 - 2)
    } else if k == 1 {
        (p.0 + 1, p.1 - 2)
    } else if k == 2 {
        (p.0 - 2, p.1 - 1)
    } else if k == 3 {
        (p.0 + 2, p.1 - 1)
    } else if k == 4 {
        (p.0 - 2, p.1 + 1)
    } else if k == 5 {
        (p.0 + 2, p.1 + 1)
    } else if k == 6 {
        (p.0 - 1, p.1 + 2)
    } else {
        (p.0 + 1, p.1 + 2)
    }
}

/// A cell as a pair of mathematical integers.
pub open spec fn pos(xy: (u32, u32)) -> (int, int) {
    (xy.0 as int, xy.1 as int)
}

/// The eight knight moves from `xy`, in the fixed order
/// (-1,-2), (1,-2), (-2,-1), (2,-1), (-2,1), (2,1), (-1,2), (1,2).
/// The cell must lie at least two steps away from the ends of `u32`, as every
/// cell of a padded board does.
pub fn neighbors(xy: (u32, u32)) -> (r: [(u32, u32); 8])
    requires
        2 <= xy.0 <= u32::MAX - 2,
        2 <= xy.1 <= u32::MAX - 2,
    ensures
        forall|k: int| 0 <= k < 8 ==> #[trigger] pos(r@[k]) == nb(pos(xy), k),
        forall|k: int|
            0 <= k < 8 ==> xy.0 - 2 <= #[trigger] r@[k].0 <= xy.0 + 2 && xy.1 - 2 <= r@[k].1 <= xy.1
                + 2,
{
    let (x, y) = xy;
    let r = [
        (x - 1, y - 2),
        (x + 1, y - 2),
        (x - 2, y - 1),
        (x + 2, y - 1),
        (x - 2, y + 1),
        (x + 2, y + 1),
        (x - 1, y + 2),
        (x + 1, y + 2),
    ];
    assert(forall|k: int| 0 <= k < 8 ==> #[trigger] pos(r@[k]) == nb(pos(xy), k)) by {
        assert(r@[0] == r[0]);
    }
    assert(forall|k: int|
        0 <= k < 8 ==> xy.0 - 2 <= #[trigger] r@[k].0 <= xy.0 + 2 && xy.1 - 2 <= r@[k].1 <= xy.1
            + 2) by {
        assert(r@[0] == r[0]);
    }
    r
}

} // verus!
