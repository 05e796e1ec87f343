//! Laws of the distance field, stated once and proved for every grid.
use vstd::prelude::*;

use crate::field::{
    INFINITY, at, connects, costs_ok, frontier_has, grid_all, in_bounds, is_dist_field, is_path,
    lemma_path_prefix, path_cost, reaches,
};

verus! {

/// With an empty frontier there is no walk at all, so a published field is
/// entirely unreachable.
pub proof fn lemma_empty_frontier_all_unreachable(
    f: Seq<Seq<i32>>,
    costs: Seq<Seq<i32>>,
    w: int,
    h: int,
    fr: Seq<(usize, usize)>,
)
    requires
        is_dist_field(f, costs, w, h, fr),
        fr.len() == 0,
    ensures
        forall|x: int, y: int| in_bounds(w, h, x, y) ==> #[trigger] at(f, x, y) == INFINITY,
{
    reveal(reaches);
    assert forall|x: int, y: int|
        in_bounds(w, h, x, y) implies #[trigger] at(f, x, y) == INFINITY by {
        if at(f, x, y) != INFINITY {
            assert(reaches(costs, w, h, fr, x, y, at(f, x, y) as int));
            let p = choose|p: Seq<(int, int)>|
                connects(costs, w, h, fr, p, x, y, at(f, x, y) as int);
            assert(frontier_has(fr, p[0].0, p[0].1));
            let j = choose|j: int|
                0 <= j < fr.len() && (#[trigger] fr[j]).0 == p[0].0 && fr[j].1 == p[0].1;
            assert(false);
        }
    }
}

/// A tile whose cost is the blocked sentinel, and which is not itself a
/// frontier tile, can be entered by no walk: its distance stays unreachable.
pub proof fn lemma_blocked_tile_unreachable(
    f: Seq<Seq<i32>>,
    costs: Seq<Seq<i32>>,
    w: int,
    h: int,
    fr: Seq<(usize, usize)>,
    x: int,
    y: int,
)
    requires
        is_dist_field(f, costs, w, h, fr),
        in_bounds(w, h, x, y),
        at(costs, x, y) == INFINITY,
        !frontier_has(fr, x, y),
    ensures
        at(f, x, y) == INFINITY,
{
    reveal(reaches);
    if at(f, x, y) != INFINITY {
        assert(reaches(costs, w, h, fr, x, y, at(f, x, y) as int));
        let p = choose|p: Seq<(int, int)>| connects(costs, w, h, fr, p, x, y, at(f, x, y) as int);
        if p.len() == 1 {
            assert(p.last() == p[0]);
            assert(frontier_has(fr, x, y));
        } else {
            assert(at(costs, (#[trigger] p[p.len() - 1]).0, p[p.len() - 1].1) >= 0);
            assert(p[p.len() - 1] == p.last());
        }
        assert(false);
    }
}

/// A blocked non-frontier tile is never the greedy step's destination: a
/// step away from the current tile only targets a tile carrying a distance.
pub proof fn lemma_step_never_enters_blocked(
    f: Seq<Seq<i32>>,
    costs: Seq<Seq<i32>>,
    w: int,
    h: int,
    fr: Seq<(usize, usize)>,
    cur: (usize, usize),
    best: (usize, usize),
)
    requires
        is_dist_field(f, costs, w, h, fr),
        best == cur || (in_bounds(w, h, best.0 as int, best.1 as int) && at(
            f,
            best.0 as int,
            best.1 as int,
        ) != INFINITY),
        in_bounds(w, h, best.0 as int, best.1 as int),
        at(costs, best.0 as int, best.1 as int) == INFINITY,
        !frontier_has(fr, best.0 as int, best.1 as int),
    ensures
        best == cur,
{
    if best != cur {
        lemma_blocked_tile_unreachable(f, costs, w, h, fr, best.0 as int, best.1 as int);
    }
}

/// One cost never sinks below another: equal, or raised, where the blocked
/// sentinel counts as the largest cost of all.
pub open spec fn cost_le(a: i32, b: i32) -> bool {
    if a == INFINITY {
        b == INFINITY
    } else {
        b == INFINITY || a <= b
    }
}

/// Every tile of c2 costs at least what it costs in c1.
pub open spec fn costs_rise(c1: Seq<Seq<i32>>, c2: Seq<Seq<i32>>, w: int, h: int) -> bool {
    forall|x: int, y: int|
        in_bounds(w, h, x, y) ==> cost_le(#[trigger] at(c1, x, y), at(c2, x, y))
}

proof fn lemma_path_under_lower_costs(
    c1: Seq<Seq<i32>>,
    c2: Seq<Seq<i32>>,
    w: int,
    h: int,
    p: Seq<(int, int)>,
)
    requires
        costs_ok(c1, w, h),
        costs_rise(c1, c2, w, h),
        is_path(c2, w, h, p),
    ensures
        is_path(c1, w, h, p),
        path_cost(c1, p) <= path_cost(c2, p),
    decreases p.len(),
{
    assert forall|i: int| 1 <= i < p.len() implies at(c1, (#[trigger] p[i]).0, p[i].1) >= 0 by {
        assert(in_bounds(w, h, p[i].0, p[i].1));
        assert(at(c2, p[i].0, p[i].1) >= 0);
        assert(cost_le(at(c1, p[i].0, p[i].1), at(c2, p[i].0, p[i].1)));
        assert(at(c1, p[i].0, p[i].1) >= INFINITY);
    }
    if p.len() >= 2 {
        lemma_path_prefix(c2, w, h, p);
        lemma_path_under_lower_costs(c1, c2, w, h, p.drop_last());
        assert(p[p.len() - 1] == p.last());
        assert(at(c2, (#[trigger] p[p.len() - 1]).0, p[p.len() - 1].1) >= 0);
        assert(cost_le(at(c1, p.last().0, p.last().1), at(c2, p.last().0, p.last().1)));
    }
}

/// Raising costs never shrinks a published distance: wherever the field
/// over the raised costs carries a distance, the field over the original
/// costs carries one too, and it is no larger.
pub proof fn lemma_rising_costs_keep_distances(
    f1: Seq<Seq<i32>>,
    c1: Seq<Seq<i32>>,
    f2: Seq<Seq<i32>>,
    c2: Seq<Seq<i32>>,
    w: int,
    h: int,
    fr: Seq<(usize, usize)>,
)
    requires
        is_dist_field(f1, c1, w, h, fr),
        is_dist_field(f2, c2, w, h, fr),
        costs_ok(c1, w, h),
        costs_rise(c1, c2, w, h),
    ensures
        forall|x: int, y: int|
            in_bounds(w, h, x, y) && #[trigger] at(f2, x, y) != INFINITY ==> at(f1, x, y)
                != INFINITY && at(f1, x, y) <= at(f2, x, y),
{
    reveal(reaches);
    assert forall|x: int, y: int|
        in_bounds(w, h, x, y) && #[trigger] at(f2, x, y) != INFINITY implies at(f1, x, y)
        != INFINITY && at(f1, x, y) <= at(f2, x, y) by {
        assert(reaches(c2, w, h, fr, x, y, at(f2, x, y) as int));
        let p = choose|p: Seq<(int, int)>| connects(c2, w, h, fr, p, x, y, at(f2, x, y) as int);
        lemma_path_under_lower_costs(c1, c2, w, h, p);
        assert(connects(c1, w, h, fr, p, x, y, path_cost(c1, p)));
        assert(reaches(c1, w, h, fr, x, y, path_cost(c1, p)));
        assert(at(f1, x, y) != INFINITY);
        assert(at(f1, x, y) <= path_cost(c1, p));
    }
}

/// The monotone rectangular walk from the origin to (x, y): first along the
/// row, then up the column.
spec fn staircase(x: int, y: int) -> Seq<(int, int)>
    decreases (if x > 0 { x } else { 0 }) + (if y > 0 { y } else { 0 }),
{
    if y > 0 {
        staircase(x, y - 1).push((x, y))
    } else if x > 0 {
        staircase(x - 1, 0).push((x, 0))
    } else {
        seq![(0int, 0int)]
    }
}

proof fn lemma_staircase(costs: Seq<Seq<i32>>, w: int, h: int, x: int, y: int)
    requires
        grid_all(costs, w, h, 1),
        0 <= x < w,
        0 <= y < h,
    ensures
        is_path(costs, w, h, staircase(x, y)),
        staircase(x, y)[0] == (0int, 0int),
        staircase(x, y).last() == (x, y),
        path_cost(costs, staircase(x, y)) == x + y,
    decreases x + y,
{
    let sp = staircase(x, y);
    if y > 0 {
        lemma_staircase(costs, w, h, x, y - 1);
        let q = staircase(x, y - 1);
        assert(sp == q.push((x, y)));
        assert(sp.drop_last() =~= q);
        assert(sp.last() == (x, y));
        assert forall|i: int| 0 <= i < sp.len() implies in_bounds(
            w,
            h,
            (#[trigger] sp[i]).0,
            sp[i].1,
        ) by {
            if i < q.len() {
                assert(sp[i] == q[i]);
            }
        }
        assert forall|i: int| 1 <= i < sp.len() implies crate::field::adj(
            sp[i - 1].0,
            sp[i - 1].1,
            (#[trigger] sp[i]).0,
            sp[i].1,
        ) by {
            if i < q.len() {
                assert(sp[i] == q[i] && sp[i - 1] == q[i - 1]);
            } else {
                assert(sp[i - 1] == q.last());
            }
        }
        assert forall|i: int| 1 <= i < sp.len() implies at(costs, (#[trigger] sp[i]).0, sp[i].1)
            >= 0 by {
            if i < q.len() {
                assert(sp[i] == q[i]);
            } else {
                assert(at(costs, x, y) == 1);
            }
        }
        assert(path_cost(costs, sp) == path_cost(costs, q) + at(costs, x, y));
    } else if x > 0 {
        lemma_staircase(costs, w, h, x - 1, 0);
        let q = staircase(x - 1, 0);
        assert(sp == q.push((x, 0int)));
        assert(sp.drop_last() =~= q);
        assert(sp.last() == (x, 0int));
        assert forall|i: int| 0 <= i < sp.len() implies in_bounds(
            w,
            h,
            (#[trigger] sp[i]).0,
            sp[i].1,
        ) by {
            if i < q.len() {
                assert(sp[i] == q[i]);
            }
        }
        assert forall|i: int| 1 <= i < sp.len() implies crate::field::adj(
            sp[i - 1].0,
            sp[i - 1].1,
            (#[trigger] sp[i]).0,
            sp[i].1,
        ) by {
            if i < q.len() {
                assert(sp[i] == q[i] && sp[i - 1] == q[i - 1]);
            } else {
                assert(sp[i - 1] == q.last());
            }
        }
        assert forall|i: int| 1 <= i < sp.len() implies at(costs, (#[trigger] sp[i]).0, sp[i].1)
            >= 0 by {
            if i < q.len() {
                assert(sp[i] == q[i]);
            } else {
                assert(at(costs, x, 0int) == 1);
            }
        }
        assert(path_cost(costs, sp) == path_cost(costs, q) + at(costs, x, 0int));
    } else {
        assert(sp == seq![(0int, 0int)]);
        assert(sp.last() == (0int, 0int));
        assert(in_bounds(w, h, 0, 0));
    }
}

proof fn lemma_unit_walk_cost(costs: Seq<Seq<i32>>, w: int, h: int, p: Seq<(int, int)>)
    requires
        grid_all(costs, w, h, 1),
        is_path(costs, w, h, p),
    ensures
        path_cost(costs, p) + p[0].0 + p[0].1 >= p.last().0 + p.last().1,
    decreases p.len(),
{
    if p.len() >= 2 {
        lemma_path_prefix(costs, w, h, p);
        lemma_unit_walk_cost(costs, w, h, p.drop_last());
        let u = p.drop_last().last();
        let v = p.last();
        assert(u == p[p.len() - 2] && v == p[p.len() - 1]);
        assert(crate::field::adj(u.0, u.1, (#[trigger] p[p.len() - 1]).0, p[p.len() - 1].1));
        assert(in_bounds(w, h, v.0, v.1));
        assert(at(costs, v.0, v.1) == 1);
        assert(p.drop_last()[0] == p[0]);
    }
}

/// Over a grid of uniform cost 1 flooded from the single frontier tile
/// (0, 0), every tile's distance is exactly its Manhattan distance from the
/// origin.
pub proof fn lemma_single_source_manhattan(
    f: Seq<Seq<i32>>,
    costs: Seq<Seq<i32>>,
    w: int,
    h: int,
    fr: Seq<(usize, usize)>,
)
    requires
        is_dist_field(f, costs, w, h, fr),
        grid_all(costs, w, h, 1),
        fr.len() == 1,
        fr[0] == (0usize, 0usize),
        w >= 1,
        h >= 1,
    ensures
        forall|x: int, y: int|
            in_bounds(w, h, x, y) ==> #[trigger] at(f, x, y) as int == x + y,
{
    reveal(reaches);
    assert forall|x: int, y: int|
        in_bounds(w, h, x, y) implies #[trigger] at(f, x, y) as int == x + y by {
        lemma_staircase(costs, w, h, x, y);
        let sp = staircase(x, y);
        assert(frontier_has(fr, 0, 0)) by {
            assert((#[trigger] fr[0]).0 == 0usize);
        }
        assert(connects(costs, w, h, fr, sp, x, y, x + y));
        assert(reaches(costs, w, h, fr, x, y, x + y));
        if at(f, x, y) == INFINITY {
            assert(false);
        }
        assert(at(f, x, y) <= x + y);
        assert(reaches(costs, w, h, fr, x, y, at(f, x, y) as int));
        let p = choose|p: Seq<(int, int)>| connects(costs, w, h, fr, p, x, y, at(f, x, y) as int);
        let j = choose|j: int|
            0 <= j < fr.len() && (#[trigger] fr[j]).0 == p[0].0 && fr[j].1 == p[0].1;
        assert(p[0] == (0int, 0int));
        lemma_unit_walk_cost(costs, w, h, p);
        assert(at(f, x, y) as int >= x + y);
    }
}

} // verus!
