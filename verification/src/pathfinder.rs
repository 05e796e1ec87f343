//! The flood-fill pathfinder: a cost grid is flooded from a set of frontier
//! tiles, producing a distance field that greedy step selection reads.
use vstd::prelude::*;

use crate::cancel::poll_cancelled;
use crate::field::{
    INFINITY, adj, apply_edits, at, connects, costs_ok, d4, d8, frontier_has, fin_weight, grid_all, grid_fin, grid_max, is_step_choice, step_eligible, step_target, step_val,
    grid_sum, grid_wf, gview, in_bounds, is_dist_field, stay_val, lemma_adj_is_d4, lemma_frontier_has_concat,
    lemma_frontier_has_push, lemma_frontier_has_skip, lemma_grid_max_ge, lemma_grid_max_nonneg,
    lemma_grid_sum_bounds, lemma_grid_sum_lower_at, lemma_grid_sum_nonneg, lemma_grid_sum_update,
    lemma_reaches_seed, lemma_reaches_step, lemma_relaxed_complete, lemma_row_sum_update,
    reaches, relaxed_except,
};

verus! {

/// Read the cell of g at column x of row y.
fn get_cell(g: &Vec<Vec<i32>>, x: usize, y: usize) -> (v: i32)
    requires
        y < g@.len(),
        x < g@[y as int]@.len(),
    ensures
        v == at(gview(*g), x as int, y as int),
{
    g[y][x]
}

/// Overwrite the cell of g at column x of row y.
fn set_cell(g: &mut Vec<Vec<i32>>, x: usize, y: usize, v: i32)
    requires
        y < old(g)@.len(),
        x < old(g)@[y as int]@.len(),
    ensures
        gview(*final(g)) == gview(*old(g)).update(
            y as int,
            gview(*old(g))[y as int].update(x as int, v),
        ),
{
    let row: &mut Vec<i32> = &mut g[y];
    row[x] = v;
    proof {
        assert(gview(*g) =~~= gview(*old(g)).update(
            y as int,
            gview(*old(g))[y as int].update(x as int, v),
        ));
    }
}

/// Build an h-row, w-column grid with every cell set to v.
fn filled_grid(w: usize, h: usize, v: i32) -> (g: Vec<Vec<i32>>)
    ensures
        grid_all(gview(g), w as int, h as int, v),
{
    let mut g: Vec<Vec<i32>> = Vec::new();
    let mut y: usize = 0;
    while y < h
        invariant
            y <= h,
            g@.len() == y,
            forall|yy: int| 0 <= yy < y ==> (#[trigger] g@[yy])@.len() == w,
            forall|yy: int, xx: int|
                0 <= yy < y && 0 <= xx < w ==> #[trigger] g@[yy]@[xx] == v,
        decreases h - y,
    {
        let mut row: Vec<i32> = Vec::new();
        let mut x: usize = 0;
        while x < w
            invariant
                x <= w,
                row@.len() == x,
                forall|xx: int| 0 <= xx < x ==> #[trigger] row@[xx] == v,
            decreases w - x,
        {
            row.push(v);
            x = x + 1;
        }
        g.push(row);
        y = y + 1;
    }
    g
}

/// Copy a grid cell for cell.
fn clone_grid(src: &Vec<Vec<i32>>) -> (g: Vec<Vec<i32>>)
    ensures
        gview(g) == gview(*src),
{
    let mut g: Vec<Vec<i32>> = Vec::new();
    let mut y: usize = 0;
    while y < src.len()
        invariant
            y <= src@.len(),
            g@.len() == y,
            forall|yy: int| 0 <= yy < y ==> (#[trigger] g@[yy])@ == src@[yy]@,
        decreases src@.len() - y,
    {
        let srow: &Vec<i32> = &src[y];
        let mut row: Vec<i32> = Vec::new();
        let mut x: usize = 0;
        while x < srow.len()
            invariant
                x <= srow@.len(),
                row@.len() == x,
                forall|xx: int| 0 <= xx < x ==> #[trigger] row@[xx] == srow@[xx],
            decreases srow@.len() - x,
        {
            row.push(srow[x]);
            x = x + 1;
        }
        proof {
            assert(row@ =~= srow@);
        }
        g.push(row);
        y = y + 1;
    }
    proof {
        assert(gview(g) =~~= gview(*src));
    }
    g
}

/// The four directions as executable offsets, matching `d4`.
fn dir4(d: usize) -> (r: (i32, i32))
    requires
        d < 4,
    ensures
        r.0 as int == d4(d as int).0,
        r.1 as int == d4(d as int).1,
{
    if d == 0 {
        (0, 1)
    } else if d == 1 {
        (1, 0)
    } else if d == 2 {
        (-1, 0)
    } else {
        (0, -1)
    }
}

/// Every tile of q is in bounds and carries a distance.
spec fn queue_ok(ws: Seq<Seq<i32>>, w: int, h: int, q: Seq<(usize, usize)>) -> bool {
    forall|j: int|
        0 <= j < q.len() ==> in_bounds(w, h, (#[trigger] q[j]).0 as int, q[j].1 as int) && at(
            ws,
            q[j].0 as int,
            q[j].1 as int,
        ) != INFINITY
}

/// Every tile of q is in bounds.
spec fn in_bounds_all(w: int, h: int, q: Seq<(usize, usize)>) -> bool {
    forall|j: int| 0 <= j < q.len() ==> in_bounds(w, h, (#[trigger] q[j]).0 as int, q[j].1 as int)
}

/// Every tile with a distance is reached by a walk of exactly that cost.
spec fn sound(ws: Seq<Seq<i32>>, costs: Seq<Seq<i32>>, w: int, h: int, fr: Seq<(usize, usize)>) -> bool {
    forall|x: int, y: int|
        in_bounds(w, h, x, y) && #[trigger] at(ws, x, y) != INFINITY ==> reaches(
            costs,
            w,
            h,
            fr,
            x,
            y,
            at(ws, x, y) as int,
        )
}

/// Frontier tiles keep distance 0.
spec fn seeds_zero(ws: Seq<Seq<i32>>, fr: Seq<(usize, usize)>) -> bool {
    forall|j: int|
        0 <= j < fr.len() ==> at(ws, (#[trigger] fr[j]).0 as int, fr[j].1 as int) == 0
}

/// Every distance is non-negative and at most (assigned tiles - 1) times the
/// largest cost; this keeps every relaxation sum within i32.
spec fn bounded(ws: Seq<Seq<i32>>, w: int, h: int, m: int) -> bool {
    forall|x: int, y: int|
        in_bounds(w, h, x, y) && #[trigger] at(ws, x, y) != INFINITY ==> 0 <= at(ws, x, y) as int
            <= (grid_fin(ws) - 1) * m
}

/// Weight of a cell in the termination measure: an unassigned cell weighs k,
/// an assigned one its (smaller) distance.
spec fn pot_weight(k: int) -> spec_fn(i32) -> int {
    |v: i32| if v == INFINITY { k } else { v as int }
}

/// Termination measure of a pass: every improvement lowers it.
spec fn potential(ws: Seq<Seq<i32>>, k: int) -> int {
    grid_sum(ws, pot_weight(k))
}

/// The edge from cur along direction dd needs no further relaxation.
spec fn edge_done(
    ws: Seq<Seq<i32>>,
    costs: Seq<Seq<i32>>,
    w: int,
    h: int,
    cur: (usize, usize),
    dd: int,
) -> bool {
    let vx = cur.0 as int + d4(dd).0;
    let vy = cur.1 as int + d4(dd).1;
    (in_bounds(w, h, vx, vy) && at(costs, vx, vy) >= 0) ==> (at(ws, vx, vy) != INFINITY && at(
        ws,
        vx,
        vy,
    ) <= at(ws, cur.0 as int, cur.1 as int) + at(costs, vx, vy))
}

/// Pointwise effect of one store on the workspace and on the two grid sums.
proof fn lemma_store_pointwise(
    ws: Seq<Seq<i32>>,
    ws2: Seq<Seq<i32>>,
    w: int,
    h: int,
    k: int,
    vx: int,
    vy: int,
    supposed: i32,
)
    requires
        grid_wf(ws, w, h),
        in_bounds(w, h, vx, vy),
        ws2 == ws.update(vy, ws[vy].update(vx, supposed)),
    ensures
        grid_wf(ws2, w, h),
        at(ws2, vx, vy) == supposed,
        forall|xx: int, yy: int|
            in_bounds(w, h, xx, yy) && !(xx == vx && yy == vy) ==> #[trigger] at(ws2, xx, yy)
                == at(ws, xx, yy),
        grid_fin(ws2) == grid_fin(ws) - fin_weight()(at(ws, vx, vy)) + fin_weight()(supposed),
        potential(ws2, k) == potential(ws, k) - pot_weight(k)(at(ws, vx, vy)) + pot_weight(k)(
            supposed,
        ),
{
    lemma_grid_sum_update(ws, fin_weight(), vy, ws[vy].update(vx, supposed));
    lemma_row_sum_update(ws[vy], fin_weight(), vx, supposed);
    lemma_grid_sum_update(ws, pot_weight(k), vy, ws[vy].update(vx, supposed));
    lemma_row_sum_update(ws[vy], pot_weight(k), vx, supposed);
}

/// A store keeps soundness: the new value is itself an exact walk cost.
proof fn lemma_store_sound(
    ws: Seq<Seq<i32>>,
    ws2: Seq<Seq<i32>>,
    costs: Seq<Seq<i32>>,
    w: int,
    h: int,
    fr0: Seq<(usize, usize)>,
    cur: (usize, usize),
    ccost: i32,
    vx: int,
    vy: int,
    supposed: i32,
)
    requires
        in_bounds(w, h, cur.0 as int, cur.1 as int),
        in_bounds(w, h, vx, vy),
        adj(cur.0 as int, cur.1 as int, vx, vy),
        at(ws, cur.0 as int, cur.1 as int) == ccost,
        ccost != INFINITY,
        at(costs, vx, vy) >= 0,
        supposed as int == ccost as int + at(costs, vx, vy) as int,
        at(ws2, vx, vy) == supposed,
        forall|xx: int, yy: int|
            in_bounds(w, h, xx, yy) && !(xx == vx && yy == vy) ==> #[trigger] at(ws2, xx, yy)
                == at(ws, xx, yy),
        sound(ws, costs, w, h, fr0),
    ensures
        sound(ws2, costs, w, h, fr0),
{
    assert(reaches(costs, w, h, fr0, cur.0 as int, cur.1 as int, ccost as int));
    lemma_reaches_step(costs, w, h, fr0, cur.0 as int, cur.1 as int, ccost as int, vx, vy);
    assert forall|x: int, y: int|
        in_bounds(w, h, x, y) && #[trigger] at(ws2, x, y) != INFINITY implies reaches(
        costs,
        w,
        h,
        fr0,
        x,
        y,
        at(ws2, x, y) as int,
    ) by {
        if !(x == vx && y == vy) {
            assert(at(ws2, x, y) == at(ws, x, y));
        }
    }
}

/// A store keeps seed tiles at 0: a seed carries 0, which no candidate beats.
proof fn lemma_store_seeds(
    ws: Seq<Seq<i32>>,
    ws2: Seq<Seq<i32>>,
    w: int,
    h: int,
    fr0: Seq<(usize, usize)>,
    vx: int,
    vy: int,
    supposed: i32,
    previous: i32,
)
    requires
        seeds_zero(ws, fr0),
        previous == at(ws, vx, vy),
        previous == INFINITY || previous > supposed,
        supposed >= 0,
        at(ws2, vx, vy) == supposed,
        forall|xx: int, yy: int|
            in_bounds(w, h, xx, yy) && !(xx == vx && yy == vy) ==> #[trigger] at(ws2, xx, yy)
                == at(ws, xx, yy),
        in_bounds_all(w, h, fr0),
    ensures
        seeds_zero(ws2, fr0),
{
    assert forall|j: int| 0 <= j < fr0.len() implies at(
        ws2,
        (#[trigger] fr0[j]).0 as int,
        fr0[j].1 as int,
    ) == 0 by {
        if fr0[j].0 as int == vx && fr0[j].1 as int == vy {
            assert(at(ws, vx, vy) == 0);
            assert(false);
        } else {
            assert(at(ws2, fr0[j].0 as int, fr0[j].1 as int) == at(
                ws,
                fr0[j].0 as int,
                fr0[j].1 as int,
            ));
        }
    }
}

/// A store keeps every distance within the count-scaled bound.
proof fn lemma_store_bounded(
    ws: Seq<Seq<i32>>,
    ws2: Seq<Seq<i32>>,
    w: int,
    h: int,
    m: int,
    vx: int,
    vy: int,
    supposed: i32,
    previous: i32,
)
    requires
        bounded(ws, w, h, m),
        m >= 0,
        in_bounds(w, h, vx, vy),
        previous == at(ws, vx, vy),
        previous == INFINITY || previous > supposed,
        supposed >= 0,
        supposed as int <= grid_fin(ws) * m,
        at(ws2, vx, vy) == supposed,
        forall|xx: int, yy: int|
            in_bounds(w, h, xx, yy) && !(xx == vx && yy == vy) ==> #[trigger] at(ws2, xx, yy)
                == at(ws, xx, yy),
        grid_fin(ws2) == grid_fin(ws) + if previous == INFINITY {
            1int
        } else {
            0int
        },
    ensures
        bounded(ws2, w, h, m),
{
    let fin = grid_fin(ws);
    let fin2 = grid_fin(ws2);
    assert((fin - 1) * m <= (fin2 - 1) * m) by (nonlinear_arith)
        requires
            fin <= fin2,
            m >= 0;
    assert(supposed as int <= (fin2 - 1) * m) by {
        if previous == INFINITY {
            assert(fin2 - 1 == fin);
        } else {
            assert(previous as int <= (fin - 1) * m);
        }
    }
    assert forall|x: int, y: int|
        in_bounds(w, h, x, y) && #[trigger] at(ws2, x, y) != INFINITY implies 0 <= at(
        ws2,
        x,
        y,
    ) as int <= (fin2 - 1) * m by {
        if !(x == vx && y == vy) {
            assert(at(ws2, x, y) == at(ws, x, y));
        }
    }
}

/// A store keeps the relaxation ledger: only the lowered tile's own edges
/// may now be out of date, and that tile is pending.
proof fn lemma_store_relaxed(
    ws: Seq<Seq<i32>>,
    ws2: Seq<Seq<i32>>,
    costs: Seq<Seq<i32>>,
    w: int,
    h: int,
    pending: Seq<(usize, usize)>,
    pending2: Seq<(usize, usize)>,
    vx: int,
    vy: int,
    supposed: i32,
    previous: i32,
)
    requires
        relaxed_except(ws, costs, w, h, pending),
        previous == at(ws, vx, vy),
        previous == INFINITY || previous > supposed,
        supposed != INFINITY,
        at(ws2, vx, vy) == supposed,
        forall|xx: int, yy: int|
            in_bounds(w, h, xx, yy) && !(xx == vx && yy == vy) ==> #[trigger] at(ws2, xx, yy)
                == at(ws, xx, yy),
        forall|x: int, y: int|
            frontier_has(pending, x, y) ==> #[trigger] frontier_has(pending2, x, y),
        frontier_has(pending2, vx, vy),
    ensures
        relaxed_except(ws2, costs, w, h, pending2),
{
    assert forall|ux: int, uy: int, wx: int, wy: int|
        in_bounds(w, h, ux, uy) && in_bounds(w, h, wx, wy) && #[trigger] adj(ux, uy, wx, wy) && at(
        ws2,
        ux,
        uy,
    ) != INFINITY && at(costs, wx, wy) >= 0 implies ((at(ws2, wx, wy) != INFINITY && at(
        ws2,
        wx,
        wy,
    ) <= at(ws2, ux, uy) + at(costs, wx, wy)) || frontier_has(pending2, ux, uy)) by {
        if ux == vx && uy == vy {
            assert(frontier_has(pending2, ux, uy));
        } else {
            assert(at(ws2, ux, uy) == at(ws, ux, uy));
            if at(ws, wx, wy) != INFINITY && at(ws, wx, wy) <= at(ws, ux, uy) + at(
                costs,
                wx,
                wy,
            ) {
                if wx == vx && wy == vy {
                    assert(at(ws2, wx, wy) == supposed);
                    assert(supposed < previous);
                } else {
                    assert(at(ws2, wx, wy) == at(ws, wx, wy));
                }
            } else {
                assert(frontier_has(pending, ux, uy));
            }
        }
    }
}

/// One accepted relaxation: writing `supposed` into (vx, vy) preserves every
/// invariant of the pass and strictly lowers the termination measure.
proof fn lemma_store(
    ws: Seq<Seq<i32>>,
    ws2: Seq<Seq<i32>>,
    costs: Seq<Seq<i32>>,
    w: int,
    h: int,
    m: int,
    k: int,
    fr0: Seq<(usize, usize)>,
    pending: Seq<(usize, usize)>,
    pending2: Seq<(usize, usize)>,
    cur: (usize, usize),
    ccost: i32,
    vx: int,
    vy: int,
    supposed: i32,
    previous: i32,
)
    requires
        grid_wf(ws, w, h),
        grid_wf(costs, w, h),
        in_bounds(w, h, cur.0 as int, cur.1 as int),
        in_bounds(w, h, vx, vy),
        adj(cur.0 as int, cur.1 as int, vx, vy),
        at(ws, cur.0 as int, cur.1 as int) == ccost,
        ccost != INFINITY,
        at(costs, vx, vy) >= 0,
        at(costs, vx, vy) <= m,
        supposed as int == ccost as int + at(costs, vx, vy) as int,
        previous == at(ws, vx, vy),
        previous == INFINITY || previous > supposed,
        ws2 == ws.update(vy, ws[vy].update(vx, supposed)),
        m == grid_max(costs),
        k == w * h * m + 1,
        in_bounds_all(w, h, fr0),
        sound(ws, costs, w, h, fr0),
        seeds_zero(ws, fr0),
        bounded(ws, w, h, m),
        relaxed_except(ws, costs, w, h, pending),
        forall|x: int, y: int|
            frontier_has(pending, x, y) ==> #[trigger] frontier_has(pending2, x, y),
        frontier_has(pending2, vx, vy),
    ensures
        grid_wf(ws2, w, h),
        at(ws2, vx, vy) == supposed,
        supposed >= 0,
        forall|xx: int, yy: int|
            in_bounds(w, h, xx, yy) && !(xx == vx && yy == vy) ==> #[trigger] at(ws2, xx, yy)
                == at(ws, xx, yy),
        sound(ws2, costs, w, h, fr0),
        seeds_zero(ws2, fr0),
        bounded(ws2, w, h, m),
        relaxed_except(ws2, costs, w, h, pending2),
        potential(ws2, k) < potential(ws, k),
{
    let fw = fin_weight();
    let pw = pot_weight(k);
    let fin = grid_fin(ws);
    assert(supposed >= 0) by {
        assert(0 <= ccost as int);
    }
    lemma_store_pointwise(ws, ws2, w, h, k, vx, vy, supposed);
    assert(grid_fin(ws2) == fin + if previous == INFINITY {
        1int
    } else {
        0int
    });

    // numeric bounds on the stored value
    assert(forall|v: i32| 0 <= #[trigger] fw(v) <= 1);
    lemma_grid_sum_bounds(ws, fw, w, h, 0, 1);
    assert(fin <= 1 * (w * h));
    assert(ccost as int <= (fin - 1) * m);
    assert(supposed as int <= fin * m) by (nonlinear_arith)
        requires
            ccost as int <= (fin - 1) * m,
            at(costs, vx, vy) <= m,
            supposed as int == ccost as int + at(costs, vx, vy) as int;
    assert(fin * m <= w * h * m) by (nonlinear_arith)
        requires
            fin <= 1 * (w * h),
            m >= 0;

    lemma_store_sound(ws, ws2, costs, w, h, fr0, cur, ccost, vx, vy, supposed);
    lemma_store_seeds(ws, ws2, w, h, fr0, vx, vy, supposed, previous);
    lemma_store_bounded(ws, ws2, w, h, m, vx, vy, supposed, previous);
    lemma_store_relaxed(ws, ws2, costs, w, h, pending, pending2, vx, vy, supposed, previous);

    // the measure strictly drops
    assert(potential(ws2, k) == potential(ws, k) - pw(previous) + pw(supposed));
    if previous == INFINITY {
        assert(pw(previous) == k);
        assert(pw(supposed) == supposed as int);
        assert((supposed as int) < k);
    } else {
        assert(pw(previous) == previous as int);
        assert(pw(supposed) == supposed as int);
    }
}

/// Everything one accepted relaxation re-establishes for the wave loop:
/// invariants, queue health, the finished-edge ledger, and the strict drop
/// of the termination measure.
#[verifier::rlimit(100)]
proof fn lemma_store_site(
    wsb: Seq<Seq<i32>>,
    ws2: Seq<Seq<i32>>,
    costs: Seq<Seq<i32>>,
    w: int,
    h: int,
    m: int,
    k: int,
    fr0: Seq<(usize, usize)>,
    wave: Seq<(usize, usize)>,
    i: int,
    collb: Seq<(usize, usize)>,
    coll2: Seq<(usize, usize)>,
    current: (usize, usize),
    current_cost: i32,
    d: int,
    cx: usize,
    cy: usize,
    supposed: i32,
    previous: i32,
)
    requires
        grid_wf(wsb, w, h),
        grid_wf(costs, w, h),
        0 <= i < wave.len(),
        current == wave[i],
        in_bounds(w, h, current.0 as int, current.1 as int),
        at(wsb, current.0 as int, current.1 as int) == current_cost,
        current_cost != INFINITY,
        0 <= d < 4,
        cx as int == current.0 as int + d4(d).0,
        cy as int == current.1 as int + d4(d).1,
        in_bounds(w, h, cx as int, cy as int),
        at(costs, cx as int, cy as int) >= 0,
        at(costs, cx as int, cy as int) <= m,
        supposed as int == current_cost as int + at(costs, cx as int, cy as int) as int,
        previous == at(wsb, cx as int, cy as int),
        previous == INFINITY || previous > supposed,
        ws2 == wsb.update(cy as int, wsb[cy as int].update(cx as int, supposed)),
        coll2 == collb.push((cx, cy)),
        m == grid_max(costs),
        k == w * h * m + 1,
        in_bounds_all(w, h, fr0),
        queue_ok(wsb, w, h, wave),
        queue_ok(wsb, w, h, collb),
        seeds_zero(wsb, fr0),
        sound(wsb, costs, w, h, fr0),
        bounded(wsb, w, h, m),
        relaxed_except(wsb, costs, w, h, wave.skip(i) + collb),
        forall|dd: int| 0 <= dd < d ==> edge_done(wsb, costs, w, h, current, dd),
    ensures
        grid_wf(ws2, w, h),
        queue_ok(ws2, w, h, wave),
        queue_ok(ws2, w, h, coll2),
        seeds_zero(ws2, fr0),
        sound(ws2, costs, w, h, fr0),
        bounded(ws2, w, h, m),
        relaxed_except(ws2, costs, w, h, wave.skip(i) + coll2),
        at(ws2, current.0 as int, current.1 as int) == current_cost,
        forall|dd: int| 0 <= dd < d + 1 ==> edge_done(ws2, costs, w, h, current, dd),
        potential(ws2, k) < potential(wsb, k),
{
    let pending = wave.skip(i) + collb;
    let pending2 = wave.skip(i) + coll2;
    assert forall|xq: int, yq: int|
        frontier_has(pending, xq, yq) implies #[trigger] frontier_has(pending2, xq, yq) by {
        lemma_frontier_has_concat(wave.skip(i), collb, xq, yq);
        lemma_frontier_has_push(collb, (cx, cy), xq, yq);
        lemma_frontier_has_concat(wave.skip(i), coll2, xq, yq);
    }
    assert(frontier_has(pending2, cx as int, cy as int)) by {
        lemma_frontier_has_push(collb, (cx, cy), cx as int, cy as int);
        lemma_frontier_has_concat(wave.skip(i), coll2, cx as int, cy as int);
    }
    assert(adj(current.0 as int, current.1 as int, cx as int, cy as int));
    lemma_store(
        wsb,
        ws2,
        costs,
        w,
        h,
        m,
        k,
        fr0,
        pending,
        pending2,
        current,
        current_cost,
        cx as int,
        cy as int,
        supposed,
        previous,
    );
    assert(!(current.0 as int == cx as int && current.1 as int == cy as int));
    assert(at(ws2, current.0 as int, current.1 as int) == current_cost);
    assert(queue_ok(ws2, w, h, wave)) by {
        assert forall|j: int| 0 <= j < wave.len() implies in_bounds(
            w,
            h,
            (#[trigger] wave[j]).0 as int,
            wave[j].1 as int,
        ) && at(ws2, wave[j].0 as int, wave[j].1 as int) != INFINITY by {
            if wave[j].0 as int == cx as int && wave[j].1 as int == cy as int {
                assert(at(ws2, cx as int, cy as int) == supposed);
            } else {
                assert(at(ws2, wave[j].0 as int, wave[j].1 as int) == at(
                    wsb,
                    wave[j].0 as int,
                    wave[j].1 as int,
                ));
            }
        }
    }
    assert(queue_ok(ws2, w, h, coll2)) by {
        assert forall|j: int| 0 <= j < coll2.len() implies in_bounds(
            w,
            h,
            (#[trigger] coll2[j]).0 as int,
            coll2[j].1 as int,
        ) && at(ws2, coll2[j].0 as int, coll2[j].1 as int) != INFINITY by {
            if j < collb.len() {
                assert(coll2[j] == collb[j]);
                if collb[j].0 as int == cx as int && collb[j].1 as int == cy as int {
                    assert(at(ws2, cx as int, cy as int) == supposed);
                } else {
                    assert(at(ws2, collb[j].0 as int, collb[j].1 as int) == at(
                        wsb,
                        collb[j].0 as int,
                        collb[j].1 as int,
                    ));
                }
            } else {
                assert(coll2[j] == (cx, cy));
                assert(at(ws2, cx as int, cy as int) == supposed);
            }
        }
    }
    assert forall|dd: int| 0 <= dd < d + 1 implies edge_done(ws2, costs, w, h, current, dd) by {
        let ox = current.0 as int + d4(dd).0;
        let oy = current.1 as int + d4(dd).1;
        if dd == d {
            assert(ox == cx as int && oy == cy as int);
            assert(at(ws2, ox, oy) == supposed);
        } else {
            assert(!(ox == cx as int && oy == cy as int));
            if in_bounds(w, h, ox, oy) {
                assert(at(ws2, ox, oy) == at(wsb, ox, oy));
            }
            assert(edge_done(wsb, costs, w, h, current, dd));
        }
    }
}

/// Owns one computation pass: the private workspace the pass writes, the
/// wave queue, the collector of the next wave, and a snapshot of the costs.
pub struct Processor {
    pub terminator: std::sync::mpsc::Receiver<()>,
    pub workspace: Vec<Vec<i32>>,
    pub frontier: Vec<(usize, usize)>,
    pub collector: Vec<(usize, usize)>,
    pub costs: Vec<Vec<i32>>,
}

impl Processor {
    /// Between passes: both grids are w-by-h, every queued tile is in
    /// bounds, and the collector is empty.
    pub open spec fn wf(self, w: int, h: int) -> bool {
        &&& 0 <= w <= i32::MAX as int
        &&& 0 <= h <= i32::MAX as int
        &&& grid_wf(gview(self.costs), w, h)
        &&& costs_ok(gview(self.costs), w, h)
        &&& grid_wf(gview(self.workspace), w, h)
        &&& (forall|j: int|
            0 <= j < self.frontier@.len() ==> in_bounds(
                w,
                h,
                (#[trigger] self.frontier@[j]).0 as int,
                self.frontier@[j].1 as int,
            ))
        &&& self.collector@.len() == 0
    }

    /// Visit one neighbor of the tile being expanded: skip it when out of
    /// bounds or impassable, otherwise relax its distance if the route
    /// through the current tile improves it.
    #[verifier::rlimit(100)]
    fn relax_neighbor(
        &mut self,
        w: i32,
        h: i32,
        current: (usize, usize),
        current_cost: i32,
        d: usize,
        Ghost(fr0): Ghost<Seq<(usize, usize)>>,
        Ghost(wave): Ghost<Seq<(usize, usize)>>,
        Ghost(i): Ghost<int>,
        Ghost(m): Ghost<int>,
        Ghost(k): Ghost<int>,
        Ghost(pot_start): Ghost<int>,
    )
        requires
            0 <= w as int <= i32::MAX as int,
            0 <= h as int <= i32::MAX as int,
            grid_wf(gview(old(self).costs), w as int, h as int),
            costs_ok(gview(old(self).costs), w as int, h as int),
            in_bounds_all(w as int, h as int, fr0),
            m == grid_max(gview(old(self).costs)),
            m >= 0,
            k == (w as int) * (h as int) * m + 1,
            (w as int) * (h as int) * m <= i32::MAX as int,
            old(self).frontier@ == wave,
            0 <= i < wave.len(),
            current == wave[i],
            in_bounds(w as int, h as int, current.0 as int, current.1 as int),
            d < 4,
            grid_wf(gview(old(self).workspace), w as int, h as int),
            at(gview(old(self).workspace), current.0 as int, current.1 as int) == current_cost,
            current_cost != INFINITY,
            queue_ok(gview(old(self).workspace), w as int, h as int, wave),
            queue_ok(gview(old(self).workspace), w as int, h as int, old(self).collector@),
            seeds_zero(gview(old(self).workspace), fr0),
            sound(gview(old(self).workspace), gview(old(self).costs), w as int, h as int, fr0),
            bounded(gview(old(self).workspace), w as int, h as int, m),
            relaxed_except(
                gview(old(self).workspace),
                gview(old(self).costs),
                w as int,
                h as int,
                wave.skip(i) + old(self).collector@,
            ),
            potential(gview(old(self).workspace), k) <= pot_start,
            old(self).collector@.len() > 0 ==> potential(gview(old(self).workspace), k)
                < pot_start,
            forall|dd: int|
                0 <= dd < d ==> edge_done(
                    gview(old(self).workspace),
                    gview(old(self).costs),
                    w as int,
                    h as int,
                    current,
                    dd,
                ),
        ensures
            final(self).costs == old(self).costs,
            final(self).frontier == old(self).frontier,
            grid_wf(gview(final(self).workspace), w as int, h as int),
            at(gview(final(self).workspace), current.0 as int, current.1 as int) == current_cost,
            queue_ok(gview(final(self).workspace), w as int, h as int, wave),
            queue_ok(gview(final(self).workspace), w as int, h as int, final(self).collector@),
            seeds_zero(gview(final(self).workspace), fr0),
            sound(
                gview(final(self).workspace),
                gview(old(self).costs),
                w as int,
                h as int,
                fr0,
            ),
            bounded(gview(final(self).workspace), w as int, h as int, m),
            relaxed_except(
                gview(final(self).workspace),
                gview(old(self).costs),
                w as int,
                h as int,
                wave.skip(i) + final(self).collector@,
            ),
            potential(gview(final(self).workspace), k) <= pot_start,
            final(self).collector@.len() > 0 ==> potential(gview(final(self).workspace), k)
                < pot_start,
            forall|dd: int|
                0 <= dd < d + 1 ==> edge_done(
                    gview(final(self).workspace),
                    gview(old(self).costs),
                    w as int,
                    h as int,
                    current,
                    dd,
                ),
    {
        let ghost wi = w as int;
        let ghost hi = h as int;
        let ghost costs0 = gview(self.costs);
        let (dx, dy) = dir4(d);
        let px = current.0 as i32 + dx;
        let py = current.1 as i32 + dy;
        let ghost tx = current.0 as int + d4(d as int).0;
        let ghost ty = current.1 as int + d4(d as int).1;
        proof {
            assert(px as int == tx && py as int == ty);
        }
        if px < 0 || py < 0 || px == w || py == h {
            proof {
                assert(!in_bounds(wi, hi, tx, ty));
            }
            return;
        }
        proof {
            assert(in_bounds(wi, hi, tx, ty));
        }
        let cx = px as usize;
        let cy = py as usize;
        proof {
            assert(gview(self.costs).len() == hi);
            assert(gview(self.costs)[ty].len() == wi);
            assert(gview(self.workspace)[ty].len() == wi);
        }
        let value = get_cell(&self.costs, cx, cy);
        if value == -1 {
            proof {
                assert(at(costs0, tx, ty) < 0);
            }
            return;
        }
        let previous = get_cell(&self.workspace, cx, cy);
        proof {
            lemma_grid_max_ge(costs0, cx as int, cy as int);
            let ws = gview(self.workspace);
            let fin = grid_fin(ws);
            assert(forall|v: i32| 0 <= #[trigger] fin_weight()(v) <= 1);
            lemma_grid_sum_bounds(ws, fin_weight(), wi, hi, 0, 1);
            assert(current_cost as int <= (fin - 1) * m);
            assert(current_cost as int + value as int <= i32::MAX as int) by (nonlinear_arith)
                requires
                    current_cost as int <= (fin - 1) * m,
                    value as int <= m,
                    fin <= 1 * (wi * hi),
                    m >= 0,
                    wi * hi * m <= i32::MAX as int;
            assert(current_cost >= 0);
        }
        let supposed = current_cost + value;
        if previous == -1 || previous > supposed {
            let ghost wsb = gview(self.workspace);
            let ghost collb = self.collector@;
            set_cell(&mut self.workspace, cx, cy, supposed);
            self.collector.push((cx, cy));
            proof {
                assert(self.collector@ == collb.push((cx, cy)));
                lemma_store_site(
                    wsb,
                    gview(self.workspace),
                    costs0,
                    wi,
                    hi,
                    m,
                    k,
                    fr0,
                    wave,
                    i,
                    collb,
                    self.collector@,
                    current,
                    current_cost,
                    d as int,
                    cx,
                    cy,
                    supposed,
                    previous,
                );
            }
            return ;
        }
        proof {
            assert(previous != INFINITY && previous <= supposed);
            assert(edge_done(gview(self.workspace), costs0, wi, hi, current, d as int));
        }
    }

    /// One computation pass: reset the workspace, seed every queued frontier
    /// tile at distance 0, then relax wave after wave until the queue
    /// empties or a cancellation token arrives. Returns whether the pass ran
    /// to completion; a completed workspace is exactly the distance field of
    /// the costs and frontier held at entry.
    #[verifier::rlimit(100)]
    pub fn compute(&mut self, w: i32, h: i32) -> (completed: bool)
        requires
            old(self).wf(w as int, h as int),
            (w as int) * (h as int) * grid_max(gview(old(self).costs)) <= i32::MAX as int,
        ensures
            final(self).wf(w as int, h as int),
            final(self).costs == old(self).costs,
            final(self).frontier@.len() == 0,
            completed ==> is_dist_field(
                gview(final(self).workspace),
                gview(old(self).costs),
                w as int,
                h as int,
                old(self).frontier@,
            ),
            old(self).frontier@.len() == 0 ==> completed,
    {
        let ghost wi = w as int;
        let ghost hi = h as int;
        let ghost costs_vec0 = self.costs;
        let ghost costs0 = gview(self.costs);
        let ghost fr0 = self.frontier@;
        let ghost m = grid_max(costs0);
        let ghost k = wi * hi * m + 1;
        proof {
            lemma_grid_max_nonneg(costs0);
            assert(wi * hi * m >= 0) by (nonlinear_arith)
                requires
                    wi >= 0,
                    hi >= 0,
                    m >= 0;
        }
        let wu = w as usize;
        let hu = h as usize;

        // reset the workspace to all-unreachable
        let mut y: usize = 0;
        while y < hu
            invariant
                wu == wi,
                hu == hi,
                self.costs == costs_vec0,
                self.frontier@ == fr0,
                self.collector@.len() == 0,
                y <= hu,
                grid_wf(gview(self.workspace), wi, hi),
                forall|yy: int, xx: int|
                    0 <= yy < y && 0 <= xx < wi ==> #[trigger] at(gview(self.workspace), xx, yy)
                        == INFINITY,
            decreases hi - y,
        {
            let mut x: usize = 0;
            while x < wu
                invariant
                    wu == wi,
                    hu == hi,
                    self.costs == costs_vec0,
                    self.frontier@ == fr0,
                    self.collector@.len() == 0,
                    y < hu,
                    x <= wu,
                    grid_wf(gview(self.workspace), wi, hi),
                    forall|yy: int, xx: int|
                        0 <= yy < y && 0 <= xx < wi ==> #[trigger] at(gview(self.workspace), xx, yy)
                            == INFINITY,
                    forall|xx: int|
                        0 <= xx < x ==> #[trigger] at(gview(self.workspace), xx, y as int)
                            == INFINITY,
                decreases wi - x,
            {
                let ghost wsb = gview(self.workspace);
                set_cell(&mut self.workspace, x, y, INFINITY);
                proof {
                    let ws2 = gview(self.workspace);
                    assert(grid_wf(ws2, wi, hi)) by {
                        assert(forall|yy: int|
                            0 <= yy < hi ==> (#[trigger] ws2[yy]).len() == wsb[yy].len());
                    }
                    assert forall|yy: int, xx: int|
                        0 <= yy < y && 0 <= xx < wi implies #[trigger] at(ws2, xx, yy)
                            == INFINITY by {
                        assert(at(ws2, xx, yy) == at(wsb, xx, yy));
                    }
                    assert forall|xx: int|
                        0 <= xx < x + 1 implies #[trigger] at(ws2, xx, y as int) == INFINITY by {
                        if xx != x {
                            assert(at(ws2, xx, y as int) == at(wsb, xx, y as int));
                        }
                    }
                }
                x = x + 1;
            }
            y = y + 1;
        }

        // seed every frontier tile at distance 0
        let mut i: usize = 0;
        while i < self.frontier.len()
            invariant
                wu == wi,
                hu == hi,
                0 <= wi <= i32::MAX as int,
                0 <= hi <= i32::MAX as int,
                self.costs == costs_vec0,
                self.frontier@ == fr0,
                self.collector@.len() == 0,
                in_bounds_all(wi, hi, fr0),
                i <= fr0.len(),
                grid_wf(gview(self.workspace), wi, hi),
                forall|j: int|
                    0 <= j < i ==> at(
                        gview(self.workspace),
                        (#[trigger] fr0[j]).0 as int,
                        fr0[j].1 as int,
                    ) == 0,
                forall|xx: int, yy: int|
                    in_bounds(wi, hi, xx, yy) && #[trigger] at(gview(self.workspace), xx, yy)
                        != INFINITY ==> at(gview(self.workspace), xx, yy) == 0 && frontier_has(
                        fr0,
                        xx,
                        yy,
                    ),
            decreases fr0.len() - i,
        {
            let t = self.frontier[i];
            let ghost wsb = gview(self.workspace);
            proof {
                assert(fr0[i as int] == t);
                assert(in_bounds(wi, hi, t.0 as int, t.1 as int));
                assert(gview(self.workspace)[t.1 as int].len() == wi);
            }
            set_cell(&mut self.workspace, t.0, t.1, 0);
            proof {
                let ws2 = gview(self.workspace);
                assert(grid_wf(ws2, wi, hi)) by {
                    assert(forall|yy: int|
                        0 <= yy < hi ==> (#[trigger] ws2[yy]).len() == wsb[yy].len());
                }
                assert forall|xx: int, yy: int|
                    in_bounds(wi, hi, xx, yy) && #[trigger] at(ws2, xx, yy)
                        != INFINITY implies at(ws2, xx, yy) == 0 && frontier_has(
                    fr0,
                    xx,
                    yy,
                ) by {
                    if xx == t.0 as int && yy == t.1 as int {
                        assert(at(ws2, xx, yy) == 0);
                        assert(frontier_has(fr0, xx, yy));
                    } else {
                        assert(at(ws2, xx, yy) == at(wsb, xx, yy));
                    }
                }
                assert forall|j: int| 0 <= j < i + 1 implies at(
                    ws2,
                    (#[trigger] fr0[j]).0 as int,
                    fr0[j].1 as int,
                ) == 0 by {
                    if fr0[j].0 as int == t.0 as int && fr0[j].1 as int == t.1 as int {
                        assert(at(ws2, t.0 as int, t.1 as int) == 0);
                    } else {
                        assert(at(ws2, fr0[j].0 as int, fr0[j].1 as int) == at(
                            wsb,
                            fr0[j].0 as int,
                            fr0[j].1 as int,
                        ));
                    }
                }
            }
            i = i + 1;
        }

        // the seeded workspace satisfies every invariant of the wave loop
        proof {
            let ws = gview(self.workspace);
            assert(sound(ws, costs0, wi, hi, fr0)) by {
                assert forall|x: int, yy: int|
                    in_bounds(wi, hi, x, yy) && #[trigger] at(ws, x, yy) != INFINITY implies reaches(
                    costs0,
                    wi,
                    hi,
                    fr0,
                    x,
                    yy,
                    at(ws, x, yy) as int,
                ) by {
                    lemma_reaches_seed(costs0, wi, hi, fr0, x, yy);
                }
            }
            assert(bounded(ws, wi, hi, m)) by {
                assert forall|x: int, yy: int|
                    in_bounds(wi, hi, x, yy) && #[trigger] at(ws, x, yy) != INFINITY implies 0 <= at(
                    ws,
                    x,
                    yy,
                ) as int <= (grid_fin(ws) - 1) * m by {
                    assert(forall|v: i32| 0 <= #[trigger] fin_weight()(v));
                    lemma_grid_sum_lower_at(ws, fin_weight(), x, yy);
                    assert(fin_weight()(at(ws, x, yy)) == 1);
                    assert((grid_fin(ws) - 1) * m >= 0) by (nonlinear_arith)
                        requires
                            grid_fin(ws) >= 1,
                            m >= 0;
                }
            }
            assert(relaxed_except(ws, costs0, wi, hi, self.frontier@));
            assert(queue_ok(ws, wi, hi, self.frontier@));
            assert(seeds_zero(ws, fr0));
            assert(potential(ws, k) >= 0) by {
                assert forall|yy2: int, xx2: int|
                    0 <= yy2 < ws.len() && 0 <= xx2 < ws[yy2].len()
                        implies #[trigger] pot_weight(k)(ws[yy2][xx2]) >= 0 by {
                    assert(ws[yy2][xx2] == at(ws, xx2, yy2));
                    assert(in_bounds(wi, hi, xx2, yy2));
                }
                lemma_grid_sum_nonneg(ws, pot_weight(k));
            }
        }

        // the wave loop
        while self.frontier.len() != 0
            invariant
                w as int == wi,
                h as int == hi,
                0 <= wi <= i32::MAX as int,
                0 <= hi <= i32::MAX as int,
                self.costs == old(self).costs,
                costs0 == gview(self.costs),
                grid_wf(costs0, wi, hi),
                costs_ok(costs0, wi, hi),
                in_bounds_all(wi, hi, fr0),
                m == grid_max(costs0),
                m >= 0,
                k == wi * hi * m + 1,
                wi * hi * m <= i32::MAX as int,
                self.collector@.len() == 0,
                grid_wf(gview(self.workspace), wi, hi),
                queue_ok(gview(self.workspace), wi, hi, self.frontier@),
                seeds_zero(gview(self.workspace), fr0),
                sound(gview(self.workspace), costs0, wi, hi, fr0),
                bounded(gview(self.workspace), wi, hi, m),
                relaxed_except(gview(self.workspace), costs0, wi, hi, self.frontier@),
                potential(gview(self.workspace), k) >= 0,
                fr0 == old(self).frontier@,
                fr0.len() == 0 ==> self.frontier@.len() == 0,
            decreases potential(gview(self.workspace), k), self.frontier@.len(),
        {
            if poll_cancelled(&self.terminator) {
                self.frontier.clear();
                return false;
            }
            let ghost wave = self.frontier@;
            let ghost pot_start = potential(gview(self.workspace), k);
            proof {
                assert(wave.skip(0) =~= wave);
                assert(wave.skip(0) + self.collector@ =~= wave);
            }

            let mut i: usize = 0;
            while i < self.frontier.len()
                invariant
                    w as int == wi,
                    h as int == hi,
                    0 <= wi <= i32::MAX as int,
                    0 <= hi <= i32::MAX as int,
                    self.costs == old(self).costs,
                    costs0 == gview(self.costs),
                    grid_wf(costs0, wi, hi),
                    costs_ok(costs0, wi, hi),
                    in_bounds_all(wi, hi, fr0),
                    m == grid_max(costs0),
                    m >= 0,
                    k == wi * hi * m + 1,
                    wi * hi * m <= i32::MAX as int,
                    self.frontier@ == wave,
                    i <= wave.len(),
                    grid_wf(gview(self.workspace), wi, hi),
                    queue_ok(gview(self.workspace), wi, hi, wave),
                    queue_ok(gview(self.workspace), wi, hi, self.collector@),
                    seeds_zero(gview(self.workspace), fr0),
                    sound(gview(self.workspace), costs0, wi, hi, fr0),
                    bounded(gview(self.workspace), wi, hi, m),
                    relaxed_except(
                        gview(self.workspace),
                        costs0,
                        wi,
                        hi,
                        wave.skip(i as int) + self.collector@,
                    ),
                    potential(gview(self.workspace), k) <= pot_start,
                    self.collector@.len() > 0 ==> potential(gview(self.workspace), k) < pot_start,
                decreases wave.len() - i,
            {
                let current = self.frontier[i];
                let current_cost = get_cell(&self.workspace, current.0, current.1);
                proof {
                    assert(wave[i as int] == current);
                    assert(current_cost != INFINITY);
                }
                let mut d: usize = 0;
                while d < 4
                    invariant
                        w as int == wi,
                        h as int == hi,
                        0 <= wi <= i32::MAX as int,
                        0 <= hi <= i32::MAX as int,
                        self.costs == old(self).costs,
                        costs0 == gview(self.costs),
                        grid_wf(costs0, wi, hi),
                        costs_ok(costs0, wi, hi),
                        in_bounds_all(wi, hi, fr0),
                        m == grid_max(costs0),
                        m >= 0,
                        k == wi * hi * m + 1,
                        wi * hi * m <= i32::MAX as int,
                        self.frontier@ == wave,
                        i < wave.len(),
                        current == wave[i as int],
                        in_bounds(wi, hi, current.0 as int, current.1 as int),
                        d <= 4,
                        grid_wf(gview(self.workspace), wi, hi),
                        at(gview(self.workspace), current.0 as int, current.1 as int)
                            == current_cost,
                        current_cost != INFINITY,
                        queue_ok(gview(self.workspace), wi, hi, wave),
                        queue_ok(gview(self.workspace), wi, hi, self.collector@),
                        seeds_zero(gview(self.workspace), fr0),
                        sound(gview(self.workspace), costs0, wi, hi, fr0),
                        bounded(gview(self.workspace), wi, hi, m),
                        relaxed_except(
                            gview(self.workspace),
                            costs0,
                            wi,
                            hi,
                            wave.skip(i as int) + self.collector@,
                        ),
                        potential(gview(self.workspace), k) <= pot_start,
                        self.collector@.len() > 0 ==> potential(gview(self.workspace), k)
                            < pot_start,
                        forall|dd: int|
                            0 <= dd < d ==> edge_done(
                                gview(self.workspace),
                                costs0,
                                wi,
                                hi,
                                current,
                                dd,
                            ),
                    decreases 4 - d,
                {
                    self.relax_neighbor(
                        w,
                        h,
                        current,
                        current_cost,
                        d,
                        Ghost(fr0),
                        Ghost(wave),
                        Ghost(i as int),
                        Ghost(m),
                        Ghost(k),
                        Ghost(pot_start),
                    );
                    d = d + 1;
                }
                proof {
                    let ws = gview(self.workspace);
                    let coll = self.collector@;
                    let pend_new = wave.skip(i as int + 1) + coll;
                    assert forall|ux: int, uy: int, vx: int, vy: int|
                        in_bounds(wi, hi, ux, uy) && in_bounds(wi, hi, vx, vy) && #[trigger] adj(
                        ux,
                        uy,
                        vx,
                        vy,
                    ) && at(ws, ux, uy) != INFINITY && at(costs0, vx, vy) >= 0 implies ((at(
                        ws,
                        vx,
                        vy,
                    ) != INFINITY && at(ws, vx, vy) <= at(ws, ux, uy) + at(costs0, vx, vy))
                        || frontier_has(pend_new, ux, uy)) by {
                        if !(at(ws, vx, vy) != INFINITY && at(ws, vx, vy) <= at(ws, ux, uy) + at(
                            costs0,
                            vx,
                            vy,
                        )) {
                            assert(frontier_has(wave.skip(i as int) + coll, ux, uy));
                            lemma_frontier_has_concat(wave.skip(i as int), coll, ux, uy);
                            if frontier_has(coll, ux, uy) {
                                lemma_frontier_has_concat(wave.skip(i as int + 1), coll, ux, uy);
                            } else {
                                assert(frontier_has(wave.skip(i as int), ux, uy));
                                lemma_frontier_has_skip(wave, i as int, ux, uy);
                                if frontier_has(wave.skip(i as int + 1), ux, uy) {
                                    lemma_frontier_has_concat(wave.skip(i as int + 1), coll, ux, uy);
                                } else {
                                    assert(ux == current.0 as int && uy == current.1 as int);
                                    lemma_adj_is_d4(ux, uy, vx, vy);
                                    let dd = choose|dd: int|
                                        0 <= dd < 4 && vx == ux + d4(dd).0 && vy == uy + d4(dd).1;
                                    assert(edge_done(ws, costs0, wi, hi, current, dd));
                                    assert(false);
                                }
                            }
                        }
                    }
                }
                i = i + 1;
            }
            let ghost collb = self.collector@;
            self.frontier.clear();
            self.frontier.append(&mut self.collector);
            proof {
                assert(self.frontier@ =~= collb);
                assert(wave.skip(wave.len() as int) =~= Seq::<(usize, usize)>::empty());
                assert(wave.skip(wave.len() as int) + collb =~= collb);
                let ws = gview(self.workspace);
                assert(relaxed_except(ws, costs0, wi, hi, self.frontier@));
                assert(potential(ws, k) >= 0) by {
                    assert forall|yy2: int, xx2: int|
                        0 <= yy2 < ws.len() && 0 <= xx2 < ws[yy2].len()
                            implies #[trigger] pot_weight(k)(ws[yy2][xx2]) >= 0 by {
                        assert(ws[yy2][xx2] == at(ws, xx2, yy2));
                        assert(in_bounds(wi, hi, xx2, yy2));
                    }
                    lemma_grid_sum_nonneg(ws, pot_weight(k));
                }
            }
        }

        // queue exhausted: the workspace is the exact distance field
        proof {
            reveal(reaches);
            let ws = gview(self.workspace);
            assert(self.frontier@ =~= Seq::<(usize, usize)>::empty());
            assert(relaxed_except(ws, costs0, wi, hi, Seq::<(usize, usize)>::empty()));
            assert forall|x: int, yy: int, c: int|
                in_bounds(wi, hi, x, yy) && at(ws, x, yy) != INFINITY && #[trigger] reaches(
                costs0,
                wi,
                hi,
                fr0,
                x,
                yy,
                c,
            ) implies at(ws, x, yy) <= c by {
                let p = choose|p: Seq<(int, int)>| connects(costs0, wi, hi, fr0, p, x, yy, c);
                lemma_relaxed_complete(ws, costs0, wi, hi, fr0, p);
            }
            assert forall|x: int, yy: int, c: int|
                in_bounds(wi, hi, x, yy) && at(ws, x, yy) == INFINITY implies !reaches(
                costs0,
                wi,
                hi,
                fr0,
                x,
                yy,
                c,
            ) by {
                if reaches(costs0, wi, hi, fr0, x, yy, c) {
                    let p = choose|p: Seq<(int, int)>|
                        connects(costs0, wi, hi, fr0, p, x, yy, c);
                    lemma_relaxed_complete(ws, costs0, wi, hi, fr0, p);
                }
            }
            assert(is_dist_field(ws, costs0, wi, hi, fr0));
        }
        true
    }

    /// Copy the finished workspace into the shared distance field.
    pub fn publish_into(&self, map: &mut Vec<Vec<i32>>)
        ensures
            gview(*final(map)) == gview(self.workspace),
    {
        *map = clone_grid(&self.workspace);
    }

    /// Run one pass and, if it was not cancelled, publish the result into
    /// the shared distance field. A cancelled pass leaves the field as it
    /// was; a completed pass replaces it with the exact distance field of
    /// the costs and frontier held at entry.
    pub fn update(&mut self, map: &mut Vec<Vec<i32>>, w: i32, h: i32)
        requires
            old(self).wf(w as int, h as int),
            (w as int) * (h as int) * grid_max(gview(old(self).costs)) <= i32::MAX as int,
        ensures
            final(self).wf(w as int, h as int),
            final(self).costs == old(self).costs,
            final(self).frontier@.len() == 0,
            gview(*final(map)) == gview(*old(map)) || is_dist_field(
                gview(*final(map)),
                gview(old(self).costs),
                w as int,
                h as int,
                old(self).frontier@,
            ),
            old(self).frontier@.len() == 0 ==> is_dist_field(
                gview(*final(map)),
                gview(old(self).costs),
                w as int,
                h as int,
                old(self).frontier@,
            ),
    {
        let completed = self.compute(w, h);
        if completed {
            self.publish_into(map);
        }
    }

    /// Queue new frontier tiles and apply the sparse cost edits, leaving
    /// the rest of the pass state untouched: the queue grows by exactly the
    /// given tiles and the costs become the edited grid.
    pub fn enqueue(
        &mut self,
        frontier: &Vec<(usize, usize)>,
        changes: &Vec<(usize, usize, i32)>,
        w: i32,
        h: i32,
    )
        requires
            old(self).wf(w as int, h as int),
            forall|j: int|
                0 <= j < frontier@.len() ==> in_bounds(
                    w as int,
                    h as int,
                    (#[trigger] frontier@[j]).0 as int,
                    frontier@[j].1 as int,
                ),
            forall|j: int|
                0 <= j < changes@.len() ==> in_bounds(
                    w as int,
                    h as int,
                    (#[trigger] changes@[j]).0 as int,
                    changes@[j].1 as int,
                ) && changes@[j].2 >= INFINITY,
        ensures
            final(self).wf(w as int, h as int),
            final(self).frontier@ == old(self).frontier@ + frontier@,
            gview(final(self).costs) == apply_edits(gview(old(self).costs), changes@),
            final(self).workspace == old(self).workspace,
            final(self).collector == old(self).collector,
    {
        let ghost wi = w as int;
        let ghost hi = h as int;
        let ghost costs0 = gview(self.costs);
        let ghost fr_old = self.frontier@;

        let mut j: usize = 0;
        while j < frontier.len()
            invariant
                self.costs == old(self).costs,
                self.workspace == old(self).workspace,
                self.collector == old(self).collector,
                fr_old == old(self).frontier@,
                j <= frontier@.len(),
                self.frontier@ == fr_old + frontier@.subrange(0, j as int),
            decreases frontier@.len() - j,
        {
            self.frontier.push(frontier[j]);
            proof {
                assert(fr_old + frontier@.subrange(0, j as int + 1) =~= (fr_old
                    + frontier@.subrange(0, j as int)).push(frontier@[j as int]));
            }
            j = j + 1;
        }
        proof {
            assert(frontier@.subrange(0, frontier@.len() as int) =~= frontier@);
            assert(self.frontier@ == fr_old + frontier@);
        }

        let mut c: usize = 0;
        while c < changes.len()
            invariant
                wi == w as int,
                hi == h as int,
                0 <= wi <= i32::MAX as int,
                0 <= hi <= i32::MAX as int,
                self.workspace == old(self).workspace,
                self.collector == old(self).collector,
                self.frontier@ == fr_old + frontier@,
                c <= changes@.len(),
                costs0 == gview(old(self).costs),
                forall|q: int|
                    0 <= q < changes@.len() ==> in_bounds(
                        wi,
                        hi,
                        (#[trigger] changes@[q]).0 as int,
                        changes@[q].1 as int,
                    ) && changes@[q].2 >= INFINITY,
                gview(self.costs) == apply_edits(costs0, changes@.subrange(0, c as int)),
                grid_wf(gview(self.costs), wi, hi),
                costs_ok(gview(self.costs), wi, hi),
            decreases changes@.len() - c,
        {
            let e = changes[c];
            let ghost cb = gview(self.costs);
            proof {
                assert(e == changes@[c as int]);
                assert(in_bounds(wi, hi, e.0 as int, e.1 as int));
                assert(cb[e.1 as int].len() == wi);
            }
            set_cell(&mut self.costs, e.0, e.1, e.2);
            proof {
                let ca = gview(self.costs);
                assert(changes@.subrange(0, c as int + 1).drop_last() =~= changes@.subrange(
                    0,
                    c as int,
                ));
                assert(changes@.subrange(0, c as int + 1).last() == changes@[c as int]);
                assert(ca == apply_edits(costs0, changes@.subrange(0, c as int + 1)));
                assert(grid_wf(ca, wi, hi)) by {
                    assert(forall|yy: int|
                        0 <= yy < hi ==> (#[trigger] ca[yy]).len() == cb[yy].len());
                }
                assert(costs_ok(ca, wi, hi)) by {
                    assert forall|xx: int, yy: int|
                        in_bounds(wi, hi, xx, yy) implies #[trigger] at(ca, xx, yy)
                        >= INFINITY by {
                        if !(xx == e.0 as int && yy == e.1 as int) {
                            assert(at(ca, xx, yy) == at(cb, xx, yy));
                        }
                    }
                }
            }
            c = c + 1;
        }
        proof {
            assert(changes@.subrange(0, changes@.len() as int) =~= changes@);
            assert forall|q: int| 0 <= q < self.frontier@.len() implies in_bounds(
                wi,
                hi,
                (#[trigger] self.frontier@[q]).0 as int,
                self.frontier@[q].1 as int,
            ) by {
                if q < fr_old.len() {
                    assert(self.frontier@[q] == fr_old[q]);
                    assert(fr_old[q] == old(self).frontier@[q]);
                } else {
                    assert(self.frontier@[q] == frontier@[q - fr_old.len()]);
                }
            }
        }
    }
}

/// The shared state of one pathfinder: the published distance field and the
/// processor that recomputes it.
pub struct Data {
    pub map: Vec<Vec<i32>>,
    pub processor: Processor,
    pub size: (i32, i32),
}

impl Data {
    pub open spec fn wf(self) -> bool {
        &&& self.processor.wf(self.size.0 as int, self.size.1 as int)
        &&& grid_wf(gview(self.map), self.size.0 as int, self.size.1 as int)
    }

    pub fn new(
        w: usize,
        h: usize,
        terminator: std::sync::mpsc::Receiver<()>,
        costs: &Vec<Vec<i32>>,
    ) -> (d: Data)
        requires
            w <= i32::MAX as usize,
            h <= i32::MAX as usize,
            grid_wf(gview(*costs), w as int, h as int),
            costs_ok(gview(*costs), w as int, h as int),
        ensures
            d.wf(),
            d.size == (w as i32, h as i32),
            gview(d.processor.costs) == gview(*costs),
            d.processor.frontier@.len() == 0,
            grid_all(gview(d.map), w as int, h as int, INFINITY),
            grid_all(gview(d.processor.workspace), w as int, h as int, INFINITY),
    {
        let map = filled_grid(w, h, INFINITY);
        let workspace = filled_grid(w, h, INFINITY);
        Data {
            map,
            processor: Processor {
                terminator,
                workspace,
                frontier: Vec::with_capacity(w + h),
                collector: Vec::with_capacity(w + h),
                costs: clone_grid(costs),
            },
            size: (w as i32, h as i32),
        }
    }
}


/// The eight directions as executable offsets, matching `d8`.
fn dir8(d: usize) -> (r: (i32, i32))
    requires
        d < 8,
    ensures
        r.0 as int == d8(d as int).0,
        r.1 as int == d8(d as int).1,
{
    if d < 4 {
        dir4(d)
    } else if d == 4 {
        (1, 1)
    } else if d == 5 {
        (1, -1)
    } else if d == 6 {
        (-1, -1)
    } else {
        (-1, 1)
    }
}

/// The greedy-step selection over a published field, shared by the
/// pathfinder and by callers that keep the field under their own lock. The
/// move must improve on staying: a tile that already carries a distance is
/// only left for a strictly closer neighbor.
pub fn field_step(map: &Vec<Vec<i32>>, w: i32, h: i32, current: (usize, usize)) -> (best: (usize, usize))
    requires
        0 <= w as int,
        0 <= h as int,
        grid_wf(gview(*map), w as int, h as int),
        in_bounds(w as int, h as int, current.0 as int, current.1 as int),
    ensures
        is_step_choice(gview(*map), w as int, h as int, current, best),
        best == current || (in_bounds(w as int, h as int, best.0 as int, best.1 as int)
            && at(gview(*map), best.0 as int, best.1 as int) != INFINITY),
{
    let ghost wi = w as int;
    let ghost hi = h as int;
    let ghost f = gview(*map);
    proof {
        assert(gview(*map)[current.1 as int].len() == wi);
    }
    let own = get_cell(map, current.0, current.1);
    let mut best = current;
    let mut lowest = if own != INFINITY {
        own
    } else {
        i32::MAX
    };
    let ghost lim = lowest;
    proof {
        assert(lim == stay_val(f, current));
    }
    let mut d: usize = 0;
    while d < 8
        invariant
            wi == w as int,
            hi == h as int,
            grid_wf(f, wi, hi),
            f == gview(*map),
            w as int == wi,
            h as int == hi,
            in_bounds(wi, hi, current.0 as int, current.1 as int),
            d <= 8,
            lim == stay_val(f, current),
            lowest <= lim,
            lowest == lim ==> best == current && (forall|q: int|
                0 <= q < d ==> !(#[trigger] step_eligible(f, wi, hi, current, q) && (step_val(
                    f,
                    current,
                    q,
                ) as int) < lim as int)),
            lowest != lim ==> exists|q: int|
                0 <= q < d && #[trigger] step_eligible(f, wi, hi, current, q) && step_val(
                    f,
                    current,
                    q,
                ) == lowest && (lowest as int) < lim as int && best.0 as int
                    == step_target(current, q).0 && best.1 as int == step_target(current, q).1
                    && (forall|r: int|
                    0 <= r < d && #[trigger] step_eligible(f, wi, hi, current, r) ==> step_val(
                        f,
                        current,
                        r,
                    ) >= lowest) && (forall|r: int|
                    0 <= r < q && #[trigger] step_eligible(f, wi, hi, current, r) ==> step_val(
                        f,
                        current,
                        r,
                    ) > lowest),
            lowest != lim ==> in_bounds(wi, hi, best.0 as int, best.1 as int) && at(
                f,
                best.0 as int,
                best.1 as int,
            ) != INFINITY,
        decreases 8 - d,
    {
        let (dx, dy) = dir8(d);
        let px = current.0 as i32 + dx;
        let py = current.1 as i32 + dy;
        let ghost tx = current.0 as int + d8(d as int).0;
        let ghost ty = current.1 as int + d8(d as int).1;
        if !(px < 0 || py < 0 || px == w || py == h) {
            proof {
                assert(in_bounds(wi, hi, tx, ty));
                assert(gview((*map))[ty].len() == wi);
                assert(gview((*map))[current.1 as int].len() == wi);
            }
            let pos = (px as usize, py as usize);
            let val = get_cell(map, pos.0, pos.1);
            if val != INFINITY && (dy == 0 || dx == 0 || get_cell(
                map,
                current.0,
                pos.1,
            ) != INFINITY || get_cell(map, pos.0, current.1) != INFINITY)
                && val < lowest {
                proof {
                    assert(step_eligible(f, wi, hi, current, d as int));
                    assert(step_val(f, current, d as int) == val);
                }
                lowest = val;
                best = pos;
            }
        } else {
            proof {
                assert(!in_bounds(wi, hi, tx, ty));
                assert(!step_eligible(f, wi, hi, current, d as int));
            }
        }
        d = d + 1;
    }
    best
}

/// The public face of the pathfinder: it owns the shared state and a sender
/// able to cancel a pass that newer work has made stale.
pub struct PathFinder {
    pub terminator: std::sync::mpsc::Sender<()>,
    pub data: Data,
}

impl PathFinder {
    pub open spec fn wf(self) -> bool {
        self.data.wf()
    }

    pub open spec fn width(self) -> int {
        self.data.size.0 as int
    }

    pub open spec fn height(self) -> int {
        self.data.size.1 as int
    }

    /// Build a pathfinder over a rectangular cost grid; the distance field
    /// starts entirely unreachable until `update` publishes a pass.
    pub fn new(costs: &Vec<Vec<i32>>) -> (pf: PathFinder)
        requires
            costs@.len() >= 1,
            costs@.len() <= i32::MAX as usize,
            costs@[0]@.len() <= i32::MAX as usize,
            grid_wf(gview(*costs), costs@[0]@.len() as int, costs@.len() as int),
            costs_ok(gview(*costs), costs@[0]@.len() as int, costs@.len() as int),
        ensures
            pf.wf(),
            pf.width() == costs@[0]@.len(),
            pf.height() == costs@.len(),
            gview(pf.data.processor.costs) == gview(*costs),
            pf.data.processor.frontier@.len() == 0,
            grid_all(gview(pf.data.map), pf.width(), pf.height(), INFINITY),
    {
        let (terminator, t) = std::sync::mpsc::channel();
        let w = costs[0].len();
        let h = costs.len();
        PathFinder { terminator, data: Data::new(w, h, t, costs) }
    }

    /// Apply the sparse cost edits, queue the new frontier tiles, and run a
    /// computation pass over everything queued so far. When the pass is not
    /// preempted by a pending cancellation token, the published field is the
    /// exact distance field of the edited costs and the accumulated
    /// frontier; a preempted pass leaves the field untouched.
    pub fn update(&mut self, frontier: &Vec<(usize, usize)>, changes: &Vec<(usize, usize, i32)>)
        requires
            old(self).wf(),
            forall|j: int|
                0 <= j < frontier@.len() ==> in_bounds(
                    old(self).width(),
                    old(self).height(),
                    (#[trigger] frontier@[j]).0 as int,
                    frontier@[j].1 as int,
                ),
            forall|j: int|
                0 <= j < changes@.len() ==> in_bounds(
                    old(self).width(),
                    old(self).height(),
                    (#[trigger] changes@[j]).0 as int,
                    changes@[j].1 as int,
                ) && changes@[j].2 >= INFINITY,
            old(self).width() * old(self).height() * grid_max(
                apply_edits(gview(old(self).data.processor.costs), changes@),
            ) <= i32::MAX as int,
        ensures
            final(self).wf(),
            final(self).data.size == old(self).data.size,
            gview(final(self).data.processor.costs) == apply_edits(
                gview(old(self).data.processor.costs),
                changes@,
            ),
            final(self).data.processor.frontier@.len() == 0,
            gview(final(self).data.map) == gview(old(self).data.map) || is_dist_field(
                gview(final(self).data.map),
                apply_edits(gview(old(self).data.processor.costs), changes@),
                old(self).width(),
                old(self).height(),
                old(self).data.processor.frontier@ + frontier@,
            ),
            old(self).data.processor.frontier@.len() + frontier@.len() == 0 ==> is_dist_field(
                gview(final(self).data.map),
                apply_edits(gview(old(self).data.processor.costs), changes@),
                old(self).width(),
                old(self).height(),
                old(self).data.processor.frontier@ + frontier@,
            ),
    {
        let w = self.data.size.0;
        let h = self.data.size.1;
        self.data.processor.enqueue(frontier, changes, w, h);
        let d = &mut self.data;
        d.processor.update(&mut d.map, w, h);
    }

    /// Read a greedy step from the published distance field: among the
    /// eight neighbors of current, pick the first whose distance is
    /// smallest, skipping unreachable tiles and diagonals whose both shared
    /// corners are unreachable. A move must improve on staying, so a tile
    /// already carrying a distance is only left for a strictly closer
    /// neighbor; with no candidate, stay in place.
    pub fn get_step(&self, current: (usize, usize)) -> (best: (usize, usize))
        requires
            self.wf(),
            in_bounds(self.width(), self.height(), current.0 as int, current.1 as int),
        ensures
            is_step_choice(gview(self.data.map), self.width(), self.height(), current, best),
            best == current || (in_bounds(self.width(), self.height(), best.0 as int, best.1 as int)
                && at(gview(self.data.map), best.0 as int, best.1 as int) != INFINITY),
    {
        field_step(&self.data.map, self.data.size.0, self.data.size.1, current)
    }
}

} // verus!
