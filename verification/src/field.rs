//! The mathematical model of cost grids, walks and distance fields.
use vstd::prelude::*;

verus! {

/// Sentinel marking a tile as unreachable (in a distance field) or
/// impassable (in a cost grid).
pub const INFINITY: i32 = -1;

/// The four orthogonal directions, in the order the flood fill visits them.
pub open spec fn d4(i: int) -> (int, int) {
    if i == 0 {
        (0, 1)
    } else if i == 1 {
        (1, 0)
    } else if i == 2 {
        (-1, 0)
    } else {
        (0, -1)
    }
}

/// The eight directions step selection scans: the orthogonal four first,
/// then the diagonals.
pub open spec fn d8(i: int) -> (int, int) {
    if i < 4 {
        d4(i)
    } else if i == 4 {
        (1, 1)
    } else if i == 5 {
        (1, -1)
    } else if i == 6 {
        (-1, -1)
    } else {
        (-1, 1)
    }
}

/// A grid of cells as a sequence of rows, indexed `[y][x]`.
pub open spec fn gview(g: Vec<Vec<i32>>) -> Seq<Seq<i32>> {
    Seq::new(g@.len(), |y: int| g@[y]@)
}

/// A well-formed w-by-h grid: h rows of w cells each.
pub open spec fn grid_wf(g: Seq<Seq<i32>>, w: int, h: int) -> bool {
    g.len() == h && (forall|y: int| 0 <= y < h ==> (#[trigger] g[y]).len() == w)
}

pub open spec fn in_bounds(w: int, h: int, x: int, y: int) -> bool {
    0 <= x < w && 0 <= y < h
}

/// The value of grid g at column x of row y.
pub open spec fn at(g: Seq<Seq<i32>>, x: int, y: int) -> i32 {
    g[y][x]
}

/// Orthogonal adjacency of tiles (ax, ay) and (bx, by).
pub open spec fn adj(ax: int, ay: int, bx: int, by: int) -> bool {
    ||| (ax == bx && (by == ay + 1 || by == ay - 1))
    ||| (ay == by && (bx == ax + 1 || bx == ax - 1))
}

/// p is a walk over the grid: it starts on any tile, and every later tile is
/// orthogonally adjacent to its predecessor and can be entered (its cost is
/// not the `INFINITY` sentinel, hence at least 0).
pub open spec fn is_path(costs: Seq<Seq<i32>>, w: int, h: int, p: Seq<(int, int)>) -> bool {
    &&& p.len() >= 1
    &&& (forall|i: int| 0 <= i < p.len() ==> in_bounds(w, h, (#[trigger] p[i]).0, p[i].1))
    &&& (forall|i: int|
        1 <= i < p.len() ==> adj(p[i - 1].0, p[i - 1].1, (#[trigger] p[i]).0, p[i].1))
    &&& (forall|i: int| 1 <= i < p.len() ==> at(costs, (#[trigger] p[i]).0, p[i].1) >= 0)
}

/// The cost of a walk: entering a tile costs that tile's cell; the first tile
/// is free.
pub open spec fn path_cost(costs: Seq<Seq<i32>>, p: Seq<(int, int)>) -> int
    decreases p.len(),
{
    if p.len() <= 1 {
        0
    } else {
        path_cost(costs, p.drop_last()) + at(costs, p.last().0, p.last().1)
    }
}

/// The frontier sequence holds tile (x, y).
pub open spec fn frontier_has(fr: Seq<(usize, usize)>, x: int, y: int) -> bool {
    exists|j: int| 0 <= j < fr.len() && (#[trigger] fr[j]).0 == x && fr[j].1 == y
}

/// p leads from some frontier tile to (x, y) at total cost c.
pub open spec fn connects(
    costs: Seq<Seq<i32>>,
    w: int,
    h: int,
    fr: Seq<(usize, usize)>,
    p: Seq<(int, int)>,
    x: int,
    y: int,
    c: int,
) -> bool {
    &&& is_path(costs, w, h, p)
    &&& frontier_has(fr, p[0].0, p[0].1)
    &&& p.last() == (x, y)
    &&& path_cost(costs, p) == c
}

/// Some walk leads from the frontier to (x, y) at total cost c.
/// Opaque: proofs that need the walk itself reveal it first.
#[verifier::opaque]
pub open spec fn reaches(
    costs: Seq<Seq<i32>>,
    w: int,
    h: int,
    fr: Seq<(usize, usize)>,
    x: int,
    y: int,
    c: int,
) -> bool {
    exists|p: Seq<(int, int)>| connects(costs, w, h, fr, p, x, y, c)
}

/// f is the distance field of the cost grid and frontier: `INFINITY` exactly
/// on the tiles no walk from the frontier reaches, and elsewhere the least
/// cost over all such walks.
pub open spec fn is_dist_field(
    f: Seq<Seq<i32>>,
    costs: Seq<Seq<i32>>,
    w: int,
    h: int,
    fr: Seq<(usize, usize)>,
) -> bool {
    &&& grid_wf(f, w, h)
    &&& (forall|x: int, y: int|
        in_bounds(w, h, x, y) && #[trigger] at(f, x, y) == INFINITY ==> (forall|c: int|
            !reaches(costs, w, h, fr, x, y, c)))
    &&& (forall|x: int, y: int|
        in_bounds(w, h, x, y) && #[trigger] at(f, x, y) != INFINITY ==> reaches(
            costs,
            w,
            h,
            fr,
            x,
            y,
            at(f, x, y) as int,
        ))
    &&& (forall|x: int, y: int, c: int|
        in_bounds(w, h, x, y) && at(f, x, y) != INFINITY && #[trigger] reaches(
            costs,
            w,
            h,
            fr,
            x,
            y,
            c,
        ) ==> at(f, x, y) <= c)
}

/// Every cell of a cost grid is either the impassable sentinel or a
/// non-negative cost of entering the tile.
pub open spec fn costs_ok(g: Seq<Seq<i32>>, w: int, h: int) -> bool {
    forall|x: int, y: int| in_bounds(w, h, x, y) ==> #[trigger] at(g, x, y) >= INFINITY
}

/// A well-formed w-by-h grid whose every cell is v.
pub open spec fn grid_all(g: Seq<Seq<i32>>, w: int, h: int, v: i32) -> bool {
    grid_wf(g, w, h) && (forall|x: int, y: int|
        in_bounds(w, h, x, y) ==> #[trigger] at(g, x, y) == v)
}

/// The grid after a sequence of sparse edits, each overwriting one cell,
/// applied in order (a later edit to the same tile wins).
pub open spec fn apply_edits(g: Seq<Seq<i32>>, ch: Seq<(usize, usize, i32)>) -> Seq<Seq<i32>>
    decreases ch.len(),
{
    if ch.len() == 0 {
        g
    } else {
        let prev = apply_edits(g, ch.drop_last());
        let e = ch.last();
        prev.update(e.1 as int, prev[e.1 as int].update(e.0 as int, e.2))
    }
}

/// The tile one step from cur along the i-th of the eight directions.
pub open spec fn step_target(cur: (usize, usize), i: int) -> (int, int) {
    (cur.0 as int + d8(i).0, cur.1 as int + d8(i).1)
}

/// The i-th neighbor of cur is a candidate destination: in bounds, carrying
/// a distance, and, for a diagonal, at least one of the two shared corner
/// tiles also carries a distance (no cutting through a blocked corner).
pub open spec fn step_eligible(
    f: Seq<Seq<i32>>,
    w: int,
    h: int,
    cur: (usize, usize),
    i: int,
) -> bool {
    let t = step_target(cur, i);
    &&& in_bounds(w, h, t.0, t.1)
    &&& at(f, t.0, t.1) != INFINITY
    &&& (d8(i).1 == 0 || d8(i).0 == 0 || at(f, cur.0 as int, t.1) != INFINITY || at(
        f,
        t.0,
        cur.1 as int,
    ) != INFINITY)
}

/// The distance the i-th neighbor of cur carries.
pub open spec fn step_val(f: Seq<Seq<i32>>, cur: (usize, usize), i: int) -> i32 {
    at(f, step_target(cur, i).0, step_target(cur, i).1)
}

/// What staying on cur costs: the tile's own distance, or no bound at all
/// (i32::MAX) when the tile is unreachable.
pub open spec fn stay_val(f: Seq<Seq<i32>>, cur: (usize, usize)) -> i32 {
    if at(f, cur.0 as int, cur.1 as int) == INFINITY {
        i32::MAX
    } else {
        at(f, cur.0 as int, cur.1 as int)
    }
}

/// The greedy choice: cur itself when no eligible neighbor improves on
/// staying, else the first direction (in d8 order) whose eligible neighbor
/// carries the smallest distance, which is then strictly below staying.
pub open spec fn is_step_choice(
    f: Seq<Seq<i32>>,
    w: int,
    h: int,
    cur: (usize, usize),
    r: (usize, usize),
) -> bool {
    if (forall|i: int|
        0 <= i < 8 ==> !(#[trigger] step_eligible(f, w, h, cur, i) && (step_val(f, cur, i) as int)
            < stay_val(f, cur) as int)) {
        r == cur
    } else {
        exists|i: int|
            0 <= i < 8 && #[trigger] step_eligible(f, w, h, cur, i) && (step_val(f, cur, i) as int)
                < stay_val(f, cur) as int && r.0 as int == step_target(cur, i).0 && r.1 as int
                == step_target(cur, i).1 && (forall|j: int|
                0 <= j < 8 && #[trigger] step_eligible(f, w, h, cur, j) ==> step_val(f, cur, j)
                    >= step_val(f, cur, i)) && (forall|j: int|
                0 <= j < i && #[trigger] step_eligible(f, w, h, cur, j) ==> step_val(f, cur, j)
                    > step_val(f, cur, i))
    }
}

/// Sum of a per-cell weight over a row.
pub open spec fn row_sum(r: Seq<i32>, f: spec_fn(i32) -> int) -> int
    decreases r.len(),
{
    if r.len() == 0 {
        0
    } else {
        row_sum(r.drop_last(), f) + f(r.last())
    }
}

/// Sum of a per-cell weight over a whole grid.
pub open spec fn grid_sum(g: Seq<Seq<i32>>, f: spec_fn(i32) -> int) -> int
    decreases g.len(),
{
    if g.len() == 0 {
        0
    } else {
        grid_sum(g.drop_last(), f) + row_sum(g.last(), f)
    }
}

/// The weight a cell contributes when counting tiles that carry a distance.
pub open spec fn fin_weight() -> spec_fn(i32) -> int {
    |v: i32| if v == INFINITY { 0int } else { 1int }
}

/// Number of tiles of the grid that carry a distance (are not `INFINITY`).
pub open spec fn grid_fin(g: Seq<Seq<i32>>) -> int {
    grid_sum(g, fin_weight())
}

pub proof fn lemma_row_sum_update(r: Seq<i32>, f: spec_fn(i32) -> int, i: int, v: i32)
    requires
        0 <= i < r.len(),
    ensures
        row_sum(r.update(i, v), f) == row_sum(r, f) - f(r[i]) + f(v),
    decreases r.len(),
{
    let ru = r.update(i, v);
    if i == r.len() - 1 {
        assert(ru.drop_last() =~= r.drop_last());
        assert(ru.last() == v);
    } else {
        assert(ru.drop_last() =~= r.drop_last().update(i, v));
        assert(ru.last() == r.last());
        lemma_row_sum_update(r.drop_last(), f, i, v);
    }
}

pub proof fn lemma_grid_sum_update(g: Seq<Seq<i32>>, f: spec_fn(i32) -> int, y: int, row: Seq<i32>)
    requires
        0 <= y < g.len(),
    ensures
        grid_sum(g.update(y, row), f) == grid_sum(g, f) - row_sum(g[y], f) + row_sum(row, f),
    decreases g.len(),
{
    let gu = g.update(y, row);
    if y == g.len() - 1 {
        assert(gu.drop_last() =~= g.drop_last());
        assert(gu.last() == row);
    } else {
        assert(gu.drop_last() =~= g.drop_last().update(y, row));
        assert(gu.last() == g.last());
        lemma_grid_sum_update(g.drop_last(), f, y, row);
    }
}

pub proof fn lemma_row_sum_bounds(r: Seq<i32>, f: spec_fn(i32) -> int, lo: int, hi: int)
    requires
        forall|v: i32| lo <= #[trigger] f(v) <= hi,
    ensures
        lo * r.len() <= row_sum(r, f) <= hi * r.len(),
    decreases r.len(),
{
    if r.len() != 0 {
        lemma_row_sum_bounds(r.drop_last(), f, lo, hi);
        let n = r.len() as int;
        assert(lo * (n - 1) + lo == lo * n) by (nonlinear_arith);
        assert(hi * (n - 1) + hi == hi * n) by (nonlinear_arith);
    }
}

pub proof fn lemma_grid_sum_bounds(
    g: Seq<Seq<i32>>,
    f: spec_fn(i32) -> int,
    w: int,
    h: int,
    lo: int,
    hi: int,
)
    requires
        grid_wf(g, w, h),
        forall|v: i32| lo <= #[trigger] f(v) <= hi,
    ensures
        lo * (w * h) <= grid_sum(g, f) <= hi * (w * h),
    decreases g.len(),
{
    if g.len() == 0 {
        assert(lo * (w * 0) == 0) by (nonlinear_arith);
        assert(hi * (w * 0) == 0) by (nonlinear_arith);
    } else {
        assert(grid_wf(g.drop_last(), w, h - 1));
        lemma_grid_sum_bounds(g.drop_last(), f, w, h - 1, lo, hi);
        lemma_row_sum_bounds(g.last(), f, lo, hi);
        assert(g.last().len() == w);
        assert(lo * (w * (h - 1)) + lo * w == lo * (w * h)) by (nonlinear_arith);
        assert(hi * (w * (h - 1)) + hi * w == hi * (w * h)) by (nonlinear_arith);
    }
}

/// A sum of cell-wise non-negative weights is at least any one cell's weight.
pub proof fn lemma_row_sum_lower_at(r: Seq<i32>, f: spec_fn(i32) -> int, i: int)
    requires
        0 <= i < r.len(),
        forall|j: int| 0 <= j < r.len() ==> #[trigger] f(r[j]) >= 0,
    ensures
        row_sum(r, f) >= f(r[i]),
    decreases r.len(),
{
    if i == r.len() - 1 {
        lemma_row_sum_nonneg(r.drop_last(), f);
    } else {
        lemma_row_sum_lower_at(r.drop_last(), f, i);
    }
}

pub proof fn lemma_row_sum_nonneg(r: Seq<i32>, f: spec_fn(i32) -> int)
    requires
        forall|j: int| 0 <= j < r.len() ==> #[trigger] f(r[j]) >= 0,
    ensures
        row_sum(r, f) >= 0,
    decreases r.len(),
{
    if r.len() != 0 {
        lemma_row_sum_nonneg(r.drop_last(), f);
    }
}

pub proof fn lemma_grid_sum_lower_at(g: Seq<Seq<i32>>, f: spec_fn(i32) -> int, x: int, y: int)
    requires
        0 <= y < g.len(),
        0 <= x < g[y].len(),
        forall|yy: int, xx: int|
            0 <= yy < g.len() && 0 <= xx < g[yy].len() ==> #[trigger] f(g[yy][xx]) >= 0,
    ensures
        grid_sum(g, f) >= f(at(g, x, y)),
    decreases g.len(),
{
    if y == g.len() - 1 {
        lemma_grid_sum_nonneg(g.drop_last(), f);
        lemma_row_sum_lower_at(g.last(), f, x);
    } else {
        lemma_grid_sum_lower_at(g.drop_last(), f, x, y);
        lemma_row_sum_nonneg(g.last(), f);
    }
}

pub proof fn lemma_grid_sum_nonneg(g: Seq<Seq<i32>>, f: spec_fn(i32) -> int)
    requires
        forall|yy: int, xx: int|
            0 <= yy < g.len() && 0 <= xx < g[yy].len() ==> #[trigger] f(g[yy][xx]) >= 0,
    ensures
        grid_sum(g, f) >= 0,
    decreases g.len(),
{
    if g.len() != 0 {
        lemma_grid_sum_nonneg(g.drop_last(), f);
        lemma_row_sum_nonneg(g.last(), f);
    }
}

/// The largest cell of a row, or 0 if no cell is larger.
pub open spec fn row_max(r: Seq<i32>) -> int
    decreases r.len(),
{
    if r.len() == 0 {
        0
    } else {
        let m = row_max(r.drop_last());
        if r.last() as int > m {
            r.last() as int
        } else {
            m
        }
    }
}

/// The largest cell of a grid, or 0 if no cell is larger.
pub open spec fn grid_max(g: Seq<Seq<i32>>) -> int
    decreases g.len(),
{
    if g.len() == 0 {
        0
    } else {
        let m = grid_max(g.drop_last());
        if row_max(g.last()) > m {
            row_max(g.last())
        } else {
            m
        }
    }
}

pub proof fn lemma_row_max_ge(r: Seq<i32>, i: int)
    requires
        0 <= i < r.len(),
    ensures
        r[i] as int <= row_max(r),
        0 <= row_max(r),
    decreases r.len(),
{
    if i < r.len() - 1 {
        lemma_row_max_ge(r.drop_last(), i);
    } else {
        lemma_row_max_nonneg(r.drop_last());
    }
}

pub proof fn lemma_row_max_nonneg(r: Seq<i32>)
    ensures
        0 <= row_max(r),
    decreases r.len(),
{
    if r.len() != 0 {
        lemma_row_max_nonneg(r.drop_last());
    }
}

pub proof fn lemma_grid_max_nonneg(g: Seq<Seq<i32>>)
    ensures
        0 <= grid_max(g),
    decreases g.len(),
{
    if g.len() != 0 {
        lemma_grid_max_nonneg(g.drop_last());
        lemma_row_max_nonneg(g.last());
    }
}

pub proof fn lemma_grid_max_ge(g: Seq<Seq<i32>>, x: int, y: int)
    requires
        0 <= y < g.len(),
        0 <= x < g[y].len(),
    ensures
        at(g, x, y) as int <= grid_max(g),
        0 <= grid_max(g),
    decreases g.len(),
{
    lemma_grid_max_nonneg(g);
    if y < g.len() - 1 {
        lemma_grid_max_ge(g.drop_last(), x, y);
        lemma_row_max_nonneg(g.last());
    } else {
        lemma_row_max_ge(g.last(), x);
        lemma_grid_max_nonneg(g.drop_last());
    }
}

pub proof fn lemma_path_prefix(costs: Seq<Seq<i32>>, w: int, h: int, p: Seq<(int, int)>)
    requires
        is_path(costs, w, h, p),
        p.len() >= 2,
    ensures
        is_path(costs, w, h, p.drop_last()),
{
    let q = p.drop_last();
    assert forall|i: int| 0 <= i < q.len() implies in_bounds(w, h, (#[trigger] q[i]).0, q[i].1) by {
        assert(q[i] == p[i]);
    }
    assert forall|i: int| 1 <= i < q.len() implies adj(q[i - 1].0, q[i - 1].1, (#[trigger] q[i]).0, q[i].1) by {
        assert(q[i] == p[i] && q[i - 1] == p[i - 1]);
    }
    assert forall|i: int| 1 <= i < q.len() implies at(costs, (#[trigger] q[i]).0, q[i].1) >= 0 by {
        assert(q[i] == p[i]);
    }
}

/// A walk reaching (ux, uy) extends over an adjacent enterable tile (vx, vy).
pub proof fn lemma_reaches_step(
    costs: Seq<Seq<i32>>,
    w: int,
    h: int,
    fr: Seq<(usize, usize)>,
    ux: int,
    uy: int,
    cu: int,
    vx: int,
    vy: int,
)
    requires
        reaches(costs, w, h, fr, ux, uy, cu),
        in_bounds(w, h, vx, vy),
        adj(ux, uy, vx, vy),
        at(costs, vx, vy) >= 0,
    ensures
        reaches(costs, w, h, fr, vx, vy, cu + at(costs, vx, vy)),
{
    reveal(reaches);
    let p = choose|p: Seq<(int, int)>| connects(costs, w, h, fr, p, ux, uy, cu);
    let p2 = p.push((vx, vy));
    assert(p2.drop_last() =~= p);
    assert(p2.last() == (vx, vy));
    assert forall|i: int| 0 <= i < p2.len() implies in_bounds(w, h, (#[trigger] p2[i]).0, p2[i].1) by {
        if i < p.len() {
            assert(p2[i] == p[i]);
        }
    }
    assert forall|i: int| 1 <= i < p2.len() implies adj(p2[i - 1].0, p2[i - 1].1, (#[trigger] p2[i]).0, p2[i].1) by {
        if i < p.len() {
            assert(p2[i] == p[i] && p2[i - 1] == p[i - 1]);
        } else {
            assert(p2[i] == (vx, vy) && p2[i - 1] == p.last());
            assert(p.last() == (ux, uy));
        }
    }
    assert forall|i: int| 1 <= i < p2.len() implies at(costs, (#[trigger] p2[i]).0, p2[i].1) >= 0 by {
        if i < p.len() {
            assert(p2[i] == p[i]);
        }
    }
    assert(path_cost(costs, p2) == cu + at(costs, vx, vy));
    assert(p2[0] == p[0]);
    assert(connects(costs, w, h, fr, p2, vx, vy, cu + at(costs, vx, vy)));
}

/// A frontier tile reaches itself at cost 0.
pub proof fn lemma_reaches_seed(
    costs: Seq<Seq<i32>>,
    w: int,
    h: int,
    fr: Seq<(usize, usize)>,
    x: int,
    y: int,
)
    requires
        in_bounds(w, h, x, y),
        frontier_has(fr, x, y),
    ensures
        reaches(costs, w, h, fr, x, y, 0),
{
    reveal(reaches);
    let p = seq![(x, y)];
    assert(p.last() == (x, y));
    assert(p[0] == (x, y));
    assert(is_path(costs, w, h, p));
    assert(path_cost(costs, p) == 0);
    assert(connects(costs, w, h, fr, p, x, y, 0));
}

/// Every edge out of a tile that carries a distance is relaxed, except
/// possibly edges out of tiles still pending in the work queue.
pub open spec fn relaxed_except(
    ws: Seq<Seq<i32>>,
    costs: Seq<Seq<i32>>,
    w: int,
    h: int,
    pending: Seq<(usize, usize)>,
) -> bool {
    forall|ux: int, uy: int, vx: int, vy: int|
        #![trigger at(ws, ux, uy), at(costs, vx, vy)]
        in_bounds(w, h, ux, uy) && in_bounds(w, h, vx, vy) && adj(ux, uy, vx, vy) && at(
            ws,
            ux,
            uy,
        ) != INFINITY && at(costs, vx, vy) >= 0 ==> ((at(ws, vx, vy) != INFINITY && at(ws, vx, vy)
            <= at(ws, ux, uy) + at(costs, vx, vy)) || frontier_has(pending, ux, uy))
}

/// When nothing is pending, a relaxed workspace bounds every walk: the cell
/// of the walk's last tile is a distance no larger than the walk's cost.
pub proof fn lemma_relaxed_complete(
    ws: Seq<Seq<i32>>,
    costs: Seq<Seq<i32>>,
    w: int,
    h: int,
    fr: Seq<(usize, usize)>,
    p: Seq<(int, int)>,
)
    requires
        relaxed_except(ws, costs, w, h, Seq::<(usize, usize)>::empty()),
        forall|j: int|
            0 <= j < fr.len() ==> in_bounds(w, h, (#[trigger] fr[j]).0 as int, fr[j].1 as int) && at(
                ws,
                fr[j].0 as int,
                fr[j].1 as int,
            ) == 0,
        is_path(costs, w, h, p),
        frontier_has(fr, p[0].0, p[0].1),
    ensures
        at(ws, p.last().0, p.last().1) != INFINITY,
        at(ws, p.last().0, p.last().1) <= path_cost(costs, p),
    decreases p.len(),
{
    if p.len() == 1 {
        let j = choose|j: int|
            0 <= j < fr.len() && (#[trigger] fr[j]).0 == p[0].0 && fr[j].1 == p[0].1;
        assert(p.last() == p[0]);
        assert(at(ws, p[0].0, p[0].1) == 0);
    } else {
        let q = p.drop_last();
        lemma_path_prefix(costs, w, h, p);
        assert(q[0] == p[0]);
        lemma_relaxed_complete(ws, costs, w, h, fr, q);
        let u = q.last();
        let v = p.last();
        assert(u == p[p.len() - 2] && v == p[p.len() - 1]);
        assert(adj(u.0, u.1, v.0, v.1));
        assert(at(costs, v.0, v.1) >= 0);
        assert(in_bounds(w, h, u.0, u.1) && in_bounds(w, h, v.0, v.1));
        assert(!frontier_has(Seq::<(usize, usize)>::empty(), u.0, u.1));
        assert(at(ws, v.0, v.1) != INFINITY && at(ws, v.0, v.1) <= at(ws, u.0, u.1) + at(
            costs,
            v.0,
            v.1,
        ));
    }
}

pub proof fn lemma_frontier_has_concat(a: Seq<(usize, usize)>, b: Seq<(usize, usize)>, x: int, y: int)
    ensures
        frontier_has(a + b, x, y) <==> (frontier_has(a, x, y) || frontier_has(b, x, y)),
{
    let c = a + b;
    if frontier_has(a, x, y) {
        let j = choose|j: int| 0 <= j < a.len() && (#[trigger] a[j]).0 == x && a[j].1 == y;
        assert(c[j] == a[j]);
        assert(frontier_has(c, x, y));
    }
    if frontier_has(b, x, y) {
        let j = choose|j: int| 0 <= j < b.len() && (#[trigger] b[j]).0 == x && b[j].1 == y;
        assert(c[a.len() + j] == b[j]);
        assert(frontier_has(c, x, y));
    }
    if frontier_has(c, x, y) {
        let j = choose|j: int| 0 <= j < c.len() && (#[trigger] c[j]).0 == x && c[j].1 == y;
        if j < a.len() {
            assert(a[j] == c[j]);
            assert(frontier_has(a, x, y));
        } else {
            assert(b[j - a.len()] == c[j]);
            assert(frontier_has(b, x, y));
        }
    }
}

pub proof fn lemma_frontier_has_push(s: Seq<(usize, usize)>, t: (usize, usize), x: int, y: int)
    ensures
        frontier_has(s.push(t), x, y) <==> (frontier_has(s, x, y) || (t.0 == x && t.1 == y)),
{
    let sp = s.push(t);
    if frontier_has(s, x, y) {
        let j = choose|j: int| 0 <= j < s.len() && (#[trigger] s[j]).0 == x && s[j].1 == y;
        assert(sp[j] == s[j]);
        assert(frontier_has(sp, x, y));
    }
    if t.0 == x && t.1 == y {
        assert(sp[s.len() as int] == t);
        assert(frontier_has(sp, x, y));
    }
    if frontier_has(sp, x, y) {
        let j = choose|j: int| 0 <= j < sp.len() && (#[trigger] sp[j]).0 == x && sp[j].1 == y;
        if j < s.len() {
            assert(s[j] == sp[j]);
            assert(frontier_has(s, x, y));
        }
    }
}

/// Orthogonal adjacency is exactly a step along one of the four directions.
pub proof fn lemma_adj_is_d4(ux: int, uy: int, vx: int, vy: int)
    requires
        adj(ux, uy, vx, vy),
    ensures
        exists|dd: int| 0 <= dd < 4 && vx == ux + d4(dd).0 && vy == uy + d4(dd).1,
{
    if ux == vx && vy == uy + 1 {
        assert(vx == ux + d4(0).0 && vy == uy + d4(0).1);
    } else if ux == vx && vy == uy - 1 {
        assert(vx == ux + d4(3).0 && vy == uy + d4(3).1);
    } else if uy == vy && vx == ux + 1 {
        assert(vx == ux + d4(1).0 && vy == uy + d4(1).1);
    } else {
        assert(vx == ux + d4(2).0 && vy == uy + d4(2).1);
    }
}

pub proof fn lemma_frontier_has_skip(s: Seq<(usize, usize)>, i: int, x: int, y: int)
    requires
        0 <= i < s.len(),
    ensures
        frontier_has(s.skip(i), x, y) <==> ((s[i].0 == x && s[i].1 == y) || frontier_has(
            s.skip(i + 1),
            x,
            y,
        )),
{
    let si = s.skip(i);
    let si1 = s.skip(i + 1);
    if s[i].0 == x && s[i].1 == y {
        assert(si[0] == s[i]);
        assert(frontier_has(si, x, y));
    }
    if frontier_has(si1, x, y) {
        let j = choose|j: int| 0 <= j < si1.len() && (#[trigger] si1[j]).0 == x && si1[j].1 == y;
        assert(si[j + 1] == si1[j]);
        assert(frontier_has(si, x, y));
    }
    if frontier_has(si, x, y) {
        let j = choose|j: int| 0 <= j < si.len() && (#[trigger] si[j]).0 == x && si[j].1 == y;
        if j == 0 {
            assert(si[0] == s[i]);
        } else {
            assert(si1[j - 1] == si[j]);
            assert(frontier_has(si1, x, y));
        }
    }
}

} // verus!
