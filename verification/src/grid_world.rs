use vstd::prelude::*;
use std::collections::VecDeque;
use crate::environment::{MoveOutcome, move_delta, is_water};
use vstd::string::*;
use crate::chance::{random_index, random_ratio};

verus! {

// ───────────────────────── grids and walks ─────────────────────────

/// The rows of a grid stored as vectors.
pub open spec fn view2<T>(v: Seq<Vec<T>>) -> Seq<Seq<T>> {
    Seq::new(v.len(), |i: int| v[i]@)
}

/// A nonempty grid whose columns (indexed by x) are all at least as long as
/// the first; the grid's height is the first column's length.
pub open spec fn is_grid<T>(g: Seq<Seq<T>>) -> bool {
    &&& g.len() > 0
    &&& forall|x: int| 0 <= x < g.len() ==> (#[trigger] g[x]).len() >= g[0].len()
}

/// A grid of the given width and height.
pub open spec fn has_shape<T>(g: Seq<Seq<T>>, w: int, h: int) -> bool {
    &&& g.len() == w
    &&& forall|x: int| 0 <= x < w ==> (#[trigger] g[x]).len() == h
}

/// Whether a cell lies inside the grid.
pub open spec fn in_grid<T>(g: Seq<Seq<T>>, c: (int, int)) -> bool {
    0 <= c.0 < g.len() && 0 <= c.1 < g[0].len()
}

/// Whether a cell lies inside the grid and is no wall.
pub open spec fn passable(walls: Seq<Seq<bool>>, c: (int, int)) -> bool {
    in_grid(walls, c) && !walls[c.0][c.1]
}

/// The cell one step away from `c` in direction `k`: 0 is y−1, 1 is y+1,
/// 2 is x+1, 3 is x−1 (the order in which the searches look around).
pub open spec fn step_dir(c: (int, int), k: int) -> (int, int) {
    if k == 0 {
        (c.0, c.1 - 1)
    } else if k == 1 {
        (c.0, c.1 + 1)
    } else if k == 2 {
        (c.0 + 1, c.1)
    } else {
        (c.0 - 1, c.1)
    }
}

/// Whether two cells share a side.
pub open spec fn adjacent(a: (int, int), b: (int, int)) -> bool {
    exists|k: int| 0 <= k < 4 && b == #[trigger] step_dir(a, k)
}

/// A walk: a start cell in the grid, then passable cells, each sharing a side
/// with the one before. The start cell itself may be a wall.
pub open spec fn is_walk(walls: Seq<Seq<bool>>, p: Seq<(int, int)>) -> bool {
    &&& p.len() > 0
    &&& in_grid(walls, p[0])
    &&& forall|i: int| 1 <= i < p.len() ==> passable(walls, #[trigger] p[i])
    &&& forall|i: int| 0 <= i < p.len() - 1 ==> adjacent(#[trigger] p[i], p[i + 1])
}

/// A walk from `a` to `b` of `n` steps.
pub open spec fn walk_of(walls: Seq<Seq<bool>>, p: Seq<(int, int)>, a: (int, int), b: (int, int), n: nat) -> bool {
    &&& is_walk(walls, p)
    &&& p[0] == a
    &&& p.last() == b
    &&& p.len() == n + 1
}

/// Whether `b` can be reached from `a` in exactly `n` steps.
pub open spec fn reaches_in(walls: Seq<Seq<bool>>, a: (int, int), b: (int, int), n: nat) -> bool {
    exists|p: Seq<(int, int)>| #[trigger] walk_of(walls, p, a, b, n)
}

/// Whether `b` can be reached from `a` at all.
pub open spec fn reachable(walls: Seq<Seq<bool>>, a: (int, int), b: (int, int)) -> bool {
    exists|n: nat| #[trigger] reaches_in(walls, a, b, n)
}

// ───────────────────────── counting marked cells ─────────────────────────

/// How many entries of a row satisfy `f`.
pub open spec fn count_row<T>(r: Seq<T>, f: spec_fn(T) -> bool) -> nat
    decreases r.len(),
{
    if r.len() == 0 {
        0
    } else {
        count_row(r.drop_last(), f) + if f(r.last()) { 1nat } else { 0nat }
    }
}

/// How many entries of a grid satisfy `f`.
pub open spec fn count_grid<T>(g: Seq<Seq<T>>, f: spec_fn(T) -> bool) -> nat
    decreases g.len(),
{
    if g.len() == 0 {
        0
    } else {
        count_grid(g.drop_last(), f) + count_row(g.last(), f)
    }
}

proof fn lemma_count_row_le<T>(r: Seq<T>, f: spec_fn(T) -> bool)
    ensures
        count_row(r, f) <= r.len(),
    decreases r.len(),
{
    if r.len() > 0 {
        lemma_count_row_le(r.drop_last(), f);
    }
}

proof fn lemma_count_row_update<T>(r: Seq<T>, f: spec_fn(T) -> bool, i: int, v: T)
    requires
        0 <= i < r.len(),
        !f(r[i]),
        f(v),
    ensures
        count_row(r.update(i, v), f) == count_row(r, f) + 1,
    decreases r.len(),
{
    let r2 = r.update(i, v);
    if i == r.len() - 1 {
        assert(r2.drop_last() =~= r.drop_last());
    } else {
        assert(r2.drop_last() =~= r.drop_last().update(i, v));
        lemma_count_row_update(r.drop_last(), f, i, v);
    }
}

proof fn lemma_count_grid_le<T>(g: Seq<Seq<T>>, f: spec_fn(T) -> bool, h: int)
    requires
        forall|x: int| 0 <= x < g.len() ==> (#[trigger] g[x]).len() == h,
        h >= 0,
    ensures
        count_grid(g, f) <= g.len() * h,
    decreases g.len(),
{
    if g.len() > 0 {
        lemma_count_grid_le(g.drop_last(), f, h);
        lemma_count_row_le(g.last(), f);
        assert((g.len() - 1) * h + h == g.len() * h) by (nonlinear_arith);
    }
}

proof fn lemma_count_grid_update<T>(g: Seq<Seq<T>>, f: spec_fn(T) -> bool, x: int, row: Seq<T>)
    requires
        0 <= x < g.len(),
        count_row(row, f) == count_row(g[x], f) + 1,
    ensures
        count_grid(g.update(x, row), f) == count_grid(g, f) + 1,
    decreases g.len(),
{
    let g2 = g.update(x, row);
    if x == g.len() - 1 {
        assert(g2.drop_last() =~= g.drop_last());
    } else {
        assert(g2.drop_last() =~= g.drop_last().update(x, row));
        lemma_count_grid_update(g.drop_last(), f, x, row);
    }
}

proof fn lemma_count_row_zero(r: Seq<bool>)
    requires
        forall|y: int| 0 <= y < r.len() ==> !r[y],
    ensures
        count_row(r, flag()) == 0,
    decreases r.len(),
{
    if r.len() > 0 {
        lemma_count_row_zero(r.drop_last());
    }
}

proof fn lemma_count_grid_zero(g: Seq<Seq<bool>>, w: int, h: int)
    requires
        has_shape(g, w, h),
        forall|x: int, y: int| 0 <= x < w && 0 <= y < h ==> !#[trigger] g[x][y],
    ensures
        count_grid(g, flag()) == 0,
    decreases g.len(),
{
    if g.len() > 0 {
        assert(has_shape(g.drop_last(), w - 1, h));
        lemma_count_grid_zero(g.drop_last(), w - 1, h);
        assert forall|y: int| 0 <= y < g.last().len() implies !g.last()[y] by {
            assert(!g[w - 1][y]);
        }
        lemma_count_row_zero(g.last());
    }
}

proof fn lemma_count_row_none(r: Seq<Option<usize>>)
    requires
        forall|y: int| 0 <= y < r.len() ==> r[y] is None,
    ensures
        count_row(r, is_set()) == 0,
    decreases r.len(),
{
    if r.len() > 0 {
        lemma_count_row_none(r.drop_last());
    }
}

proof fn lemma_count_grid_none(g: Seq<Seq<Option<usize>>>, w: int, h: int)
    requires
        has_shape(g, w, h),
        forall|x: int, y: int| 0 <= x < w && 0 <= y < h ==> (#[trigger] g[x][y]) is None,
    ensures
        count_grid(g, is_set()) == 0,
    decreases g.len(),
{
    if g.len() > 0 {
        assert(has_shape(g.drop_last(), w - 1, h));
        lemma_count_grid_none(g.drop_last(), w - 1, h);
        assert forall|y: int| 0 <= y < g.last().len() implies g.last()[y] is None by {
            assert(g[w - 1][y] is None);
        }
        lemma_count_row_none(g.last());
    }
}

// ───────────────────────── walks: basic facts ─────────────────────────

proof fn lemma_step_adjacent(c: (int, int), k: int)
    requires
        0 <= k < 4,
    ensures
        adjacent(c, step_dir(c, k)),
{
}

/// A walk extended by one adjacent passable cell is a walk.
proof fn lemma_walk_extend(walls: Seq<Seq<bool>>, p: Seq<(int, int)>, a: (int, int), b: (int, int), n: nat, c: (int, int))
    requires
        walk_of(walls, p, a, b, n),
        adjacent(b, c),
        passable(walls, c),
    ensures
        walk_of(walls, p.push(c), a, c, n + 1),
{
    let q = p.push(c);
    assert forall|i: int| 1 <= i < q.len() implies passable(walls, #[trigger] q[i]) by {
        if i < p.len() {
            assert(q[i] == p[i]);
        }
    }
    assert forall|i: int| 0 <= i < q.len() - 1 implies adjacent(#[trigger] q[i], q[i + 1]) by {
        if i < p.len() - 1 {
            assert(q[i] == p[i] && q[i + 1] == p[i + 1]);
        }
    }
}

/// A prefix of a walk is a walk.
proof fn lemma_walk_prefix(walls: Seq<Seq<bool>>, p: Seq<(int, int)>, a: (int, int), b: (int, int), n: nat, m: nat)
    requires
        walk_of(walls, p, a, b, n),
        m <= n,
    ensures
        walk_of(walls, p.take(m as int + 1), a, p[m as int], m),
{
    let q = p.take(m as int + 1);
    assert forall|i: int| 1 <= i < q.len() implies passable(walls, #[trigger] q[i]) by {
        assert(q[i] == p[i]);
    }
    assert forall|i: int| 0 <= i < q.len() - 1 implies adjacent(#[trigger] q[i], q[i + 1]) by {
        assert(q[i] == p[i] && q[i + 1] == p[i + 1]);
    }
}

/// A set of cells that contains `a` and every passable neighbour of its
/// members contains every cell reachable from `a`.
proof fn lemma_closed_contains_walk(
    walls: Seq<Seq<bool>>,
    inside: spec_fn((int, int)) -> bool,
    p: Seq<(int, int)>,
    a: (int, int),
    b: (int, int),
    n: nat,
)
    requires
        walk_of(walls, p, a, b, n),
        inside(a),
        forall|c: (int, int), k: int|
            #![trigger inside(c), step_dir(c, k)]
            inside(c) && 0 <= k < 4 && passable(walls, step_dir(c, k)) ==> inside(step_dir(c, k)),
    ensures
        inside(b),
    decreases n,
{
    if n > 0 {
        lemma_walk_prefix(walls, p, a, b, n, (n - 1) as nat);
        lemma_closed_contains_walk(walls, inside, p.take(n as int), a, p[n - 1], (n - 1) as nat);
        assert(adjacent(p[n - 1], p[n as int]));
        let k = choose|k: int| 0 <= k < 4 && p[n as int] == #[trigger] step_dir(p[n - 1], k);
        assert(passable(walls, p[n as int]));
    }
}

// ───────────────────────── exec helpers ─────────────────────────

/// The neighbour of `(cx, cy)` in direction `k`, if it lies in a `w × h` grid.
fn neighbour(cx: usize, cy: usize, k: usize, w: usize, h: usize) -> (r: Option<(usize, usize)>)
    requires
        k < 4,
    ensures
        match r {
            Some(c) => c.0 < w && c.1 < h && (c.0 as int, c.1 as int) == step_dir((cx as int, cy as int), k as int),
            None => !(0 <= step_dir((cx as int, cy as int), k as int).0 < w && 0 <= step_dir((cx as int, cy as int), k as int).1 < h),
        },
{
    if k == 0 {
        if cy == 0 || cx >= w || cy - 1 >= h { None } else { Some((cx, cy - 1)) }
    } else if k == 1 {
        if cx >= w || cy >= h || cy + 1 >= h { None } else { Some((cx, cy + 1)) }
    } else if k == 2 {
        if cy >= h || cx >= w || cx + 1 >= w { None } else { Some((cx + 1, cy)) }
    } else {
        if cx == 0 || cy >= h || cx - 1 >= w { None } else { Some((cx - 1, cy)) }
    }
}

/// A `w × h` grid filled with `val`.
fn filled<T: Copy>(w: usize, h: usize, val: T) -> (g: Vec<Vec<T>>)
    ensures
        has_shape(view2(g@), w as int, h as int),
        forall|x: int, y: int| 0 <= x < w && 0 <= y < h ==> #[trigger] view2(g@)[x][y] == val,
{
    let mut g: Vec<Vec<T>> = Vec::new();
    let mut x: usize = 0;
    while x < w
        invariant
            x <= w,
            g.len() == x,
            forall|i: int| 0 <= i < x ==> (#[trigger] g@[i])@.len() == h,
            forall|i: int, y: int| 0 <= i < x && 0 <= y < h ==> #[trigger] g@[i]@[y] == val,
        decreases w - x,
    {
        let mut row: Vec<T> = Vec::new();
        let mut y: usize = 0;
        while y < h
            invariant
                y <= h,
                row.len() == y,
                forall|j: int| 0 <= j < y ==> row@[j] == val,
            decreases h - y,
        {
            row.push(val);
            y += 1;
        }
        g.push(row);
        x += 1;
    }
    g
}

// ───────────────────────── flood fill ─────────────────────────

/// The marking predicate of a grid of flags.
pub open spec fn flag() -> spec_fn(bool) -> bool {
    |b: bool| b
}

/// Every passable neighbour of `c` is marked.
spec fn expanded(walls: Seq<Seq<bool>>, vis: Seq<Seq<bool>>, c: (int, int)) -> bool {
    forall|k: int|
        0 <= k < 4 && passable(walls, #[trigger] step_dir(c, k)) ==> vis[step_dir(c, k).0][step_dir(c, k).1]
}

/// Each marked cell is reachable from the start, which is passable.
spec fn fill_sound(walls: Seq<Seq<bool>>, vis: Seq<Seq<bool>>, s: (int, int)) -> bool {
    forall|x: int, y: int|
        in_grid(walls, (x, y)) && #[trigger] vis[x][y] ==> passable(walls, s) && reachable(walls, s, (x, y))
}

/// Each marked cell is expanded, queued, or the one being expanded.
spec fn fill_frontier(walls: Seq<Seq<bool>>, vis: Seq<Seq<bool>>, q: Seq<(usize, usize)>, cur: (int, int)) -> bool {
    forall|x: int, y: int|
        in_grid(walls, (x, y)) && #[trigger] vis[x][y] ==> expanded(walls, vis, (x, y)) || q.contains(
            (x as usize, y as usize),
        ) || (x, y) == cur
}

/// Every queued cell is in the grid and marked.
spec fn queue_marked(vis: Seq<Seq<bool>>, q: Seq<(usize, usize)>, w: int, h: int) -> bool {
    forall|i: int| 0 <= i < q.len() ==> (#[trigger] q[i]).0 < w && q[i].1 < h && vis[q[i].0 as int][q[i].1 as int]
}

/// The cells reachable from `start` through passable cells (the start itself
/// included), or none at all when `start` is a wall.
pub fn flood_fill(walls: &[Vec<bool>], start: (usize, usize)) -> (visited: Vec<Vec<bool>>)
    requires
        is_grid(view2(walls@)),
        in_grid(view2(walls@), (start.0 as int, start.1 as int)),
    ensures
        has_shape(view2(visited@), walls@.len() as int, walls@[0]@.len() as int),
        forall|x: int, y: int|
            in_grid(view2(walls@), (x, y)) ==> #[trigger] view2(visited@)[x][y] == (passable(
                view2(walls@),
                (start.0 as int, start.1 as int),
            ) && reachable(view2(walls@), (start.0 as int, start.1 as int), (x, y))),
{
    let ghost g = view2(walls@);
    let ghost s = (start.0 as int, start.1 as int);
    let w = walls.len();
    let h = walls[0].len();
    assert(g[0].len() == h);
    let mut visited = filled(w, h, false);
    proof {
        assert(count_grid(view2(visited@), flag()) == 0) by {
            lemma_count_grid_zero(view2(visited@), w as int, h as int);
        }
    }
    let mut q: VecDeque<(usize, usize)> = VecDeque::new();
    assert(g[start.0 as int] == walls@[start.0 as int]@);
    assert(g[start.0 as int].len() >= h);
    assert(view2(visited@)[start.0 as int] == visited@[start.0 as int]@);
    let ghost v_init = view2(visited@);
    if !walls[start.0][start.1] {
        let ghost v0 = view2(visited@);
        visited[start.0][start.1] = true;
        proof {
            assert(view2(visited@) =~= v0.update(s.0, v0[s.0].update(s.1, true)));
            lemma_count_row_update(v0[s.0], flag(), s.1, true);
            lemma_count_grid_update(v0, flag(), s.0, v0[s.0].update(s.1, true));
            let p = seq![s];
            assert(walk_of(g, p, s, s, 0));
            assert(reaches_in(g, s, s, 0));
        }
        q.push_back(start);
    }
    proof {
        lemma_count_grid_le(view2(visited@), flag(), h as int);
        let v = view2(visited@);
        assert forall|x: int, y: int|
            in_grid(g, (x, y)) && #[trigger] v[x][y] implies expanded(g, v, (x, y)) || q@.contains(
            (x as usize, y as usize),
        ) || (x, y) == (-1int, -1int) by {
            if (x, y) != s {
                assert(!v_init[x][y]);
            } else {
                assert(q@[0] == start);
            }
        }
    }
    while q.len() > 0
        invariant
            g == view2(walls@),
            is_grid(g),
            w == g.len(),
            h == g[0].len(),
            s == (start.0 as int, start.1 as int),
            in_grid(g, s),
            has_shape(view2(visited@), w as int, h as int),
            fill_sound(g, view2(visited@), s),
            passable(g, s) ==> view2(visited@)[s.0][s.1],
            queue_marked(view2(visited@), q@, w as int, h as int),
            fill_frontier(g, view2(visited@), q@, (-1, -1)),
            count_grid(view2(visited@), flag()) <= w * h,
        decreases 2 * (w * h - count_grid(view2(visited@), flag())) + q@.len(),
    {
        let ghost m0 = 2 * (w * h - count_grid(view2(visited@), flag())) + q@.len();
        let ghost q0 = q@;
        let (cx, cy) = q.pop_front().unwrap();
        let ghost c = (cx as int, cy as int);
        assert(queue_marked(view2(visited@), q0, w as int, h as int));
        assert(q0[0] == (cx, cy));
        proof {
            assert forall|x: int, y: int|
                in_grid(g, (x, y)) && #[trigger] view2(visited@)[x][y] implies expanded(
                g,
                view2(visited@),
                (x, y),
            ) || q@.contains((x as usize, y as usize)) || (x, y) == c by {
                if q0.contains((x as usize, y as usize)) && (x, y) != c {
                    let i = choose|i: int| 0 <= i < q0.len() && q0[i] == (x as usize, y as usize);
                    assert(i != 0);
                    assert(q@[i - 1] == q0[i]);
                }
            }
        }
        let mut k: usize = 0;
        while k < 4
            invariant
                g == view2(walls@),
                is_grid(g),
                w == g.len(),
                h == g[0].len(),
                s == (start.0 as int, start.1 as int),
                in_grid(g, s),
                c == (cx as int, cy as int),
                cx < w,
                cy < h,
                k <= 4,
                has_shape(view2(visited@), w as int, h as int),
                view2(visited@)[cx as int][cy as int],
                fill_sound(g, view2(visited@), s),
                passable(g, s) ==> view2(visited@)[s.0][s.1],
                queue_marked(view2(visited@), q@, w as int, h as int),
                fill_frontier(g, view2(visited@), q@, c),
                forall|j: int|
                    0 <= j < k && passable(g, #[trigger] step_dir(c, j)) ==> view2(visited@)[step_dir(
                        c,
                        j,
                    ).0][step_dir(c, j).1],
                count_grid(view2(visited@), flag()) <= w * h,
                2 * (w * h - count_grid(view2(visited@), flag())) + q@.len() < m0,
            decreases 4 - k,
        {
            match neighbour(cx, cy, k, w, h) {
                Some((nx, ny)) => {
                    if !walls[nx][ny] && !visited[nx][ny] {
                        let ghost v0 = view2(visited@);
                        let ghost q1 = q@;
                        let ghost n = (nx as int, ny as int);
                        proof {
                            assert(v0[c.0][c.1]);
                            assert(reachable(g, s, c));
                            let len = choose|len: nat| #[trigger] reaches_in(g, s, c, len);
                            let p = choose|p: Seq<(int, int)>| #[trigger] walk_of(g, p, s, c, len);
                            lemma_step_adjacent(c, k as int);
                            lemma_walk_extend(g, p, s, c, len, n);
                            assert(reaches_in(g, s, n, len + 1));
                        }
                        visited[nx][ny] = true;
                        q.push_back((nx, ny));
                        proof {
                            let v1 = view2(visited@);
                            assert(v1 =~= v0.update(nx as int, v0[nx as int].update(ny as int, true)));
                            lemma_count_row_update(v0[nx as int], flag(), ny as int, true);
                            lemma_count_grid_update(v0, flag(), nx as int, v0[nx as int].update(ny as int, true));
                            lemma_count_grid_le(v1, flag(), h as int);
                            assert(reachable(g, s, n));
                            assert forall|x: int, y: int|
                                in_grid(g, (x, y)) && #[trigger] v1[x][y] implies passable(g, s) && reachable(g, s, (x, y)) by {
                                if (x, y) != n {
                                    assert(v0[x][y]);
                                }
                            }
                            assert forall|i: int| 0 <= i < q@.len() implies (#[trigger] q@[i]).0 < w && q@[i].1 < h
                                && v1[q@[i].0 as int][q@[i].1 as int] by {
                                if i < q1.len() {
                                    assert(q@[i] == q1[i]);
                                }
                            }
                            assert forall|x: int, y: int|
                                in_grid(g, (x, y)) && #[trigger] v1[x][y] implies expanded(g, v1, (x, y)) || q@.contains(
                                (x as usize, y as usize),
                            ) || (x, y) == c by {
                                if (x, y) == n {
                                    assert(q@[q@.len() - 1] == (x as usize, y as usize));
                                } else {
                                    assert(v0[x][y]);
                                    if expanded(g, v0, (x, y)) {
                                        assert forall|j: int|
                                            0 <= j < 4 && passable(g, #[trigger] step_dir((x, y), j)) implies v1[step_dir(
                                            (x, y),
                                            j,
                                        ).0][step_dir((x, y), j).1] by {
                                            assert(v0[step_dir((x, y), j).0][step_dir((x, y), j).1]);
                                        }
                                    } else if q1.contains((x as usize, y as usize)) {
                                        let i = choose|i: int| 0 <= i < q1.len() && q1[i] == (x as usize, y as usize);
                                        assert(q@[i] == q1[i]);
                                    }
                                }
                            }
                            assert forall|j: int|
                                0 <= j < k + 1 && passable(g, #[trigger] step_dir(c, j)) implies v1[step_dir(
                                c,
                                j,
                            ).0][step_dir(c, j).1] by {
                                if j < k {
                                    assert(v0[step_dir(c, j).0][step_dir(c, j).1]);
                                }
                            }
                        }
                    }
                },
                None => {},
            }
            k += 1;
        }
        proof {
            let v = view2(visited@);
            assert(expanded(g, v, c));
            assert forall|x: int, y: int|
                in_grid(g, (x, y)) && #[trigger] v[x][y] implies expanded(g, v, (x, y)) || q@.contains(
                (x as usize, y as usize),
            ) || (x, y) == (-1int, -1int) by {
                if (x, y) == c {
                    assert(expanded(g, v, c));
                }
            }
        }
    }
    proof {
        let v = view2(visited@);
        let inside = |c: (int, int)| in_grid(g, c) && v[c.0][c.1];
        assert forall|c: (int, int), k: int|
            #![trigger inside(c), step_dir(c, k)]
            inside(c) && 0 <= k < 4 && passable(g, step_dir(c, k)) implies inside(step_dir(c, k)) by {
            assert(expanded(g, v, c) || q@.contains((c.0 as usize, c.1 as usize)) || c == (-1int, -1int));
        }
        assert forall|x: int, y: int| in_grid(g, (x, y)) implies #[trigger] v[x][y] == (passable(g, s)
            && reachable(g, s, (x, y))) by {
            if passable(g, s) && reachable(g, s, (x, y)) {
                let len = choose|len: nat| #[trigger] reaches_in(g, s, (x, y), len);
                let p = choose|p: Seq<(int, int)>| #[trigger] walk_of(g, p, s, (x, y), len);
                lemma_closed_contains_walk(g, inside, p, s, (x, y), len);
            }
        }
    }
    visited
}

// ───────────────────────── breadth-first distances ─────────────────────────

/// The counting predicate of a grid of optional distances.
pub open spec fn is_set() -> spec_fn(Option<usize>) -> bool {
    |o: Option<usize>| o is Some
}

/// Whether `d` is the length of a shortest walk from `a` to `b`.
pub open spec fn shortest(walls: Seq<Seq<bool>>, a: (int, int), b: (int, int), d: nat) -> bool {
    &&& reaches_in(walls, a, b, d)
    &&& forall|n: nat| #[trigger] reaches_in(walls, a, b, n) ==> d <= n
}

/// The distance recorded for a cell, or −1.
spec fn dval(dist: Seq<Seq<Option<usize>>>, c: (usize, usize)) -> int {
    match dist[c.0 as int][c.1 as int] {
        Some(d) => d as int,
        None => -1,
    }
}

/// Every passable neighbour of `c` has a distance.
spec fn expanded_d(walls: Seq<Seq<bool>>, dist: Seq<Seq<Option<usize>>>, c: (int, int)) -> bool {
    forall|k: int|
        0 <= k < 4 && passable(walls, #[trigger] step_dir(c, k)) ==> dist[step_dir(c, k).0][step_dir(c, k).1] is Some
}

/// Each recorded distance is the length of some walk from the goal.
spec fn dist_sound(walls: Seq<Seq<bool>>, dist: Seq<Seq<Option<usize>>>, goal: (int, int)) -> bool {
    forall|x: int, y: int|
        in_grid(walls, (x, y)) && (#[trigger] dist[x][y]) is Some ==> reaches_in(walls, goal, (x, y), dist[x][y]->0 as nat)
}

/// No walk from the goal is shorter than a recorded distance.
spec fn dist_minimal(walls: Seq<Seq<bool>>, dist: Seq<Seq<Option<usize>>>, goal: (int, int)) -> bool {
    forall|x: int, y: int, n: nat|
        #![trigger reaches_in(walls, goal, (x, y), n), dist[x][y]]
        in_grid(walls, (x, y)) && dist[x][y] is Some && reaches_in(walls, goal, (x, y), n) ==> dist[x][y]->0 <= n
}

/// Each cell with a distance is expanded, queued, or the one being expanded.
spec fn dist_frontier(walls: Seq<Seq<bool>>, dist: Seq<Seq<Option<usize>>>, q: Seq<(usize, usize)>, cur: (int, int)) -> bool {
    forall|x: int, y: int|
        in_grid(walls, (x, y)) && (#[trigger] dist[x][y]) is Some ==> expanded_d(walls, dist, (x, y)) || q.contains(
            (x as usize, y as usize),
        ) || (x, y) == cur
}

/// Every walk from the goal to a cell without distance is longer than `f`.
spec fn unset_far(walls: Seq<Seq<bool>>, dist: Seq<Seq<Option<usize>>>, goal: (int, int), f: int) -> bool {
    forall|x: int, y: int, n: nat|
        #![trigger reaches_in(walls, goal, (x, y), n), dist[x][y]]
        in_grid(walls, (x, y)) && dist[x][y] is None && reaches_in(walls, goal, (x, y), n) ==> n > f
}

/// The queue holds cells with distances in `lo..=lo + 1`, in nondecreasing order.
spec fn queue_levels(dist: Seq<Seq<Option<usize>>>, q: Seq<(usize, usize)>, w: int, h: int, lo: int) -> bool {
    &&& forall|i: int|
        0 <= i < q.len() ==> (#[trigger] q[i]).0 < w && q[i].1 < h && dist[q[i].0 as int][q[i].1 as int] is Some
            && lo <= dval(dist, q[i]) <= lo + 1
    &&& forall|i: int, j: int| 0 <= i < j < q.len() ==> dval(dist, #[trigger] q[i]) <= dval(dist, #[trigger] q[j])
}

/// Every recorded distance is below the number of cells with a distance.
spec fn dist_bounded(dist: Seq<Seq<Option<usize>>>, cnt: nat) -> bool {
    forall|x: int, y: int| 0 <= x < dist.len() && 0 <= y < dist[x].len() && (#[trigger] dist[x][y]) is Some ==> dist[x][y]->0 < cnt
}

/// For every cell, the number of steps of a shortest walk from `goal` through
/// passable cells, or `None` when the cell cannot be reached. The goal itself
/// gets distance 0 even when it is a wall.
pub fn bfs_distance(walls: &[Vec<bool>], goal: (usize, usize)) -> (dist: Vec<Vec<Option<usize>>>)
    requires
        is_grid(view2(walls@)),
        in_grid(view2(walls@), (goal.0 as int, goal.1 as int)),
        walls@.len() * walls@[0]@.len() <= usize::MAX,
    ensures
        has_shape(view2(dist@), walls@.len() as int, walls@[0]@.len() as int),
        forall|x: int, y: int|
            in_grid(view2(walls@), (x, y)) ==> match #[trigger] view2(dist@)[x][y] {
                Some(d) => shortest(view2(walls@), (goal.0 as int, goal.1 as int), (x, y), d as nat),
                None => !reachable(view2(walls@), (goal.0 as int, goal.1 as int), (x, y)),
            },
{
    let ghost g = view2(walls@);
    let ghost gl = (goal.0 as int, goal.1 as int);
    let w = walls.len();
    let h = walls[0].len();
    assert(g[0].len() == h);
    let mut dist: Vec<Vec<Option<usize>>> = filled(w, h, None);
    let ghost d_init = view2(dist@);
    proof {
        lemma_count_grid_none(d_init, w as int, h as int);
    }
    let mut q: VecDeque<(usize, usize)> = VecDeque::new();
    assert(view2(dist@)[goal.0 as int] == dist@[goal.0 as int]@);
    dist[goal.0][goal.1] = Some(0);
    q.push_back(goal);
    proof {
        let d1 = view2(dist@);
        assert(d1 =~= d_init.update(gl.0, d_init[gl.0].update(gl.1, Some(0usize))));
        lemma_count_row_update(d_init[gl.0], is_set(), gl.1, Some(0usize));
        lemma_count_grid_update(d_init, is_set(), gl.0, d_init[gl.0].update(gl.1, Some(0usize)));
        lemma_count_grid_le(d1, is_set(), h as int);
        assert(walk_of(g, seq![gl], gl, gl, 0));
        assert(reaches_in(g, gl, gl, 0));
        assert forall|x: int, y: int, n: nat|
            #![trigger reaches_in(g, gl, (x, y), n), d1[x][y]]
            in_grid(g, (x, y)) && d1[x][y] is None && reaches_in(g, gl, (x, y), n) implies n > 0 by {
            if n == 0 {
                let p = choose|p: Seq<(int, int)>| #[trigger] walk_of(g, p, gl, (x, y), n);
                assert(p[0] == p.last());
            }
        }
        assert forall|x: int, y: int|
            in_grid(g, (x, y)) && (#[trigger] d1[x][y]) is Some implies expanded_d(g, d1, (x, y)) || q@.contains(
            (x as usize, y as usize),
        ) || (x, y) == (-1int, -1int) by {
            if (x, y) != gl {
                assert(d_init[x][y] is None);
            } else {
                assert(q@[0] == goal);
            }
        }
        assert forall|x: int, y: int| in_grid(g, (x, y)) && (#[trigger] d1[x][y]) is Some implies reaches_in(
            g,
            gl,
            (x, y),
            d1[x][y]->0 as nat,
        ) by {
            if (x, y) != gl {
                assert(d_init[x][y] is None);
            }
        }
        assert forall|x: int, y: int|
            0 <= x < d1.len() && 0 <= y < d1[x].len() && (#[trigger] d1[x][y]) is Some implies d1[x][y]->0 < 1nat by {
            if (x, y) != gl {
                assert(d_init[x][y] is None);
            }
        }
    }
    while q.len() > 0
        invariant
            g == view2(walls@),
            is_grid(g),
            w == g.len(),
            h == g[0].len(),
            w * h <= usize::MAX,
            gl == (goal.0 as int, goal.1 as int),
            in_grid(g, gl),
            has_shape(view2(dist@), w as int, h as int),
            view2(dist@)[gl.0][gl.1] is Some,
            dist_sound(g, view2(dist@), gl),
            dist_minimal(g, view2(dist@), gl),
            dist_frontier(g, view2(dist@), q@, (-1, -1)),
            q@.len() > 0 ==> queue_levels(view2(dist@), q@, w as int, h as int, dval(view2(dist@), q@[0])),
            q@.len() > 0 ==> unset_far(g, view2(dist@), gl, dval(view2(dist@), q@[0])),
            dist_bounded(view2(dist@), count_grid(view2(dist@), is_set())),
            count_grid(view2(dist@), is_set()) <= w * h,
        decreases 2 * (w * h - count_grid(view2(dist@), is_set())) + q@.len(),
    {
        let ghost m0 = 2 * (w * h - count_grid(view2(dist@), is_set())) + q@.len();
        let ghost q0 = q@;
        let ghost dd = view2(dist@);
        let ghost f = dval(dd, q0[0]);
        let (cx, cy) = q.pop_front().unwrap();
        let ghost c = (cx as int, cy as int);
        assert(q0[0] == (cx, cy));
        assert(dd[cx as int] == dist@[cx as int]@);
        let dc = dist[cx][cy].unwrap();
        assert(dc == f);
        proof {
            assert forall|x: int, y: int|
                in_grid(g, (x, y)) && (#[trigger] dd[x][y]) is Some implies expanded_d(g, dd, (x, y)) || q@.contains(
                (x as usize, y as usize),
            ) || (x, y) == c by {
                if q0.contains((x as usize, y as usize)) && (x, y) != c {
                    let i = choose|i: int| 0 <= i < q0.len() && q0[i] == (x as usize, y as usize);
                    assert(i != 0);
                    assert(q@[i - 1] == q0[i]);
                }
            }
            assert forall|i: int| 0 <= i < q@.len() implies (#[trigger] q@[i]).0 < w && q@[i].1 < h && dd[q@[i].0 as int][q@[i].1 as int] is Some
                && f <= dval(dd, q@[i]) <= f + 1 by {
                assert(q@[i] == q0[i + 1]);
            }
            assert forall|i: int, j: int| 0 <= i < j < q@.len() implies dval(dd, #[trigger] q@[i]) <= dval(dd, #[trigger] q@[j]) by {
                assert(q@[i] == q0[i + 1] && q@[j] == q0[j + 1]);
            }
            assert(dist_bounded(dd, count_grid(dd, is_set())));
            assert(dd[cx as int][cy as int] is Some);
        }
        let mut k: usize = 0;
        while k < 4
            invariant
                g == view2(walls@),
                is_grid(g),
                w == g.len(),
                h == g[0].len(),
                w * h <= usize::MAX,
                gl == (goal.0 as int, goal.1 as int),
                in_grid(g, gl),
                c == (cx as int, cy as int),
                cx < w,
                cy < h,
                k <= 4,
                dc == f,
                f >= 0,
                has_shape(view2(dist@), w as int, h as int),
                view2(dist@)[cx as int][cy as int] == Some(dc),
                view2(dist@)[gl.0][gl.1] is Some,
                dist_sound(g, view2(dist@), gl),
                dist_minimal(g, view2(dist@), gl),
                dist_frontier(g, view2(dist@), q@, c),
                forall|i: int|
                    0 <= i < q@.len() ==> (#[trigger] q@[i]).0 < w && q@[i].1 < h && view2(dist@)[q@[i].0 as int][q@[i].1 as int] is Some
                        && f <= dval(view2(dist@), q@[i]) <= f + 1,
                forall|i: int, j: int| 0 <= i < j < q@.len() ==> dval(view2(dist@), #[trigger] q@[i]) <= dval(view2(dist@), #[trigger] q@[j]),
                unset_far(g, view2(dist@), gl, f),
                forall|j: int|
                    0 <= j < k && passable(g, #[trigger] step_dir(c, j)) ==> view2(dist@)[step_dir(c, j).0][step_dir(
                        c,
                        j,
                    ).1] is Some,
                dist_bounded(view2(dist@), count_grid(view2(dist@), is_set())),
                count_grid(view2(dist@), is_set()) <= w * h,
                2 * (w * h - count_grid(view2(dist@), is_set())) + q@.len() < m0,
            decreases 4 - k,
        {
            match neighbour(cx, cy, k, w, h) {
                Some((nx, ny)) => {
                    let ghost d0 = view2(dist@);
                    assert(d0[nx as int] == dist@[nx as int]@);
                    assert(g[nx as int] == walls@[nx as int]@);
                    if !walls[nx][ny] && dist[nx][ny].is_none() {
                        let ghost q1 = q@;
                        let ghost n = (nx as int, ny as int);
                        let ghost cnt0 = count_grid(d0, is_set());
                        proof {
                            lemma_count_row_update(d0[nx as int], is_set(), ny as int, Some((dc + 1) as usize));
                            lemma_count_grid_update(d0, is_set(), nx as int, d0[nx as int].update(ny as int, Some((dc + 1) as usize)));
                            assert(count_grid(d0.update(nx as int, d0[nx as int].update(ny as int, Some((dc + 1) as usize))), is_set()) <= w * h) by {
                                lemma_count_grid_le(d0.update(nx as int, d0[nx as int].update(ny as int, Some((dc + 1) as usize))), is_set(), h as int);
                            }
                            assert(dc < cnt0);
                        }
                        let nd = dc + 1;
                        proof {
                            let len = dc as nat;
                            assert(reaches_in(g, gl, c, len));
                            let p = choose|p: Seq<(int, int)>| #[trigger] walk_of(g, p, gl, c, len);
                            lemma_step_adjacent(c, k as int);
                            lemma_walk_extend(g, p, gl, c, len, n);
                            assert(reaches_in(g, gl, n, len + 1));
                        }
                        dist[nx][ny] = Some(nd);
                        q.push_back((nx, ny));
                        proof {
                            let d1 = view2(dist@);
                            assert(d1 =~= d0.update(nx as int, d0[nx as int].update(ny as int, Some(nd))));
                            let cnt1 = count_grid(d1, is_set());
                            assert(cnt1 == cnt0 + 1);
                            assert forall|x: int, y: int| in_grid(g, (x, y)) && (#[trigger] d1[x][y]) is Some implies reaches_in(
                                g,
                                gl,
                                (x, y),
                                d1[x][y]->0 as nat,
                            ) by {
                                if (x, y) != n {
                                    assert(d0[x][y] == d1[x][y]);
                                }
                            }
                            assert forall|x: int, y: int, m: nat|
                                #![trigger reaches_in(g, gl, (x, y), m), d1[x][y]]
                                in_grid(g, (x, y)) && d1[x][y] is Some && reaches_in(g, gl, (x, y), m) implies d1[x][y]->0 <= m by {
                                if (x, y) != n {
                                    assert(d0[x][y] == d1[x][y]);
                                } else {
                                    assert(d0[x][y] is None);
                                }
                            }
                            assert forall|x: int, y: int, m: nat|
                                #![trigger reaches_in(g, gl, (x, y), m), d1[x][y]]
                                in_grid(g, (x, y)) && d1[x][y] is None && reaches_in(g, gl, (x, y), m) implies m > f by {
                                assert(d0[x][y] == d1[x][y]);
                            }
                            assert forall|x: int, y: int|
                                0 <= x < d1.len() && 0 <= y < d1[x].len() && (#[trigger] d1[x][y]) is Some implies d1[x][y]->0 < cnt1 by {
                                if (x, y) != n {
                                    assert(d0[x][y] == d1[x][y]);
                                }
                            }
                            assert forall|i: int|
                                0 <= i < q@.len() implies (#[trigger] q@[i]).0 < w && q@[i].1 < h && d1[q@[i].0 as int][q@[i].1 as int] is Some
                                    && f <= dval(d1, q@[i]) <= f + 1 by {
                                if i < q1.len() {
                                    assert(q@[i] == q1[i]);
                                    assert(d0[q1[i].0 as int][q1[i].1 as int] is Some);
                                    assert(q1[i] != (nx, ny));
                                }
                            }
                            assert forall|i: int, j: int| 0 <= i < j < q@.len() implies dval(d1, #[trigger] q@[i]) <= dval(d1, #[trigger] q@[j]) by {
                                assert(q@[i] == q1[i]);
                                assert(d0[q1[i].0 as int][q1[i].1 as int] is Some);
                                assert(q1[i] != (nx, ny));
                                if j < q1.len() {
                                    assert(q@[j] == q1[j]);
                                    assert(d0[q1[j].0 as int][q1[j].1 as int] is Some);
                                    assert(q1[j] != (nx, ny));
                                }
                            }
                            assert forall|x: int, y: int|
                                in_grid(g, (x, y)) && (#[trigger] d1[x][y]) is Some implies expanded_d(g, d1, (x, y)) || q@.contains(
                                (x as usize, y as usize),
                            ) || (x, y) == c by {
                                if (x, y) == n {
                                    assert(q@[q@.len() - 1] == (x as usize, y as usize));
                                } else {
                                    assert(d0[x][y] is Some);
                                    if expanded_d(g, d0, (x, y)) {
                                        assert forall|j: int|
                                            0 <= j < 4 && passable(g, #[trigger] step_dir((x, y), j)) implies d1[step_dir(
                                            (x, y),
                                            j,
                                        ).0][step_dir((x, y), j).1] is Some by {
                                            assert(d0[step_dir((x, y), j).0][step_dir((x, y), j).1] is Some);
                                        }
                                    } else if q1.contains((x as usize, y as usize)) {
                                        let i = choose|i: int| 0 <= i < q1.len() && q1[i] == (x as usize, y as usize);
                                        assert(q@[i] == q1[i]);
                                    }
                                }
                            }
                            assert forall|j: int|
                                0 <= j < k + 1 && passable(g, #[trigger] step_dir(c, j)) implies d1[step_dir(c, j).0][step_dir(
                                c,
                                j,
                            ).1] is Some by {
                                if j < k {
                                    assert(d0[step_dir(c, j).0][step_dir(c, j).1] is Some);
                                }
                            }
                        }
                    }
                },
                None => {},
            }
            k += 1;
        }
        proof {
            let d = view2(dist@);
            assert(expanded_d(g, d, c));
            assert forall|x: int, y: int|
                in_grid(g, (x, y)) && (#[trigger] d[x][y]) is Some implies expanded_d(g, d, (x, y)) || q@.contains(
                (x as usize, y as usize),
            ) || (x, y) == (-1int, -1int) by {
                if (x, y) == c {
                    assert(expanded_d(g, d, c));
                }
            }
            if q@.len() > 0 {
                let f2 = dval(d, q@[0]);
                assert(f <= f2 <= f + 1);
                assert forall|i: int|
                    0 <= i < q@.len() implies (#[trigger] q@[i]).0 < w && q@[i].1 < h && d[q@[i].0 as int][q@[i].1 as int] is Some
                        && f2 <= dval(d, q@[i]) <= f2 + 1 by {
                    if i > 0 {
                        assert(dval(d, q@[0]) <= dval(d, q@[i]));
                    }
                }
                if f2 == f + 1 {
                    assert forall|x: int, y: int, m: nat|
                        #![trigger reaches_in(g, gl, (x, y), m), d[x][y]]
                        in_grid(g, (x, y)) && d[x][y] is None && reaches_in(g, gl, (x, y), m) implies m > f2 by {
                        if m == f + 1 {
                            let p = choose|p: Seq<(int, int)>| #[trigger] walk_of(g, p, gl, (x, y), m);
                            lemma_walk_prefix(g, p, gl, (x, y), m, f as nat);
                            let yc = p[f];
                            assert(reaches_in(g, gl, yc, f as nat));
                            assert(in_grid(g, yc));
                            assert(d[yc.0][yc.1] is Some);
                            assert(d[yc.0][yc.1]->0 <= f);
                            if q@.contains((yc.0 as usize, yc.1 as usize)) {
                                let i = choose|i: int| 0 <= i < q@.len() && q@[i] == (yc.0 as usize, yc.1 as usize);
                                assert(dval(d, q@[i]) >= f2);
                            }
                            assert(expanded_d(g, d, yc));
                            assert(adjacent(p[f], p[f + 1]));
                            let kk = choose|kk: int| 0 <= kk < 4 && p[f + 1] == #[trigger] step_dir(p[f], kk);
                            assert(passable(g, p[f + 1]));
                            assert(p[f + 1] == p.last());
                        }
                    }
                }
            }
        }
    }
    proof {
        let d = view2(dist@);
        let inside = |c: (int, int)| in_grid(g, c) && d[c.0][c.1] is Some;
        assert forall|c: (int, int), k: int|
            #![trigger inside(c), step_dir(c, k)]
            inside(c) && 0 <= k < 4 && passable(g, step_dir(c, k)) implies inside(step_dir(c, k)) by {
            assert(expanded_d(g, d, c) || q@.contains((c.0 as usize, c.1 as usize)) || c == (-1int, -1int));
        }
        assert forall|x: int, y: int| in_grid(g, (x, y)) implies match #[trigger] d[x][y] {
            Some(dv) => shortest(g, gl, (x, y), dv as nat),
            None => !reachable(g, gl, (x, y)),
        } by {
            if d[x][y] is None && reachable(g, gl, (x, y)) {
                let len = choose|len: nat| #[trigger] reaches_in(g, gl, (x, y), len);
                let p = choose|p: Seq<(int, int)>| #[trigger] walk_of(g, p, gl, (x, y), len);
                lemma_closed_contains_walk(g, inside, p, gl, (x, y), len);
            }
        }
    }
    dist
}

// ───────────────────────── the grid world ─────────────────────────

/// The largest distance recorded in `dist`, or `dflt` when no cell has one.
pub open spec fn is_max_dist(dist: Seq<Seq<Option<usize>>>, m: usize, dflt: usize) -> bool {
    ||| (exists|x: int, y: int|
        0 <= x < dist.len() && 0 <= y < dist[x].len() && #[trigger] dist[x][y] == Some(m))
        && (forall|x: int, y: int|
        0 <= x < dist.len() && 0 <= y < dist[x].len() && (#[trigger] dist[x][y]) is Some ==> dist[x][y]->0 <= m)
    ||| (forall|x: int, y: int| 0 <= x < dist.len() && 0 <= y < dist[x].len() ==> (#[trigger] dist[x][y]) is None)
        && m == dflt
}

/// `dist` holds, for each cell, the shortest walk length from `goal`, or `None`
/// when the cell cannot be reached.
pub open spec fn distances_from(walls: Seq<Seq<bool>>, goal: (int, int), dist: Seq<Seq<Option<usize>>>) -> bool {
    &&& has_shape(dist, walls.len() as int, walls[0].len() as int)
    &&& forall|x: int, y: int|
        in_grid(walls, (x, y)) ==> match #[trigger] dist[x][y] {
            Some(d) => shortest(walls, goal, (x, y), d as nat),
            None => !reachable(walls, goal, (x, y)),
        }
}

/// The largest distance in a grid of optional distances, or `dflt` if none.
fn max_distance(dist: &Vec<Vec<Option<usize>>>, dflt: usize) -> (m: usize)
    ensures
        is_max_dist(view2(dist@), m, dflt),
{
    let ghost d = view2(dist@);
    let mut best: Option<usize> = None;
    let mut x: usize = 0;
    while x < dist.len()
        invariant
            x <= dist@.len(),
            d == view2(dist@),
            match best {
                Some(m) => (exists|i: int, j: int| 0 <= i < x && 0 <= j < d[i].len() && #[trigger] d[i][j] == Some(m))
                    && (forall|i: int, j: int| 0 <= i < x && 0 <= j < d[i].len() && (#[trigger] d[i][j]) is Some ==> d[i][j]->0 <= m),
                None => forall|i: int, j: int| 0 <= i < x && 0 <= j < d[i].len() ==> (#[trigger] d[i][j]) is None,
            },
        decreases dist@.len() - x,
    {
        let row = &dist[x];
        assert(d[x as int] == row@);
        let mut y: usize = 0;
        while y < row.len()
            invariant
                x < dist@.len(),
                y <= row@.len(),
                d == view2(dist@),
                d[x as int] == row@,
                match best {
                    Some(m) => (exists|i: int, j: int|
                        (0 <= i < x && 0 <= j < d[i].len() || i == x && 0 <= j < y) && #[trigger] d[i][j] == Some(m))
                        && (forall|i: int, j: int|
                        (0 <= i < x && 0 <= j < d[i].len() || i == x && 0 <= j < y) && (#[trigger] d[i][j]) is Some ==> d[i][j]->0 <= m),
                    None => forall|i: int, j: int|
                        (0 <= i < x && 0 <= j < d[i].len() || i == x && 0 <= j < y) ==> (#[trigger] d[i][j]) is None,
                },
            decreases row@.len() - y,
        {
            match row[y] {
                Some(v) => {
                    let ghost old_best = best;
                    match best {
                        Some(m) => {
                            if v > m {
                                best = Some(v);
                            }
                        },
                        None => {
                            best = Some(v);
                        },
                    }
                    proof {
                        assert(d[x as int][y as int] == Some(v));
                    }
                },
                None => {
                    assert(d[x as int][y as int] is None);
                },
            }
            y += 1;
        }
        x += 1;
    }
    assert(x == d.len());
    match best {
        Some(m) => m,
        None => dflt,
    }
}

/// One move attempt from `a` after `steps` of `max_steps`: the step counter
/// grows by one; a target that is a wall or outside is a bump (the episode
/// ends if the budget is spent); otherwise the agent moves, and the episode
/// ends on the goal or when the budget is spent.
pub open spec fn move_rule(
    walls: Seq<Seq<bool>>,
    a: (int, int),
    goal: (usize, usize),
    steps: usize,
    max_steps: usize,
    action: usize,
    o: MoveOutcome,
    agent2: (usize, usize),
    done2: bool,
    steps2: usize,
) -> bool {
    let n = steps + 1;
    let t = (a.0 + move_delta(action).0, a.1 + move_delta(action).1);
    &&& steps2 == n
    &&& if !passable(walls, t) {
        &&& o == MoveOutcome::Bumped
        &&& cell(agent2) == a
        &&& done2 == (n >= max_steps)
    } else {
        &&& cell(agent2) == t
        &&& if t == cell(goal) {
            o == MoveOutcome::Reached && done2
        } else if n >= max_steps {
            o == MoveOutcome::TimedOut && done2
        } else {
            o == MoveOutcome::Moved && !done2
        }
    }
}

/// A 2-D maze seen through four whiskers. The agent only measures distances
/// to walls; the reward shaping uses breadth-first distances to the goal.
pub struct GridWorld {
    pub width: usize,
    pub height: usize,
    pub walls: Vec<Vec<bool>>,
    pub goal: (usize, usize),
    pub start: (usize, usize),
    pub agent: (usize, usize),
    pub done: bool,
    pub steps: usize,
    pub max_steps: usize,
    pub bfs_dist: Vec<Vec<Option<usize>>>,
    pub max_bfs: usize,
    pub prev_pos: (usize, usize),
    pub visit_count: Vec<Vec<usize>>,
}

/// The walls of a random maze, from the draws for its interior cells: walls
/// all round the border, the draws inside, (1,1) free; then repair passes,
/// each finding the cells reached from (1,1) and knocking down, column by
/// column, every interior wall that touches a reached cell and unreached
/// floor, until a pass changes nothing; last, any floor still not reached
/// from (1,1) is walled up, so that the maze is connected.
pub fn maze_walls(width: usize, height: usize, draws: &[Vec<bool>]) -> (walls: Vec<Vec<bool>>)
    requires
        width >= 2,
        height >= 2,
        width * height <= usize::MAX,
        has_shape(view2(draws@), width as int, height as int),
    ensures
        has_shape(view2(walls@), width as int, height as int),
        view2(walls@) == sealed(
            repair(bordered(view2(draws@), width as int, height as int), width as int, height as int),
            width as int,
            height as int,
        ),
        forall|x: int, y: int|
            0 <= x < width && 0 <= y < height && on_border(width as int, height as int, (x, y)) && (x, y) != (1int, 1int)
                ==> #[trigger] view2(walls@)[x][y],
        !view2(walls@)[1][1],
        repaired(view2(walls@), width as int, height as int),
        forall|x: int, y: int|
            0 <= x < width && 0 <= y < height && !view2(walls@)[x][y] ==> #[trigger] reached(view2(walls@), (x, y)),
        repaired(repair(bordered(view2(draws@), width as int, height as int), width as int, height as int), width as int, height as int),
{
    let w = width;
    let h = height;
    let ghost dr = view2(draws@);
    let mut walls = filled(w, h, false);
    let mut i: usize = 0;
    while i < w
        invariant
            w >= 2,
            h >= 2,
            i <= w,
            has_shape(view2(walls@), w as int, h as int),
            forall|x: int, y: int|
                0 <= x < w && 0 <= y < h ==> #[trigger] view2(walls@)[x][y] == ((y == 0 || y == h - 1) && x < i),
        decreases w - i,
    {
        set_true(&mut walls, i, 0, w, h);
        set_true(&mut walls, i, h - 1, w, h);
        i += 1;
    }
    let mut j: usize = 0;
    while j < h
        invariant
            w >= 2,
            h >= 2,
            j <= h,
            has_shape(view2(walls@), w as int, h as int),
            forall|x: int, y: int|
                0 <= x < w && 0 <= y < h ==> #[trigger] view2(walls@)[x][y] == ((y == 0 || y == h - 1) || ((x
                    == 0 || x == w - 1) && y < j)),
        decreases h - j,
    {
        set_true(&mut walls, 0, j, w, h);
        set_true(&mut walls, w - 1, j, w, h);
        j += 1;
    }
    let mut x: usize = 1;
    while x < w - 1
        invariant
            w >= 2,
            h >= 2,
            1 <= x <= w - 1,
            dr == view2(draws@),
            has_shape(dr, w as int, h as int),
            has_shape(view2(walls@), w as int, h as int),
            forall|a: int, b: int|
                0 <= a < w && 0 <= b < h ==> #[trigger] view2(walls@)[a][b] == if on_border(w as int, h as int, (a, b)) {
                    true
                } else if a < x {
                    dr[a][b]
                } else {
                    false
                },
        decreases w - x,
    {
        let mut y: usize = 1;
        assert(dr[x as int] == draws@[x as int]@);
        while y < h - 1
            invariant
                w >= 2,
                h >= 2,
                1 <= x < w - 1,
                1 <= y <= h - 1,
                dr == view2(draws@),
                has_shape(dr, w as int, h as int),
                dr[x as int] == draws@[x as int]@,
                has_shape(view2(walls@), w as int, h as int),
                forall|a: int, b: int|
                    0 <= a < w && 0 <= b < h ==> #[trigger] view2(walls@)[a][b] == if on_border(w as int, h as int, (a, b)) {
                        true
                    } else if a < x || (a == x && b < y) {
                        dr[a][b]
                    } else {
                        false
                    },
            decreases h - y,
        {
            if draws[x][y] {
                set_true(&mut walls, x, y, w, h);
            }
            y += 1;
        }
        x += 1;
    }
    set_false(&mut walls, 1, 1, w, h);
    let ghost init = bordered(dr, w as int, h as int);
    assert(view2(walls@) =~~= init);
    let ghost target = repair(init, w as int, h as int);
    let mut changed = true;
    proof {
        lemma_count_grid_le(view2(walls@), flag(), h as int);
    }
    while changed
        invariant
            w >= 2,
            h >= 2,
            w * h <= usize::MAX,
            has_shape(view2(walls@), w as int, h as int),
            forall|a: int, b: int|
                0 <= a < w && 0 <= b < h && on_border(w as int, h as int, (a, b)) && (a, b) != (1int, 1int)
                    ==> #[trigger] view2(walls@)[a][b],
            !view2(walls@)[1][1],
            !changed ==> repaired(view2(walls@), w as int, h as int),
            changed ==> repair(view2(walls@), w as int, h as int) == target,
            !changed ==> view2(walls@) == target,
        decreases count_grid(view2(walls@), flag()) + if changed { 1int } else { 0int },
    {
        let ghost g0 = view2(walls@);
        let ghost cnt0 = count_grid(g0, flag());
        assert(g0[0].len() == h);
        let reach = flood_fill(&walls, (1, 1));
        let ghost r = view2(reach@);
        assert(r =~~= reach_grid(g0, w as int, h as int));
        changed = false;
        let mut x: usize = 1;
        while x < w - 1
            invariant
                w >= 2,
                h >= 2,
                1 <= x <= w - 1,
                has_shape(view2(walls@), w as int, h as int),
                has_shape(r, w as int, h as int),
                r == view2(reach@),
                forall|a: int, b: int|
                    0 <= a < w && 0 <= b < h ==> #[trigger] r[a][b] == (passable(g0, (1, 1)) && reachable(g0, (1, 1), (a, b))),
                forall|a: int, b: int|
                    0 <= a < w && 0 <= b < h && on_border(w as int, h as int, (a, b)) && (a, b) != (1int, 1int)
                        ==> #[trigger] view2(walls@)[a][b],
                !view2(walls@)[1][1],
                !changed ==> view2(walls@) == g0,
                !changed ==> forall|a: int, b: int|
                    1 <= a < x && 1 <= b < h - 1 && #[trigger] g0[a][b] ==> !bridges(g0, w as int, h as int, (a, b)),
                changed ==> count_grid(view2(walls@), flag()) < cnt0,
                cnt0 == count_grid(g0, flag()),
                view2(walls@) == pass_columns(g0, r, w as int, h as int, x as int),
            decreases w - x,
        {
            let mut y: usize = 1;
            while y < h - 1
                invariant
                    w >= 2,
                    h >= 2,
                    1 <= x < w - 1,
                    1 <= y <= h - 1,
                    has_shape(view2(walls@), w as int, h as int),
                    has_shape(r, w as int, h as int),
                    r == view2(reach@),
                    forall|a: int, b: int|
                        0 <= a < w && 0 <= b < h ==> #[trigger] r[a][b] == (passable(g0, (1, 1)) && reachable(g0, (1, 1), (a, b))),
                    forall|a: int, b: int|
                        0 <= a < w && 0 <= b < h && on_border(w as int, h as int, (a, b)) && (a, b) != (1int, 1int)
                            ==> #[trigger] view2(walls@)[a][b],
                    !view2(walls@)[1][1],
                    !changed ==> view2(walls@) == g0,
                    !changed ==> forall|a: int, b: int|
                        (1 <= a < x && 1 <= b < h - 1 || a == x && 1 <= b < y) && #[trigger] g0[a][b] ==> !bridges(g0, w as int, h as int, (a, b)),
                    changed ==> count_grid(view2(walls@), flag()) < cnt0,
                    cnt0 == count_grid(g0, flag()),
                    view2(walls@) == pass_column(pass_columns(g0, r, w as int, h as int, x as int), r, w as int, h as int, x as int, y as int),
                decreases h - y,
            {
                assert(view2(walls@)[x as int] == walls@[x as int]@);
                if walls[x][y] {
                    let (adj_reach, adj_passage) = wall_contacts(&walls, &reach, w, h, x, y);
                    if adj_reach && adj_passage {
                        let ghost before = view2(walls@);
                        set_false(&mut walls, x, y, w, h);
                        proof {
                            let after = view2(walls@);
                            lemma_count_row_update(after[x as int], flag(), y as int, true);
                            assert(after[x as int].update(y as int, true) =~= before[x as int]);
                            assert(after.update(x as int, before[x as int]) =~= before);
                            lemma_count_grid_update(after, flag(), x as int, before[x as int]);
                        }
                        changed = true;
                    }
                }
                y += 1;
            }
            x += 1;
        }
        proof {
            lemma_count_grid_le(view2(walls@), flag(), h as int);
            if !changed {
                assert forall|a: int, b: int|
                    1 <= a < w - 1 && 1 <= b < h - 1 && #[trigger] g0[a][b] implies !bridges(g0, w as int, h as int, (a, b)) by {
                    assert(1 <= a < x);
                }
            }
        }
    }
    let sealed_walls = seal(&walls, w, h);
    proof {
        lemma_sealed_connected(view2(walls@), w as int, h as int);
        lemma_repair_repaired(init, w as int, h as int);
    }
    sealed_walls
}

/// Every cell not reached from (1,1) walled up: a cell is free exactly when
/// it is reached.
fn seal(walls: &Vec<Vec<bool>>, w: usize, h: usize) -> (out: Vec<Vec<bool>>)
    requires
        w >= 2,
        h >= 2,
        has_shape(view2(walls@), w as int, h as int),
    ensures
        view2(out@) == sealed(view2(walls@), w as int, h as int),
{
    let ghost g = view2(walls@);
    assert(g[0] == walls@[0]@);
    let reach = flood_fill(walls, (1, 1));
    let mut out = filled(w, h, false);
    let mut x: usize = 0;
    while x < w
        invariant
            x <= w,
            g == view2(walls@),
            has_shape(g, w as int, h as int),
            has_shape(view2(reach@), w as int, h as int),
            forall|a: int, b: int| 0 <= a < w && 0 <= b < h ==> #[trigger] view2(reach@)[a][b] == reached(g, (a, b)),
            has_shape(view2(out@), w as int, h as int),
            forall|a: int, b: int|
                0 <= a < w && 0 <= b < h ==> #[trigger] view2(out@)[a][b] == (a < x && !reached(g, (a, b))),
        decreases w - x,
    {
        let mut y: usize = 0;
        assert(view2(reach@)[x as int] == reach@[x as int]@);
        while y < h
            invariant
                x < w,
                y <= h,
                g == view2(walls@),
                has_shape(g, w as int, h as int),
                has_shape(view2(reach@), w as int, h as int),
                forall|a: int, b: int| 0 <= a < w && 0 <= b < h ==> #[trigger] view2(reach@)[a][b] == reached(g, (a, b)),
                view2(reach@)[x as int] == reach@[x as int]@,
                has_shape(view2(out@), w as int, h as int),
                forall|a: int, b: int|
                    0 <= a < w && 0 <= b < h ==> #[trigger] view2(out@)[a][b] == ((a < x || (a == x && b < y)) && !reached(
                        g,
                        (a, b),
                    )),
            decreases h - y,
        {
            if !reach[x][y] {
                set_true(&mut out, x, y, w, h);
            }
            y += 1;
        }
        x += 1;
    }
    assert(view2(out@) =~~= sealed(g, w as int, h as int));
    out
}

/// The walls with every cell not reached from (1,1) walled up.
pub open spec fn sealed(walls: Seq<Seq<bool>>, w: int, h: int) -> Seq<Seq<bool>> {
    Seq::new(w as nat, |x: int| Seq::new(h as nat, |y: int| !reached(walls, (x, y))))
}

/// Every cell on a walk from a passable start is reached from that start.
proof fn lemma_walk_cells_reached(g: Seq<Seq<bool>>, p: Seq<(int, int)>, b: (int, int), n: nat, i: int)
    requires
        walk_of(g, p, (1, 1), b, n),
        passable(g, (1, 1)),
        0 <= i <= n,
    ensures
        reached(g, p[i]),
{
    let q = p.take(i + 1);
    assert forall|j: int| 1 <= j < q.len() implies passable(g, #[trigger] q[j]) by {
        assert(q[j] == p[j]);
    }
    assert forall|j: int| 0 <= j < q.len() - 1 implies adjacent(#[trigger] q[j], q[j + 1]) by {
        assert(q[j] == p[j] && q[j + 1] == p[j + 1]);
    }
    assert(walk_of(g, q, (1, 1), p[i], i as nat));
    assert(reaches_in(g, (1, 1), p[i], i as nat));
}

/// A cell reached from (1,1) is free, unless it is (1,1) itself.
proof fn lemma_reached_free(g: Seq<Seq<bool>>, c: (int, int))
    requires
        reached(g, c),
    ensures
        passable(g, c),
{
    let n = choose|n: nat| #[trigger] reaches_in(g, (1, 1), c, n);
    let p = choose|p: Seq<(int, int)>| #[trigger] walk_of(g, p, (1, 1), c, n);
    if n > 0 {
        assert(passable(g, p[n as int]));
    }
}

/// Walling up what is not reached from (1,1) connects the maze: every free
/// cell is reached from (1,1), the border stays walled but for (1,1), (1,1)
/// stays free, and no wall separates reached from unreached floor.
pub proof fn lemma_sealed_connected(g: Seq<Seq<bool>>, w: int, h: int)
    requires
        w >= 2,
        h >= 2,
        has_shape(g, w, h),
        !g[1][1],
    ensures
        has_shape(sealed(g, w, h), w, h),
        forall|x: int, y: int| 0 <= x < w && 0 <= y < h && !sealed(g, w, h)[x][y] ==> #[trigger] reached(sealed(g, w, h), (x, y)),
        forall|x: int, y: int|
            0 <= x < w && 0 <= y < h && g[x][y] ==> #[trigger] sealed(g, w, h)[x][y],
        !sealed(g, w, h)[1][1],
        repaired(sealed(g, w, h), w, h),
{
    let s = sealed(g, w, h);
    assert(walk_of(g, seq![(1int, 1int)], (1, 1), (1, 1), 0));
    assert(reaches_in(g, (1, 1), (1, 1), 0));
    assert(reached(g, (1, 1)));
    assert forall|x: int, y: int| 0 <= x < w && 0 <= y < h && g[x][y] implies #[trigger] s[x][y] by {
        if reached(g, (x, y)) {
            lemma_reached_free(g, (x, y));
        }
    }
    assert forall|x: int, y: int| 0 <= x < w && 0 <= y < h && !s[x][y] implies #[trigger] reached(s, (x, y)) by {
        let c = (x, y);
        let n = choose|n: nat| #[trigger] reaches_in(g, (1, 1), c, n);
        let p = choose|p: Seq<(int, int)>| #[trigger] walk_of(g, p, (1, 1), c, n);
        assert forall|j: int| 1 <= j < p.len() implies passable(s, #[trigger] p[j]) by {
            lemma_walk_cells_reached(g, p, c, n, j);
            lemma_reached_free(g, p[j]);
        }
        assert(walk_of(s, p, (1, 1), c, n));
        assert(reaches_in(s, (1, 1), c, n));
    }
    assert(reached(s, (1, 1)));
    assert forall|a: int, b: int| 1 <= a < w - 1 && 1 <= b < h - 1 && #[trigger] s[a][b] implies !bridges(s, w, h, (a, b)) by {
        if touches_unreached(s, w, h, (a, b)) {
            let k = choose|k: int|
                0 <= k < 4 && interior(w, h, #[trigger] step_dir((a, b), k)) && !reached(s, step_dir((a, b), k)) && !s[step_dir(
                    (a, b),
                    k,
                ).0][step_dir((a, b), k).1];
        }
    }
}

/// A cell as a pair of integers.
pub open spec fn cell(c: (usize, usize)) -> (int, int) {
    (c.0 as int, c.1 as int)
}

impl GridWorld {
    /// The breadth-first distances to the goal, as a grid.
    pub open spec fn spec_bfs(&self) -> Seq<Seq<Option<usize>>> {
        view2(self.bfs_dist@)
    }

    /// The maze's layout: the walls view.
    pub open spec fn grid(&self) -> Seq<Seq<bool>> {
        view2(self.walls@)
    }

    /// Shapes agree and every tracked cell lies in the maze.
    pub open spec fn wf(&self) -> bool {
        &&& self.width > 0
        &&& self.height > 0
        &&& has_shape(self.grid(), self.width as int, self.height as int)
        &&& has_shape(self.spec_bfs(), self.width as int, self.height as int)
        &&& has_shape(view2(self.visit_count@), self.width as int, self.height as int)
        &&& in_grid(self.grid(), cell(self.goal))
        &&& in_grid(self.grid(), cell(self.start))
        &&& in_grid(self.grid(), cell(self.agent))
        &&& in_grid(self.grid(), cell(self.prev_pos))
        &&& self.width * self.height <= usize::MAX
        &&& self.width <= isize::MAX
        &&& self.height <= isize::MAX
    }

    /// The distances are the breadth-first distances to the goal and the
    /// recorded maximum is their largest (1 if none).
    pub open spec fn distances_ok(&self) -> bool {
        &&& distances_from(self.grid(), cell(self.goal), self.spec_bfs())
        &&& is_max_dist(self.spec_bfs(), self.max_bfs, 1)
    }

    /// A fresh episode state: the agent at the start, nothing visited yet.
    pub open spec fn fresh(&self, w: usize, h: usize, start: (usize, usize), goal: (usize, usize), max_steps: usize) -> bool {
        &&& self.width == w
        &&& self.height == h
        &&& self.goal == goal
        &&& self.start == start
        &&& self.agent == start
        &&& self.prev_pos == start
        &&& !self.done
        &&& self.steps == 0
        &&& self.max_steps == max_steps
        &&& forall|x: int, y: int| 0 <= x < w && 0 <= y < h ==> #[trigger] view2(self.visit_count@)[x][y] == 0
    }

    /// Assembles a maze from its walls, start, goal and step budget.
    fn assemble(walls: Vec<Vec<bool>>, w: usize, h: usize, start: (usize, usize), goal: (usize, usize), max_steps: usize) -> (gw: Self)
        requires
            w > 0,
            h > 0,
            w * h <= usize::MAX,
            w <= isize::MAX,
            h <= isize::MAX,
            has_shape(view2(walls@), w as int, h as int),
            start.0 < w && start.1 < h,
            goal.0 < w && goal.1 < h,
        ensures
            gw.wf(),
            gw.distances_ok(),
            gw.walls@ == walls@,
            gw.fresh(w, h, start, goal, max_steps),
    {
        assert(view2(walls@)[0].len() == h);
        let bfs = bfs_distance(&walls, goal);
        let max_bfs = max_distance(&bfs, 1);
        let visit_count = filled(w, h, 0usize);
        GridWorld {
            width: w,
            height: h,
            walls,
            goal,
            start,
            agent: start,
            done: false,
            steps: 0,
            max_steps,
            bfs_dist: bfs,
            max_bfs,
            prev_pos: start,
            visit_count,
        }
    }

    /// An empty 5×5 room: walls on the border, start (1,1), goal (3,3), 50 steps.
    pub fn empty_room() -> (gw: Self)
        ensures
            gw.wf(),
            gw.distances_ok(),
            gw.fresh(5, 5, (1, 1), (3, 3), 50),
            forall|x: int, y: int|
                0 <= x < 5 && 0 <= y < 5 ==> #[trigger] gw.grid()[x][y] == (x == 0 || y == 0 || x == 4 || y == 4),
    {
        let mut walls = filled(5, 5, false);
        let mut i: usize = 0;
        while i < 5
            invariant
                i <= 5,
                has_shape(view2(walls@), 5, 5),
                forall|x: int, y: int|
                    0 <= x < 5 && 0 <= y < 5 ==> #[trigger] view2(walls@)[x][y] == ((y == 0 && x < i) || (x == 0
                        && y < i) || (y == 4 && x < i) || (x == 4 && y < i)),
            decreases 5 - i,
        {
            set_true(&mut walls, i, 0, 5, 5);
            set_true(&mut walls, 0, i, 5, 5);
            set_true(&mut walls, i, 4, 5, 5);
            set_true(&mut walls, 4, i, 5, 5);
            i += 1;
        }
        Self::assemble(walls, 5, 5, (1, 1), (3, 3), 50)
    }

    /// A 10×1 corridor walled at both ends: start (1,0), goal (8,0), 50 steps.
    pub fn straight() -> (gw: Self)
        ensures
            gw.wf(),
            gw.distances_ok(),
            gw.fresh(10, 1, (1, 0), (8, 0), 50),
            forall|x: int| 0 <= x < 10 ==> #[trigger] gw.grid()[x][0] == (x == 0 || x == 9),
    {
        let w: usize = 10;
        let h: usize = 1;
        let mut walls = filled(w, h, false);
        set_true(&mut walls, 0, 0, w, h);
        set_true(&mut walls, w - 1, 0, w, h);
        Self::assemble(walls, w, h, (1, 0), (8, 0), 50)
    }

    /// An L-shaped corridor in a 10×10 block of walls: from (1,1) right along
    /// row 1 to column 8, then down column 8 to the goal (8,8); 200 steps.
    pub fn corridor() -> (gw: Self)
        ensures
            gw.wf(),
            gw.distances_ok(),
            gw.fresh(10, 10, (1, 1), (8, 8), 200),
            forall|x: int, y: int|
                0 <= x < 10 && 0 <= y < 10 ==> #[trigger] gw.grid()[x][y] == !((y == 1 && 1 <= x <= 8) || (x == 8
                    && 1 <= y <= 8)),
    {
        let mut w = filled(10, 10, true);
        let mut x: usize = 1;
        while x < 9
            invariant
                1 <= x <= 9,
                has_shape(view2(w@), 10, 10),
                forall|i: int, j: int|
                    0 <= i < 10 && 0 <= j < 10 ==> #[trigger] view2(w@)[i][j] == !(j == 1 && 1 <= i < x),
            decreases 9 - x,
        {
            set_false(&mut w, x, 1, 10, 10);
            x += 1;
        }
        let mut y: usize = 1;
        while y < 9
            invariant
                1 <= y <= 9,
                has_shape(view2(w@), 10, 10),
                forall|i: int, j: int|
                    0 <= i < 10 && 0 <= j < 10 ==> #[trigger] view2(w@)[i][j] == !((j == 1 && 1 <= i <= 8) || (i == 8
                        && 1 <= j < y)),
            decreases 9 - y,
        {
            set_false(&mut w, 8, y, 10, 10);
            y += 1;
        }
        Self::assemble(w, 10, 10, (1, 1), (8, 8), 200)
    }

    /// A random maze of the given size: a walled border, about 35% of the
    /// interior walled at random, then walls that separate the region reached
    /// from (1,1) from unreached floor are knocked down until none is left, and
    /// floor still cut off is walled up: every free cell is reached from
    /// (1,1) (see `maze_walls`). The goal is drawn among the cells farthest (by shortest walk) from the start
    /// (1,1); the step budget is twice the area, at least 50.
    pub fn random(width: usize, height: usize) -> (gw: Self)
        requires
            width >= 2,
            height >= 2,
            width * height * 2 <= usize::MAX,
        ensures
            gw.wf(),
            gw.distances_ok(),
            gw.fresh(
                width,
                height,
                (1, 1),
                gw.goal,
                if width * height * 2 >= 50 { (width * height * 2) as usize } else { 50 },
            ),
            forall|x: int, y: int|
                0 <= x < width && 0 <= y < height && on_border(width as int, height as int, (x, y)) && (x, y) != (1int, 1int)
                    ==> #[trigger] gw.grid()[x][y],
            !gw.grid()[1][1],
            repaired(gw.grid(), width as int, height as int),
            farthest(gw.grid(), (1, 1), cell(gw.goal)),
            forall|x: int, y: int|
                0 <= x < width && 0 <= y < height && !gw.grid()[x][y] ==> #[trigger] reached(gw.grid(), (x, y)),
            exists|d: Seq<Seq<bool>>|
                has_shape(d, width as int, height as int) && gw.grid() == sealed(
                    repair(#[trigger] bordered(d, width as int, height as int), width as int, height as int),
                    width as int,
                    height as int,
                ) && repaired(repair(bordered(d, width as int, height as int), width as int, height as int), width as int, height as int),
    {
        let w = width;
        let h = height;
        assert(w * h <= usize::MAX) by (nonlinear_arith)
            requires
                w * h * 2 <= usize::MAX,
        ;
        let mut draws = filled(w, h, false);
        let mut x: usize = 1;
        while x < w - 1
            invariant
                w >= 2,
                h >= 2,
                1 <= x <= w - 1,
                has_shape(view2(draws@), w as int, h as int),
            decreases w - x,
        {
            let mut y: usize = 1;
            while y < h - 1
                invariant
                    w >= 2,
                    h >= 2,
                    1 <= x < w - 1,
                    1 <= y <= h - 1,
                    has_shape(view2(draws@), w as int, h as int),
                decreases h - y,
            {
                if random_ratio(35, 100) {
                    set_true(&mut draws, x, y, w, h);
                }
                y += 1;
            }
            x += 1;
        }
        let walls = maze_walls(w, h, &draws);
        let ghost d = view2(draws@);
        assert(has_shape(d, w as int, h as int) && view2(walls@) == sealed(
            repair(bordered(d, w as int, h as int), w as int, h as int),
            w as int,
            h as int,
        ) && repaired(repair(bordered(d, w as int, h as int), w as int, h as int), w as int, h as int));
        let start: (usize, usize) = (1, 1);
        assert(view2(walls@)[0] == walls@[0]@);
        let bfs_from_start = bfs_distance(&walls, start);
        let max_dist = max_distance(&bfs_from_start, 0);
        let candidates = cells_at_distance(&bfs_from_start, w, h, max_dist);
        proof {
            let d = view2(bfs_from_start@);
            let gg = view2(walls@);
            assert(walk_of(gg, seq![(1int, 1int)], (1, 1), (1, 1), 0));
            assert(reaches_in(gg, (1, 1), (1, 1), 0));
            assert(d[1][1] is Some);
            if !(exists|a: int, b: int| 0 <= a < d.len() && 0 <= b < d[a].len() && #[trigger] d[a][b] == Some(max_dist)) {
                assert(d[1][1] is None);
            }
            let (a, b) = choose|a: int, b: int| 0 <= a < d.len() && 0 <= b < d[a].len() && #[trigger] d[a][b] == Some(max_dist);
            assert(candidates@.contains((a as usize, b as usize)));
        }
        let goal = if candidates.len() == 0 {
            (w - 2, h - 2)
        } else {
            candidates[random_index(candidates.len())]
        };
        proof {
            let d = view2(bfs_from_start@);
            let gg = view2(walls@);
            assert(d[goal.0 as int][goal.1 as int] == Some(max_dist));
            assert forall|c: (int, int), dc: nat| in_grid(gg, c) && #[trigger] shortest(gg, (1, 1), c, dc) implies dc <= max_dist by {
                let dv = d[c.0][c.1];
                assert(reaches_in(gg, (1, 1), c, dc));
                assert(reachable(gg, (1, 1), c));
                assert(dv is Some);
                assert(shortest(gg, (1, 1), c, dv->0 as nat));
                assert(dc <= dv->0 && dv->0 <= dc);
            }
        }
        assert(w <= isize::MAX && h <= isize::MAX) by (nonlinear_arith)
            requires
                w * h * 2 <= usize::MAX,
                w >= 2,
                h >= 2,
        ;
        let area2 = w * h * 2;
        let max_steps = if area2 >= 50 { area2 } else { 50 };
        Self::assemble(walls, w, h, start, goal, max_steps)
    }

    /// Puts the agent back on the start cell for a new episode.
    pub fn reset(&mut self)
        requires
            old(self).wf(),
        ensures
            final(self).wf(),
            final(self).agent == old(self).start,
            final(self).prev_pos == old(self).start,
            !final(self).done,
            final(self).steps == 0,
            final(self).start == old(self).start,
            final(self).grid() == old(self).grid(),
            final(self).goal == old(self).goal,
            final(self).max_steps == old(self).max_steps,
            final(self).visit_count@ == old(self).visit_count@,
            old(self).distances_ok() ==> final(self).distances_ok(),
    {
        self.agent = self.start;
        self.prev_pos = self.start;
        self.done = false;
        self.steps = 0;
    }

    /// Whether `(x, y)` is a wall or lies outside the maze.
    pub fn is_wall(&self, x: isize, y: isize) -> (b: bool)
        requires
            self.wf(),
        ensures
            b == !passable(self.grid(), (x as int, y as int)),
    {
        if x < 0 || y < 0 || x >= self.width as isize || y >= self.height as isize {
            return true;
        }
        assert(self.grid()[x as int] == self.walls@[x as int]@);
        self.walls[x as usize][y as usize]
    }

    /// The breadth-first distance from the agent's cell to the goal.
    pub fn bfs_at_current_pos(&self) -> (d: Option<usize>)
        requires
            self.wf(),
        ensures
            d == self.spec_bfs()[self.agent.0 as int][self.agent.1 as int],
    {
        let (x, y) = self.agent;
        assert(self.spec_bfs()[x as int] == self.bfs_dist@[x as int]@);
        assert(self.spec_bfs()[0] == self.bfs_dist@[0]@);
        if x < self.bfs_dist.len() && y < self.bfs_dist[0].len() {
            self.bfs_dist[x][y]
        } else {
            None
        }
    }

    /// The breadth-first distance from `(x, y)` to the goal.
    pub fn distance_at(&self, x: usize, y: usize) -> (d: Option<usize>)
        requires
            self.wf(),
            x < self.width,
            y < self.height,
        ensures
            d == self.spec_bfs()[x as int][y as int],
    {
        assert(self.spec_bfs()[x as int] == self.bfs_dist@[x as int]@);
        self.bfs_dist[x][y]
    }

    /// The largest breadth-first distance in the maze (1 when none).
    pub fn max_bfs(&self) -> (m: usize)
        ensures
            m == self.max_bfs,
    {
        self.max_bfs
    }

    /// The agent's cell before its last move attempt.
    pub fn prev_pos(&self) -> (p: (usize, usize))
        ensures
            p == self.prev_pos,
    {
        self.prev_pos
    }

    /// One step that only scores the move: bumping into a wall leaves the
    /// agent in place; each step counts a visit of the cell the agent ends on.
    pub fn step_flat(&mut self, action: usize) -> (o: MoveOutcome)
        requires
            old(self).wf(),
            !old(self).done ==> old(self).steps < usize::MAX,
            forall|x: int, y: int|
                0 <= x < old(self).width && 0 <= y < old(self).height ==> #[trigger] view2(old(self).visit_count@)[x][y]
                    < usize::MAX,
        ensures
            final(self).wf(),
            old(self).done ==> o == MoveOutcome::AlreadyDone && *final(self) == *old(self),
            !old(self).done ==> {
                &&& move_rule(old(self).grid(), cell(old(self).agent), old(self).goal, old(self).steps, old(self).max_steps, action, o, final(self).agent, final(self).done, final(self).steps)
                &&& view2(final(self).visit_count@) == view2(old(self).visit_count@).update(
                    final(self).agent.0 as int,
                    view2(old(self).visit_count@)[final(self).agent.0 as int].update(
                        final(self).agent.1 as int,
                        (view2(old(self).visit_count@)[final(self).agent.0 as int][final(self).agent.1 as int] + 1) as usize,
                    ),
                )
                &&& final(self).prev_pos == old(self).prev_pos
            },
            final(self).grid() == old(self).grid(),
            final(self).goal == old(self).goal,
            final(self).start == old(self).start,
            final(self).max_steps == old(self).max_steps,
            final(self).spec_bfs() == old(self).spec_bfs(),
            final(self).max_bfs == old(self).max_bfs,
    {
        if self.done {
            return MoveOutcome::AlreadyDone;
        }
        let o = self.try_move(action);
        let (ax, ay) = self.agent;
        let ghost v0 = view2(self.visit_count@);
        assert(v0[ax as int] == self.visit_count@[ax as int]@);
        assert(v0[ax as int][ay as int] < usize::MAX);
        self.visit_count[ax][ay] = self.visit_count[ax][ay] + 1;
        assert(view2(self.visit_count@) =~= v0.update(ax as int, v0[ax as int].update(ay as int, (v0[ax as int][ay as int] + 1) as usize)));
        o
    }

    /// One step of the shaped-reward rule: like `step_flat` but without visit
    /// counting, and remembering the cell the agent left for the shaping term.
    pub fn step(&mut self, action: usize) -> (o: MoveOutcome)
        requires
            old(self).wf(),
            !old(self).done ==> old(self).steps < usize::MAX,
        ensures
            final(self).wf(),
            old(self).done ==> o == MoveOutcome::AlreadyDone && *final(self) == *old(self),
            !old(self).done ==> {
                &&& move_rule(old(self).grid(), cell(old(self).agent), old(self).goal, old(self).steps, old(self).max_steps, action, o, final(self).agent, final(self).done, final(self).steps)
                &&& final(self).prev_pos == old(self).agent
            },
            final(self).grid() == old(self).grid(),
            final(self).goal == old(self).goal,
            final(self).start == old(self).start,
            final(self).max_steps == old(self).max_steps,
            final(self).visit_count@ == old(self).visit_count@,
            final(self).spec_bfs() == old(self).spec_bfs(),
            final(self).max_bfs == old(self).max_bfs,
    {
        if self.done {
            return MoveOutcome::AlreadyDone;
        }
        self.prev_pos = self.agent;
        self.try_move(action)
    }

    /// Whisker lengths from the agent: the number of free cells before a wall
    /// or the edge looking up (y−1), down (y+1), right (x+1) and left (x−1).
    pub fn whiskers(&self) -> (r: (usize, usize, usize, usize))
        requires
            self.wf(),
        ensures
            clear_run(self.grid(), cell(self.agent), 0, r.0 as int),
            clear_run(self.grid(), cell(self.agent), 1, r.1 as int),
            clear_run(self.grid(), cell(self.agent), 2, r.2 as int),
            clear_run(self.grid(), cell(self.agent), 3, r.3 as int),
    {
        (
            ray(&self.walls, self.width, self.height, self.agent, 0),
            ray(&self.walls, self.width, self.height, self.agent, 1),
            ray(&self.walls, self.width, self.height, self.agent, 2),
            ray(&self.walls, self.width, self.height, self.agent, 3),
        )
    }

    /// The free cells, column by column (x-major, then y).
    pub fn open_cells(&self) -> (c: Vec<(usize, usize)>)
        requires
            self.wf(),
        ensures
            c@ == open_upto(self.grid(), self.width as nat, self.height as nat),
    {
        let ghost g = self.grid();
        let mut c: Vec<(usize, usize)> = Vec::new();
        let mut x: usize = 0;
        while x < self.width
            invariant
                self.wf(),
                g == self.grid(),
                x <= self.width,
                c@ == open_upto(g, x as nat, self.height as nat),
            decreases self.width - x,
        {
            let ghost c0 = c@;
            assert(g[x as int] == self.walls@[x as int]@);
            let mut y: usize = 0;
            while y < self.height
                invariant
                    self.wf(),
                    g == self.grid(),
                    x < self.width,
                    y <= self.height,
                    g[x as int] == self.walls@[x as int]@,
                    c@ == c0 + open_in_column(g, x as int, y as nat),
                decreases self.height - y,
            {
                if !self.walls[x][y] {
                    c.push((x, y));
                }
                proof {
                    assert(c@ =~= c0 + open_in_column(g, x as int, (y + 1) as nat));
                }
                y += 1;
            }
            x += 1;
        }
        c
    }

    /// The maze as text, one line per row y: `@` agent, `G` goal, `#` wall,
    /// `~` water (at (1,1), (3,3), (1,4)), `.` floor.
    pub fn render_ascii(&self) -> (out: String)
        requires
            self.wf(),
        ensures
            out@ == render_rows(self.grid(), self.agent, self.goal, self.width as nat, self.height as nat),
    {
        let ghost g = self.grid();
        let mut out = String::new();
        let mut y: usize = 0;
        while y < self.height
            invariant
                self.wf(),
                g == self.grid(),
                y <= self.height,
                out@ == render_rows(g, self.agent, self.goal, self.width as nat, y as nat),
            decreases self.height - y,
        {
            let ghost o0 = out@;
            let mut x: usize = 0;
            while x < self.width
                invariant
                    self.wf(),
                    g == self.grid(),
                    y < self.height,
                    x <= self.width,
                    out@ == o0 + render_row(g, self.agent, self.goal, y as int, x as nat),
                decreases self.width - x,
            {
                assert(g[x as int] == self.walls@[x as int]@);
                let ghost before = out@;
                if x == self.agent.0 && y == self.agent.1 {
                    proof { reveal_strlit("@"); }
                    out.append("@");
                } else if x == self.goal.0 && y == self.goal.1 {
                    proof { reveal_strlit("G"); }
                    out.append("G");
                } else if self.walls[x][y] {
                    proof { reveal_strlit("#"); }
                    out.append("#");
                } else if (x == 1 && y == 1) || (x == 3 && y == 3) || (x == 1 && y == 4) {
                    proof { reveal_strlit("~"); }
                    out.append("~");
                } else {
                    proof { reveal_strlit("."); }
                    out.append(".");
                }
                proof {
                    assert(out@ =~= o0 + render_row(g, self.agent, self.goal, y as int, (x + 1) as nat));
                }
                x += 1;
            }
            proof { reveal_strlit("\n"); }
            out.append("\n");
            proof {
                assert(out@ =~= render_rows(g, self.agent, self.goal, self.width as nat, (y + 1) as nat));
            }
            y += 1;
        }
        out
    }

    /// Moves the agent one cell unless the target is a wall or outside; shared
    /// by both step rules. Returns the outcome and, on a move, the new cell.
    fn try_move(&mut self, action: usize) -> (o: MoveOutcome)
        requires
            old(self).wf(),
            !old(self).done,
            old(self).steps < usize::MAX,
        ensures
            final(self).wf(),
            final(self).grid() == old(self).grid(),
            final(self).goal == old(self).goal,
            final(self).start == old(self).start,
            final(self).prev_pos == old(self).prev_pos,
            final(self).max_steps == old(self).max_steps,
            final(self).visit_count@ == old(self).visit_count@,
            final(self).spec_bfs() == old(self).spec_bfs(),
            final(self).max_bfs == old(self).max_bfs,
            move_rule(old(self).grid(), cell(old(self).agent), old(self).goal, old(self).steps, old(self).max_steps, action, o, final(self).agent, final(self).done, final(self).steps),
    {
        self.steps += 1;
        let (x, y) = self.agent;
        let mut off = false;
        let mut nx = x;
        let mut ny = y;
        if action == 0 {
            if y == 0 { off = true; } else { ny = y - 1; }
        } else if action == 1 {
            ny = y + 1;
        } else if action == 2 {
            if x == 0 { off = true; } else { nx = x - 1; }
        } else if action == 3 {
            nx = x + 1;
        }
        if !off {
            assert(self.grid()[nx as int].len() == self.height || nx >= self.width);
        }
        if off || nx >= self.width || ny >= self.height || {
            assert(self.grid()[nx as int] == self.walls@[nx as int]@);
            self.walls[nx][ny]
        } {
            if self.steps >= self.max_steps {
                self.done = true;
            }
            return MoveOutcome::Bumped;
        }
        self.agent = (nx, ny);
        if nx == self.goal.0 && ny == self.goal.1 {
            self.done = true;
            MoveOutcome::Reached
        } else if self.steps >= self.max_steps {
            self.done = true;
            MoveOutcome::TimedOut
        } else {
            MoveOutcome::Moved
        }
    }
}

/// The cell `n` steps away from `c` in direction `k` (see `step_dir`).
pub open spec fn step_n(c: (int, int), k: int, n: int) -> (int, int) {
    if k == 0 {
        (c.0, c.1 - n)
    } else if k == 1 {
        (c.0, c.1 + n)
    } else if k == 2 {
        (c.0 + n, c.1)
    } else {
        (c.0 - n, c.1)
    }
}

/// The `d` cells after `c` in direction `k` are passable and the next is not.
pub open spec fn clear_run(walls: Seq<Seq<bool>>, c: (int, int), k: int, d: int) -> bool {
    &&& d >= 0
    &&& forall|j: int| 1 <= j <= d ==> passable(walls, #[trigger] step_n(c, k, j))
    &&& !passable(walls, step_n(c, k, d + 1))
}

/// The free cells of column `x` with `y` below the bound, in order of y.
pub open spec fn open_in_column(walls: Seq<Seq<bool>>, x: int, y: nat) -> Seq<(usize, usize)>
    decreases y,
{
    if y == 0 {
        Seq::empty()
    } else {
        let rest = open_in_column(walls, x, (y - 1) as nat);
        if !walls[x][y - 1] {
            rest.push((x as usize, (y - 1) as usize))
        } else {
            rest
        }
    }
}

/// The free cells of the columns below `x`, column by column.
pub open spec fn open_upto(walls: Seq<Seq<bool>>, x: nat, h: nat) -> Seq<(usize, usize)>
    decreases x,
{
    if x == 0 {
        Seq::empty()
    } else {
        open_upto(walls, (x - 1) as nat, h) + open_in_column(walls, x - 1, h)
    }
}

/// The character drawn for cell `(x, y)`.
pub open spec fn tile(walls: Seq<Seq<bool>>, agent: (usize, usize), goal: (usize, usize), x: int, y: int) -> char {
    if x == agent.0 && y == agent.1 {
        '@'
    } else if x == goal.0 && y == goal.1 {
        'G'
    } else if walls[x][y] {
        '#'
    } else if is_water(x, y) {
        '~'
    } else {
        '.'
    }
}

/// The first `x` characters of row `y`.
pub open spec fn render_row(walls: Seq<Seq<bool>>, agent: (usize, usize), goal: (usize, usize), y: int, x: nat) -> Seq<char>
    decreases x,
{
    if x == 0 {
        Seq::empty()
    } else {
        render_row(walls, agent, goal, y, (x - 1) as nat).push(tile(walls, agent, goal, x - 1, y))
    }
}

/// The first `y` lines of the picture of a maze `w` wide, each ending in a newline.
pub open spec fn render_rows(walls: Seq<Seq<bool>>, agent: (usize, usize), goal: (usize, usize), w: nat, y: nat) -> Seq<char>
    decreases y,
{
    if y == 0 {
        Seq::empty()
    } else {
        render_rows(walls, agent, goal, w, (y - 1) as nat) + render_row(walls, agent, goal, y - 1, w).push('\n')
    }
}

/// Whether a cell lies on the border of a `w × h` maze.
pub open spec fn on_border(w: int, h: int, c: (int, int)) -> bool {
    c.0 == 0 || c.1 == 0 || c.0 == w - 1 || c.1 == h - 1
}

/// Whether a cell lies strictly inside the border of a `w × h` maze.
pub open spec fn interior(w: int, h: int, c: (int, int)) -> bool {
    0 < c.0 < w - 1 && 0 < c.1 < h - 1
}

/// Whether a cell is reached from (1,1) by the flood fill.
pub open spec fn reached(walls: Seq<Seq<bool>>, c: (int, int)) -> bool {
    passable(walls, (1, 1)) && reachable(walls, (1, 1), c)
}

/// Whether the wall at `c` has an interior neighbour reached from (1,1).
pub open spec fn touches_reached(walls: Seq<Seq<bool>>, w: int, h: int, c: (int, int)) -> bool {
    exists|k: int| 0 <= k < 4 && interior(w, h, #[trigger] step_dir(c, k)) && reached(walls, step_dir(c, k))
}

/// Whether the wall at `c` has an interior free neighbour not reached from (1,1).
pub open spec fn touches_unreached(walls: Seq<Seq<bool>>, w: int, h: int, c: (int, int)) -> bool {
    exists|k: int|
        0 <= k < 4 && interior(w, h, #[trigger] step_dir(c, k)) && !reached(walls, step_dir(c, k)) && !walls[step_dir(
            c,
            k,
        ).0][step_dir(c, k).1]
}

/// Whether the wall at `c` separates the reached region from unreached floor.
pub open spec fn bridges(walls: Seq<Seq<bool>>, w: int, h: int, c: (int, int)) -> bool {
    touches_reached(walls, w, h, c) && touches_unreached(walls, w, h, c)
}

/// No interior wall separates the region reached from (1,1) from unreached floor.
pub open spec fn repaired(walls: Seq<Seq<bool>>, w: int, h: int) -> bool {
    forall|a: int, b: int| 1 <= a < w - 1 && 1 <= b < h - 1 && #[trigger] walls[a][b] ==> !bridges(walls, w, h, (a, b))
}

/// `c` is reachable from `s`, and no reachable cell is farther from `s` by shortest walk.
pub open spec fn farthest(walls: Seq<Seq<bool>>, s: (int, int), c: (int, int)) -> bool {
    exists|d: nat|
        #[trigger] shortest(walls, s, c, d) && forall|o: (int, int), e: nat|
            in_grid(walls, o) && #[trigger] shortest(walls, s, o, e) ==> e <= d
}

/// The maze's starting layout from the random draws: border walls all round,
/// the draws inside, and (1,1) free.
pub open spec fn bordered(draws: Seq<Seq<bool>>, w: int, h: int) -> Seq<Seq<bool>> {
    Seq::new(
        w as nat,
        |x: int|
            Seq::new(
                h as nat,
                |y: int|
                    if x == 1 && y == 1 {
                        false
                    } else if on_border(w, h, (x, y)) {
                        true
                    } else {
                        draws[x][y]
                    },
            ),
    )
}

/// The cells reached from (1,1), as a `w × h` grid.
pub open spec fn reach_grid(walls: Seq<Seq<bool>>, w: int, h: int) -> Seq<Seq<bool>> {
    Seq::new(w as nat, |a: int| Seq::new(h as nat, |b: int| reached(walls, (a, b))))
}

/// Whether a repair pass knocks down the wall at `c`, the reached cells being
/// `r`: it has an interior neighbour in `r` and an interior free neighbour
/// outside `r`.
pub open spec fn knocks(walls: Seq<Seq<bool>>, r: Seq<Seq<bool>>, w: int, h: int, c: (int, int)) -> bool {
    &&& walls[c.0][c.1]
    &&& exists|k: int| 0 <= k < 4 && interior(w, h, #[trigger] step_dir(c, k)) && r[step_dir(c, k).0][step_dir(c, k).1]
    &&& exists|k: int|
        0 <= k < 4 && interior(w, h, #[trigger] step_dir(c, k)) && !r[step_dir(c, k).0][step_dir(c, k).1] && !walls[step_dir(
            c,
            k,
        ).0][step_dir(c, k).1]
}

/// `walls` after the visit of `c` by a repair pass.
pub open spec fn knock_at(walls: Seq<Seq<bool>>, r: Seq<Seq<bool>>, w: int, h: int, c: (int, int)) -> Seq<Seq<bool>> {
    if knocks(walls, r, w, h, c) {
        walls.update(c.0, walls[c.0].update(c.1, false))
    } else {
        walls
    }
}

/// A repair pass over column `x`, rows 1 to `y − 1` in order.
pub open spec fn pass_column(walls: Seq<Seq<bool>>, r: Seq<Seq<bool>>, w: int, h: int, x: int, y: int) -> Seq<Seq<bool>>
    decreases y,
{
    if y <= 1 {
        walls
    } else {
        knock_at(pass_column(walls, r, w, h, x, y - 1), r, w, h, (x, y - 1))
    }
}

/// A repair pass over the interior columns 1 to `x − 1` in order.
pub open spec fn pass_columns(walls: Seq<Seq<bool>>, r: Seq<Seq<bool>>, w: int, h: int, x: int) -> Seq<Seq<bool>>
    decreases x,
{
    if x <= 1 {
        walls
    } else {
        pass_column(pass_columns(walls, r, w, h, x - 1), r, w, h, x - 1, h - 1)
    }
}

/// One repair pass: the cells reached from (1,1) are found once, then every
/// interior cell is visited, column by column.
pub open spec fn repair_pass(walls: Seq<Seq<bool>>, w: int, h: int) -> Seq<Seq<bool>> {
    pass_columns(walls, reach_grid(walls, w, h), w, h, w - 1)
}

/// Repair passes, until one changes nothing.
pub open spec fn repair(walls: Seq<Seq<bool>>, w: int, h: int) -> Seq<Seq<bool>>
    decreases count_grid(walls, flag()),
{
    if has_shape(walls, w, h) && repair_pass(walls, w, h) != walls {
        proof {
            lemma_pass_columns_shrinks(walls, reach_grid(walls, w, h), w, h, w - 1);
        }
        repair(repair_pass(walls, w, h), w, h)
    } else {
        walls
    }
}

proof fn lemma_pass_column_mono(p: Seq<Seq<bool>>, r: Seq<Seq<bool>>, w: int, h: int, x: int, y1: int, y2: int)
    requires
        has_shape(p, w, h),
        0 <= x < w,
        y1 <= y2 <= h,
    ensures
        count_grid(pass_column(p, r, w, h, x, y2), flag()) <= count_grid(pass_column(p, r, w, h, x, y1), flag()),
    decreases y2,
{
    if y2 > y1 && y2 > 1 {
        lemma_pass_column_mono(p, r, w, h, x, y1, y2 - 1);
        lemma_pass_column_shrinks(p, r, w, h, x, y2 - 1);
        lemma_knock_at_shrinks(pass_column(p, r, w, h, x, y2 - 1), r, w, h, (x, y2 - 1));
    }
}

proof fn lemma_pass_columns_mono(g: Seq<Seq<bool>>, r: Seq<Seq<bool>>, w: int, h: int, x1: int, x2: int)
    requires
        has_shape(g, w, h),
        x1 <= x2 <= w,
    ensures
        count_grid(pass_columns(g, r, w, h, x2), flag()) <= count_grid(pass_columns(g, r, w, h, x1), flag()),
    decreases x2,
{
    if x2 > x1 && x2 > 1 {
        lemma_pass_columns_mono(g, r, w, h, x1, x2 - 1);
        lemma_pass_columns_shrinks(g, r, w, h, x2 - 1);
        lemma_pass_column_shrinks(pass_columns(g, r, w, h, x2 - 1), r, w, h, x2 - 1, h - 1);
    }
}

/// A layout that a repair pass leaves unchanged has no wall separating the
/// region reached from (1,1) from unreached floor.
proof fn lemma_fixed_pass_repaired(g: Seq<Seq<bool>>, w: int, h: int)
    requires
        has_shape(g, w, h),
        repair_pass(g, w, h) == g,
    ensures
        repaired(g, w, h),
{
    let r = reach_grid(g, w, h);
    assert forall|a: int, b: int| 1 <= a < w - 1 && 1 <= b < h - 1 && #[trigger] g[a][b] implies !bridges(g, w, h, (a, b)) by {
        let p = pass_columns(g, r, w, h, a);
        let i = pass_column(p, r, w, h, a, b);
        let j = pass_column(p, r, w, h, a, b + 1);
        lemma_pass_columns_shrinks(g, r, w, h, a);
        lemma_pass_column_shrinks(p, r, w, h, a, b);
        lemma_pass_column_shrinks(p, r, w, h, a, b + 1);
        lemma_pass_column_mono(p, r, w, h, a, b, h - 1);
        lemma_pass_column_mono(p, r, w, h, a, b + 1, h - 1);
        assert(pass_columns(g, r, w, h, a + 1) == pass_column(p, r, w, h, a, h - 1));
        lemma_pass_columns_mono(g, r, w, h, a + 1, w - 1);
        assert(i == g);
        assert(j == g);
        assert(j == knock_at(i, r, w, h, (a, b)));
        if knocks(g, r, w, h, (a, b)) {
            assert(j[a][b] == false);
        }
        if bridges(g, w, h, (a, b)) {
            let k1 = choose|k: int| 0 <= k < 4 && interior(w, h, #[trigger] step_dir((a, b), k)) && reached(g, step_dir((a, b), k));
            let s1 = step_dir((a, b), k1);
            assert(r[s1.0][s1.1] == reached(g, s1));
            let k2 = choose|k: int|
                0 <= k < 4 && interior(w, h, #[trigger] step_dir((a, b), k)) && !reached(g, step_dir((a, b), k)) && !g[step_dir(
                    (a, b),
                    k,
                ).0][step_dir((a, b), k).1];
            let s2 = step_dir((a, b), k2);
            assert(r[s2.0][s2.1] == reached(g, s2));
            assert(knocks(g, r, w, h, (a, b)));
        }
    }
}

/// The repair runs to a fixpoint: in the layout it leaves, no interior wall
/// touches both a cell reached from (1,1) and free floor not reached; it keeps
/// the layout's shape and only ever removes walls.
pub proof fn lemma_repair_repaired(g: Seq<Seq<bool>>, w: int, h: int)
    requires
        has_shape(g, w, h),
    ensures
        has_shape(repair(g, w, h), w, h),
        repaired(repair(g, w, h), w, h),
        forall|x: int, y: int| 0 <= x < w && 0 <= y < h && #[trigger] repair(g, w, h)[x][y] ==> g[x][y],
    decreases count_grid(g, flag()),
{
    if repair_pass(g, w, h) != g {
        let g2 = repair_pass(g, w, h);
        lemma_pass_columns_shrinks(g, reach_grid(g, w, h), w, h, w - 1);
        lemma_pass_columns_only_remove(g, reach_grid(g, w, h), w, h, w - 1);
        lemma_repair_repaired(g2, w, h);
        assert(repair(g, w, h) == repair(g2, w, h));
    } else {
        lemma_fixed_pass_repaired(g, w, h);
    }
}

/// A repair pass only removes walls.
proof fn lemma_pass_columns_only_remove(g: Seq<Seq<bool>>, r: Seq<Seq<bool>>, w: int, h: int, x: int)
    requires
        has_shape(g, w, h),
        x <= w,
    ensures
        forall|a: int, b: int| 0 <= a < w && 0 <= b < h && #[trigger] pass_columns(g, r, w, h, x)[a][b] ==> g[a][b],
    decreases x,
{
    if x > 1 {
        lemma_pass_columns_only_remove(g, r, w, h, x - 1);
        lemma_pass_columns_shrinks(g, r, w, h, x - 1);
        lemma_pass_column_only_remove(pass_columns(g, r, w, h, x - 1), r, w, h, x - 1, h - 1);
    }
}

proof fn lemma_pass_column_only_remove(p: Seq<Seq<bool>>, r: Seq<Seq<bool>>, w: int, h: int, x: int, y: int)
    requires
        has_shape(p, w, h),
        0 <= x < w,
        y <= h,
    ensures
        forall|a: int, b: int| 0 <= a < w && 0 <= b < h && #[trigger] pass_column(p, r, w, h, x, y)[a][b] ==> p[a][b],
    decreases y,
{
    if y > 1 {
        lemma_pass_column_only_remove(p, r, w, h, x, y - 1);
        lemma_pass_column_shrinks(p, r, w, h, x, y - 1);
    }
}

/// Knocking down one wall keeps the shape and removes exactly one wall.
proof fn lemma_knock_at_shrinks(g: Seq<Seq<bool>>, r: Seq<Seq<bool>>, w: int, h: int, c: (int, int))
    requires
        has_shape(g, w, h),
        0 <= c.0 < w,
        0 <= c.1 < h,
    ensures
        has_shape(knock_at(g, r, w, h, c), w, h),
        knock_at(g, r, w, h, c) == g || count_grid(knock_at(g, r, w, h, c), flag()) + 1 == count_grid(g, flag()),
{
    if knocks(g, r, w, h, c) {
        let row = g[c.0].update(c.1, false);
        let k = g.update(c.0, row);
        lemma_count_row_update(row, flag(), c.1, true);
        assert(row.update(c.1, true) =~= g[c.0]);
        assert(k.update(c.0, g[c.0]) =~= g);
        lemma_count_grid_update(k, flag(), c.0, g[c.0]);
    }
}

proof fn lemma_pass_column_shrinks(g: Seq<Seq<bool>>, r: Seq<Seq<bool>>, w: int, h: int, x: int, y: int)
    requires
        has_shape(g, w, h),
        0 <= x < w,
        y <= h,
    ensures
        has_shape(pass_column(g, r, w, h, x, y), w, h),
        count_grid(pass_column(g, r, w, h, x, y), flag()) <= count_grid(g, flag()),
        pass_column(g, r, w, h, x, y) != g ==> count_grid(pass_column(g, r, w, h, x, y), flag()) < count_grid(g, flag()),
    decreases y,
{
    if y > 1 {
        lemma_pass_column_shrinks(g, r, w, h, x, y - 1);
        lemma_knock_at_shrinks(pass_column(g, r, w, h, x, y - 1), r, w, h, (x, y - 1));
    }
}

/// A repair pass keeps the maze's shape and never adds a wall; when it changes
/// anything, it removes at least one wall.
pub proof fn lemma_pass_columns_shrinks(g: Seq<Seq<bool>>, r: Seq<Seq<bool>>, w: int, h: int, x: int)
    requires
        has_shape(g, w, h),
        x <= w,
    ensures
        has_shape(pass_columns(g, r, w, h, x), w, h),
        count_grid(pass_columns(g, r, w, h, x), flag()) <= count_grid(g, flag()),
        pass_columns(g, r, w, h, x) != g ==> count_grid(pass_columns(g, r, w, h, x), flag()) < count_grid(g, flag()),
    decreases x,
{
    if x > 1 {
        lemma_pass_columns_shrinks(g, r, w, h, x - 1);
        lemma_pass_column_shrinks(pass_columns(g, r, w, h, x - 1), r, w, h, x - 1, h - 1);
    }
}

/// Whether the wall at `(x, y)` touches reached interior cells and unreached
/// interior floor, the second judged by the current walls.
fn wall_contacts(walls: &Vec<Vec<bool>>, reach: &Vec<Vec<bool>>, w: usize, h: usize, x: usize, y: usize) -> (r: (bool, bool))
    requires
        has_shape(view2(walls@), w as int, h as int),
        has_shape(view2(reach@), w as int, h as int),
        x < w,
        y < h,
    ensures
        r.0 == exists|k: int| 0 <= k < 4 && interior(w as int, h as int, #[trigger] step_dir((x as int, y as int), k)) && view2(reach@)[step_dir((x as int, y as int), k).0][step_dir((x as int, y as int), k).1],
        r.1 == exists|k: int| 0 <= k < 4 && interior(w as int, h as int, #[trigger] step_dir((x as int, y as int), k)) && !view2(reach@)[step_dir((x as int, y as int), k).0][step_dir((x as int, y as int), k).1]
            && !view2(walls@)[step_dir((x as int, y as int), k).0][step_dir((x as int, y as int), k).1],
{
    let ghost c = (x as int, y as int);
    let ghost g = view2(walls@);
    let ghost rr = view2(reach@);
    let mut adj_reach = false;
    let mut adj_passage = false;
    let mut k: usize = 0;
    while k < 4
        invariant
            k <= 4,
            g == view2(walls@),
            rr == view2(reach@),
            c == (x as int, y as int),
            has_shape(g, w as int, h as int),
            has_shape(rr, w as int, h as int),
            adj_reach == exists|j: int| 0 <= j < k && interior(w as int, h as int, #[trigger] step_dir(c, j)) && rr[step_dir(c, j).0][step_dir(c, j).1],
            adj_passage == exists|j: int| 0 <= j < k && interior(w as int, h as int, #[trigger] step_dir(c, j)) && !rr[step_dir(c, j).0][step_dir(c, j).1]
                && !g[step_dir(c, j).0][step_dir(c, j).1],
        decreases 4 - k,
    {
        let ghost t = step_dir(c, k as int);
        match neighbour(x, y, k, w, h) {
            Some((nx, ny)) => {
                if nx > 0 && ny > 0 && nx < w - 1 && ny < h - 1 {
                    assert(g[nx as int] == walls@[nx as int]@);
                    assert(rr[nx as int] == reach@[nx as int]@);
                    if reach[nx][ny] {
                        adj_reach = true;
                    } else if !walls[nx][ny] {
                        adj_passage = true;
                    }
                }
            },
            None => {},
        }
        proof {
            assert(adj_reach == exists|j: int| 0 <= j < k + 1 && interior(w as int, h as int, #[trigger] step_dir(c, j)) && rr[step_dir(c, j).0][step_dir(c, j).1]) by {
                if adj_reach {
                    if !(exists|j: int| 0 <= j < k && interior(w as int, h as int, #[trigger] step_dir(c, j)) && rr[step_dir(c, j).0][step_dir(c, j).1]) {
                        assert(interior(w as int, h as int, step_dir(c, k as int)));
                    }
                }
            }
        }
        k += 1;
    }
    (adj_reach, adj_passage)
}

/// The cells whose distance is exactly `m`, column by column.
fn cells_at_distance(dist: &Vec<Vec<Option<usize>>>, w: usize, h: usize, m: usize) -> (c: Vec<(usize, usize)>)
    requires
        has_shape(view2(dist@), w as int, h as int),
    ensures
        forall|i: int| 0 <= i < c@.len() ==> (#[trigger] c@[i]).0 < w && c@[i].1 < h && view2(dist@)[c@[i].0 as int][c@[i].1 as int] == Some(m),
        forall|a: int, b: int| 0 <= a < w && 0 <= b < h && #[trigger] view2(dist@)[a][b] == Some(m) ==> c@.contains((a as usize, b as usize)),
{
    let ghost d = view2(dist@);
    let mut c: Vec<(usize, usize)> = Vec::new();
    let mut x: usize = 0;
    while x < w
        invariant
            x <= w,
            d == view2(dist@),
            has_shape(d, w as int, h as int),
            forall|i: int| 0 <= i < c@.len() ==> (#[trigger] c@[i]).0 < w && c@[i].1 < h && d[c@[i].0 as int][c@[i].1 as int] == Some(m),
            forall|a: int, b: int| 0 <= a < x && 0 <= b < h && #[trigger] d[a][b] == Some(m) ==> c@.contains((a as usize, b as usize)),
        decreases w - x,
    {
        assert(d[x as int] == dist@[x as int]@);
        let mut y: usize = 0;
        while y < h
            invariant
                x < w,
                y <= h,
                d == view2(dist@),
                has_shape(d, w as int, h as int),
                d[x as int] == dist@[x as int]@,
                forall|i: int| 0 <= i < c@.len() ==> (#[trigger] c@[i]).0 < w && c@[i].1 < h && d[c@[i].0 as int][c@[i].1 as int] == Some(m),
                forall|a: int, b: int| (0 <= a < x && 0 <= b < h || a == x && 0 <= b < y) && #[trigger] d[a][b] == Some(m) ==> c@.contains((a as usize, b as usize)),
            decreases h - y,
        {
            if dist[x][y] == Some(m) {
                let ghost c0 = c@;
                c.push((x, y));
                proof {
                    assert(c@[c@.len() - 1] == (x, y));
                    assert forall|a: int, b: int| (0 <= a < x && 0 <= b < h || a == x && 0 <= b < y + 1) && #[trigger] d[a][b] == Some(m) implies c@.contains((a as usize, b as usize)) by {
                        if !(a == x && b == y) {
                            let i = choose|i: int| 0 <= i < c0.len() && c0[i] == (a as usize, b as usize);
                            assert(c@[i] == c0[i]);
                        }
                    }
                }
            }
            y += 1;
        }
        x += 1;
    }
    c
}

/// Counts the free cells from `from` in direction `k` up to the first wall or
/// the edge of the `w × h` maze.
fn ray(walls: &Vec<Vec<bool>>, w: usize, h: usize, from: (usize, usize), k: usize) -> (d: usize)
    requires
        has_shape(view2(walls@), w as int, h as int),
        w > 0,
        from.0 < w,
        from.1 < h,
        k < 4,
    ensures
        clear_run(view2(walls@), cell(from), k as int, d as int),
{
    let ghost g = view2(walls@);
    let ghost c = cell(from);
    let mut cur = from;
    let mut d: usize = 0;
    loop
        invariant
            g == view2(walls@),
            c == cell(from),
            from.0 < w,
            from.1 < h,
            has_shape(g, w as int, h as int),
            w > 0,
            k < 4,
            cur.0 < w,
            cur.1 < h,
            cell(cur) == step_n(c, k as int, d as int),
            forall|j: int| 1 <= j <= d ==> passable(g, #[trigger] step_n(c, k as int, j)),
            d <= w + h,
        ensures
            clear_run(g, c, k as int, d as int),
        decreases (if k == 0 { cur.1 as int } else if k == 1 { h - cur.1 } else if k == 2 { w - cur.0 } else { cur.0 as int }),
    {
        assert(step_dir(cell(cur), k as int) == step_n(c, k as int, d + 1));
        assert(g[0].len() == h);
        match neighbour(cur.0, cur.1, k, w, h) {
            None => {
                return d;
            },
            Some(n) => {
                assert(g[n.0 as int] == walls@[n.0 as int]@);
                if walls[n.0][n.1] {
                    return d;
                }
                assert(d + 1 <= w + h) by {
                    assert(0 <= step_n(c, k as int, d + 1).0 < w && 0 <= step_n(c, k as int, d + 1).1 < h);
                }
                cur = n;
                d += 1;
            },
        }
    }
}

/// Marks one cell of a `w × h` grid of flags.
fn set_true(g: &mut Vec<Vec<bool>>, x: usize, y: usize, w: usize, h: usize)
    requires
        has_shape(view2(old(g)@), w as int, h as int),
        x < w,
        y < h,
    ensures
        has_shape(view2(final(g)@), w as int, h as int),
        forall|i: int, j: int|
            0 <= i < w && 0 <= j < h ==> #[trigger] view2(final(g)@)[i][j] == (view2(old(g)@)[i][j] || (i == x
                && j == y)),
{
    let ghost g0 = view2(g@);
    assert(g0[x as int] == g@[x as int]@);
    g[x][y] = true;
    assert(view2(g@) =~= g0.update(x as int, g0[x as int].update(y as int, true)));
}

/// Clears one cell of a `w × h` grid of flags.
fn set_false(g: &mut Vec<Vec<bool>>, x: usize, y: usize, w: usize, h: usize)
    requires
        has_shape(view2(old(g)@), w as int, h as int),
        x < w,
        y < h,
    ensures
        has_shape(view2(final(g)@), w as int, h as int),
        forall|i: int, j: int|
            0 <= i < w && 0 <= j < h ==> #[trigger] view2(final(g)@)[i][j] == (view2(old(g)@)[i][j] && !(i == x
                && j == y)),
        view2(final(g)@) == view2(old(g)@).update(x as int, view2(old(g)@)[x as int].update(y as int, false)),
{
    let ghost g0 = view2(g@);
    assert(g0[x as int] == g@[x as int]@);
    g[x][y] = false;
    assert(view2(g@) =~= g0.update(x as int, g0[x as int].update(y as int, false)));
}

// ───────────────────────── laws ─────────────────────────

/// Every reachable cell has a shortest walk length.
pub proof fn lemma_reachable_has_shortest(walls: Seq<Seq<bool>>, a: (int, int), b: (int, int))
    requires
        reachable(walls, a, b),
    ensures
        exists|d: nat| #[trigger] shortest(walls, a, b, d),
{
    let n = choose|n: nat| #[trigger] reaches_in(walls, a, b, n);
    lemma_shortest_below(walls, a, b, n);
}

proof fn lemma_shortest_below(walls: Seq<Seq<bool>>, a: (int, int), b: (int, int), n: nat)
    requires
        reaches_in(walls, a, b, n),
    ensures
        exists|d: nat| #[trigger] shortest(walls, a, b, d),
    decreases n,
{
    if exists|m: nat| m < n && #[trigger] reaches_in(walls, a, b, m) {
        let m = choose|m: nat| m < n && #[trigger] reaches_in(walls, a, b, m);
        lemma_shortest_below(walls, a, b, m);
    } else {
        assert(shortest(walls, a, b, n));
    }
}

/// Flood fill and breadth-first search from the same passable start agree on
/// which cells can be reached.
pub proof fn lemma_fill_agrees_with_distances(
    walls: Seq<Seq<bool>>,
    s: (int, int),
    vis: Seq<Seq<bool>>,
    dist: Seq<Seq<Option<usize>>>,
)
    requires
        is_grid(walls),
        passable(walls, s),
        forall|x: int, y: int| in_grid(walls, (x, y)) ==> #[trigger] vis[x][y] == (passable(walls, s) && reachable(walls, s, (x, y))),
        distances_from(walls, s, dist),
    ensures
        forall|x: int, y: int| in_grid(walls, (x, y)) ==> #[trigger] vis[x][y] == (dist[x][y] is Some),
{
    assert forall|x: int, y: int| in_grid(walls, (x, y)) implies #[trigger] vis[x][y] == (dist[x][y] is Some) by {
        match dist[x][y] {
            Some(d) => {
                assert(shortest(walls, s, (x, y), d as nat));
                assert(reaches_in(walls, s, (x, y), d as nat));
            },
            None => {},
        }
    }
}

/// Breadth-first distances change by at most one between neighbouring free
/// cells: a free neighbour of a cell at distance `d` is at distance `d + 1`
/// or less.
pub proof fn lemma_distance_neighbour_bound(
    walls: Seq<Seq<bool>>,
    goal: (int, int),
    dist: Seq<Seq<Option<usize>>>,
    c: (int, int),
    k: int,
)
    requires
        is_grid(walls),
        distances_from(walls, goal, dist),
        in_grid(walls, c),
        dist[c.0][c.1] is Some,
        0 <= k < 4,
        passable(walls, step_dir(c, k)),
    ensures
        dist[step_dir(c, k).0][step_dir(c, k).1] is Some,
        dist[step_dir(c, k).0][step_dir(c, k).1]->0 <= dist[c.0][c.1]->0 + 1,
{
    let d = dist[c.0][c.1]->0 as nat;
    let n = step_dir(c, k);
    assert(shortest(walls, goal, c, d));
    let p = choose|p: Seq<(int, int)>| #[trigger] walk_of(walls, p, goal, c, d);
    lemma_step_adjacent(c, k);
    lemma_walk_extend(walls, p, goal, c, d, n);
    assert(reaches_in(walls, goal, n, d + 1));
    assert(dist[n.0][n.1] is Some);
    assert(shortest(walls, goal, n, dist[n.0][n.1]->0 as nat));
}

/// Each cell at a positive breadth-first distance `d` has a neighbour at
/// distance `d − 1`: following decreasing distances always leads to the goal.
pub proof fn lemma_distance_descent(walls: Seq<Seq<bool>>, goal: (int, int), dist: Seq<Seq<Option<usize>>>, c: (int, int))
    requires
        is_grid(walls),
        distances_from(walls, goal, dist),
        in_grid(walls, c),
        dist[c.0][c.1] is Some,
        dist[c.0][c.1]->0 > 0,
    ensures
        exists|k: int|
            0 <= k < 4 && in_grid(walls, #[trigger] step_dir(c, k)) && dist[step_dir(c, k).0][step_dir(c, k).1] == Some(
                (dist[c.0][c.1]->0 - 1) as usize,
            ),
{
    let d = dist[c.0][c.1]->0 as nat;
    assert(shortest(walls, goal, c, d));
    let p = choose|p: Seq<(int, int)>| #[trigger] walk_of(walls, p, goal, c, d);
    let m = (d - 1) as nat;
    lemma_walk_prefix(walls, p, goal, c, d, m);
    let prev = p[m as int];
    assert(in_grid(walls, prev)) by {
        if m > 0 {
            assert(passable(walls, p[m as int]));
        }
    }
    assert(adjacent(p[m as int], p[m as int + 1]));
    let k = choose|k: int| 0 <= k < 4 && p[m as int + 1] == #[trigger] step_dir(p[m as int], k);
    assert(p[m as int + 1] == c);
    assert(passable(walls, c));
    let back = if k == 0 { 1int } else if k == 1 { 0int } else if k == 2 { 3int } else { 2int };
    assert(step_dir(c, back) == prev);
    assert(reaches_in(walls, goal, prev, m));
    assert(dist[prev.0][prev.1] is Some);
    let dp = dist[prev.0][prev.1]->0 as nat;
    assert(shortest(walls, goal, prev, dp));
    assert(dp <= m);
    if dp < m {
        let q = choose|q: Seq<(int, int)>| #[trigger] walk_of(walls, q, goal, prev, dp);
        lemma_step_adjacent(prev, k);
        lemma_walk_extend(walls, q, goal, prev, dp, c);
        assert(reaches_in(walls, goal, c, dp + 1));
    }
    assert(step_dir(c, back) == prev && in_grid(walls, step_dir(c, back)));
}

/// A move never takes the agent off free floor: from a passable cell, the
/// agent ends on a passable cell.
pub proof fn lemma_move_stays_on_floor(
    walls: Seq<Seq<bool>>,
    a: (int, int),
    goal: (usize, usize),
    steps: usize,
    max_steps: usize,
    action: usize,
    o: MoveOutcome,
    agent2: (usize, usize),
    done2: bool,
    steps2: usize,
)
    requires
        passable(walls, a),
        move_rule(walls, a, goal, steps, max_steps, action, o, agent2, done2, steps2),
    ensures
        passable(walls, cell(agent2)),
        o == MoveOutcome::Reached <==> o != MoveOutcome::Bumped && cell(agent2) == cell(goal),
{
}

} // verus!

