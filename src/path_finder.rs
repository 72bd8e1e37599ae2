//! A* search on an 8-connected grid with the octile cost.
use vstd::prelude::*;
use vstd::set_lib::{lemma_len_subset, set_int_range, lemma_int_range};

verus! {

/// A cell address on the grid: `(x, y)`.
pub type Coord = (i32, i32);

/// `c` lies inside a grid of `size.0` columns and `size.1` rows.
pub open spec fn in_grid(size: (usize, usize), c: Coord) -> bool {
    0 <= c.0 < size.0 && 0 <= c.1 < size.1
}

pub open spec fn abs_diff(a: i32, b: i32) -> int {
    if a >= b { a - b } else { b - a }
}

pub open spec fn min_int(a: int, b: int) -> int {
    if a <= b { a } else { b }
}

pub open spec fn max_int(a: int, b: int) -> int {
    if a <= b { b } else { a }
}

/// Octile distance scaled by ten: diagonal steps cost 14, straight ones 10.
pub open spec fn octile(a: Coord, b: Coord) -> int {
    let dx = abs_diff(a.0, b.0);
    let dy = abs_diff(a.1, b.1);
    14 * min_int(dx, dy) + 10 * (max_int(dx, dy) - min_int(dx, dy))
}

/// `b` is one of the eight cells around `a`.
pub open spec fn is_step(a: Coord, b: Coord) -> bool {
    a != b && abs_diff(a.0, b.0) <= 1 && abs_diff(a.1, b.1) <= 1
}

pub fn is_in_range(size: (usize, usize), node: &Coord) -> (r: bool)
    ensures
        r == in_grid(size, *node),
{
    (node.0 >= 0 && (node.0 as usize) < size.0) && (node.1 >= 0 && (node.1 as usize) < size.1)
}

/// The octile cost between two cells.
pub fn calc_cost(start: &Coord, end: &Coord) -> (r: u64)
    ensures
        r == octile(*start, *end),
{
    let dx: i64 = if end.0 >= start.0 {
        end.0 as i64 - start.0 as i64
    } else {
        start.0 as i64 - end.0 as i64
    };
    let dy: i64 = if end.1 >= start.1 {
        end.1 as i64 - start.1 as i64
    } else {
        start.1 as i64 - end.1 as i64
    };
    if dx > dy {
        (14 * dy + 10 * (dx - dy)) as u64
    } else {
        (14 * dx + 10 * (dy - dx)) as u64
    }
}

/// The cost is symmetric: going from `a` to `b` costs what going back does.
pub proof fn lemma_cost_symmetric(a: Coord, b: Coord)
    ensures
        octile(a, b) == octile(b, a),
{
}

/// Moves `a` one unit toward `b`, or keeps it where they agree.
pub open spec fn approach(a: i32, b: i32) -> i32 {
    if a < b {
        (a + 1) as i32
    } else if a > b {
        (a - 1) as i32
    } else {
        a
    }
}

/// The cell one step from `c` on a straight or diagonal line toward `e`.
pub open spec fn toward(c: Coord, e: Coord) -> Coord {
    (approach(c.0, e.0), approach(c.1, e.1))
}

/// The octile cost is a distance: it obeys the triangle inequality.
pub proof fn lemma_octile_triangle(a: Coord, b: Coord, c: Coord)
    ensures
        octile(a, c) <= octile(a, b) + octile(b, c),
        octile(a, a) == 0,
        octile(a, b) >= 0,
{
}

/// A single step costs 10 straight and 14 diagonally.
pub proof fn lemma_step_cost(a: Coord, b: Coord)
    requires
        is_step(a, b),
    ensures
        10 <= octile(a, b) <= 14,
{
}

/// Stepping toward the goal spends exactly the cost of the step.
pub proof fn lemma_toward(size: (usize, usize), c: Coord, e: Coord)
    requires
        in_grid(size, c),
        in_grid(size, e),
        c != e,
    ensures
        in_grid(size, toward(c, e)),
        is_step(c, toward(c, e)),
        octile(c, e) == octile(c, toward(c, e)) + octile(toward(c, e), e),
        octile(toward(c, e), e) < octile(c, e),
{
}

/// Position of `c` in a row-major array of the grid's cells.
pub open spec fn idx(size: (usize, usize), c: Coord) -> int {
    c.1 * size.0 + c.0
}

pub broadcast proof fn lemma_idx(size: (usize, usize), c: Coord)
    requires
        in_grid(size, c),
    ensures
        0 <= #[trigger] idx(size, c) < size.0 * size.1,
        idx(size, c) % (size.0 as int) == c.0,
        idx(size, c) / (size.0 as int) == c.1,
{
    let w = size.0 as int;
    let h = size.1 as int;
    let x = c.0 as int;
    let y = c.1 as int;
    assert(0 <= y * w + x < w * h) by (nonlinear_arith)
        requires
            0 <= x < w,
            0 <= y < h,
    ;
    vstd::arithmetic::div_mod::lemma_fundamental_div_mod_converse(y * w + x, w, y, x);
}

fn index_of(size: (usize, usize), c: &Coord) -> (r: usize)
    requires
        in_grid(size, *c),
        size.0 * size.1 <= usize::MAX,
    ensures
        r == idx(size, *c),
{
    proof {
        lemma_idx(size, *c);
    }
    (c.1 as usize) * size.0 + (c.0 as usize)
}

fn coord_at(size: (usize, usize), i: usize) -> (r: Coord)
    requires
        i < size.0 * size.1,
        size.0 <= i32::MAX,
        size.1 <= i32::MAX,
    ensures
        in_grid(size, r),
        idx(size, r) == i,
{
    let w = size.0;
    proof {
        let h = size.1 as int;
        let ii = i as int;
        let ww = w as int;
        assert(ww > 0) by (nonlinear_arith)
            requires
                ii < ww * h,
                0 <= ii,
                0 <= ww,
                0 <= h,
        ;
        vstd::arithmetic::div_mod::lemma_fundamental_div_mod(ii, ww);
        vstd::arithmetic::div_mod::lemma_mod_bound(ii, ww);
        let q = ii / ww;
        let m = ii % ww;
        assert(0 <= q < h) by (nonlinear_arith)
            requires
                0 <= ii < ww * h,
                ww > 0,
                ii == ww * q + m,
                0 <= m < ww,
        ;
        assert(q * ww + m == ii) by (nonlinear_arith)
            requires
                ii == ww * q + m,
        ;
    }
    ((i % w) as i32, (i / w) as i32)
}

/// `a` comes before `b` by column, then by row.
pub open spec fn before(a: Coord, b: Coord) -> bool {
    a.0 < b.0 || (a.0 == b.0 && a.1 < b.1)
}

/// How many of the nine offsets `(i, j)` come before `(i, j)` itself, the
/// centre left out.
spec fn offsets_before(i: int, j: int) -> int {
    3 * (i + 1) + (j + 1) - if i > 0 || (i == 0 && j > 0) {
        1int
    } else {
        0int
    }
}

/// `node` is at least one cell away from every edge of the grid.
pub open spec fn inner(size: (usize, usize), node: Coord) -> bool {
    1 <= node.0 && node.0 + 1 < size.0 && 1 <= node.1 && node.1 + 1 < size.1
}

/// The in-grid cells around `node`, each one step away, by column offset
/// -1 to 1 and within that by row offset -1 to 1.
pub fn neighbor(node: &Coord, size: (usize, usize)) -> (r: Vec<Coord>)
    requires
        i32::MIN < node.0 < i32::MAX,
        i32::MIN < node.1 < i32::MAX,
    ensures
        forall|c: Coord| r@.contains(c) <==> (in_grid(size, c) && is_step(*node, c)),
        forall|a: int, b: int| 0 <= a < b < r.len() ==> before(#[trigger] r@[a], #[trigger] r@[b]),
        r@.no_duplicates(),
        r.len() <= 8,
        inner(size, *node) ==> r.len() == 8,
{
    let mut res: Vec<Coord> = Vec::new();
    let mut i: i32 = -1;
    while i <= 1
        invariant
            -1 <= i <= 2,
            i32::MIN < node.0 < i32::MAX,
            i32::MIN < node.1 < i32::MAX,
            forall|c: Coord|
                #[trigger] res@.contains(c) <==> (in_grid(size, c) && is_step(*node, c) && c.0
                    - node.0 < i),
            forall|a: int, b: int|
                0 <= a < b < res.len() ==> before(#[trigger] res@[a], #[trigger] res@[b]),
            res.len() <= offsets_before(i as int, -1),
            inner(size, *node) ==> res.len() == offsets_before(i as int, -1),
        decreases 2 - i,
    {
        let mut j: i32 = -1;
        while j <= 1
            invariant
                -1 <= i <= 1,
                -1 <= j <= 2,
                i32::MIN < node.0 < i32::MAX,
                i32::MIN < node.1 < i32::MAX,
                forall|c: Coord|
                    #[trigger] res@.contains(c) <==> (in_grid(size, c) && is_step(*node, c) && (c.0
                        - node.0 < i || (c.0 - node.0 == i && c.1 - node.1 < j))),
                forall|a: int, b: int|
                    0 <= a < b < res.len() ==> before(#[trigger] res@[a], #[trigger] res@[b]),
                res.len() <= offsets_before(i as int, j as int),
                inner(size, *node) ==> res.len() == offsets_before(i as int, j as int),
            decreases 2 - j,
        {
            let next: Coord = (node.0 + i, node.1 + j);
            let ghost pre = res@;
            let take = (i != 0 || j != 0) && is_in_range(size, &next);
            if take {
                res.push(next);
            }
            proof {
                assert(take <==> (in_grid(size, next) && is_step(*node, next)));
                assert forall|a: int| 0 <= a < pre.len() implies before(pre[a], next) by {
                    assert(pre.contains(pre[a]));
                }
                assert forall|c: Coord|
                    res@.contains(c) <==> (in_grid(size, c) && is_step(*node, c) && (c.0 - node.0
                        < i || (c.0 - node.0 == i && c.1 - node.1 < j + 1))) by {
                    if c.0 - node.0 == i && c.1 - node.1 == j {
                        assert(c == next);
                    }
                    if take {
                        assert(res@ == pre.push(next));
                        if c == next {
                            assert(res@[pre.len() as int] == c);
                        }
                        if pre.contains(c) {
                            let k = choose|k: int| 0 <= k < pre.len() && pre[k] == c;
                            assert(res@[k] == c);
                        }
                        if res@.contains(c) {
                            let k = choose|k: int| 0 <= k < res@.len() && res@[k] == c;
                            if k < pre.len() {
                                assert(pre[k] == c);
                                assert(pre.contains(c));
                            } else {
                                assert(res@[k] == next);
                            }
                        }
                    } else {
                        assert(res@ == pre);
                        if res@.contains(c) {
                            assert(pre.contains(c));
                        }
                    }
                }
                assert forall|a: int, b: int|
                    0 <= a < b < res.len() implies before(#[trigger] res@[a], #[trigger] res@[b]) by {
                    if b == pre.len() {
                        assert(before(pre[a], next));
                    } else {
                        assert(res@[a] == pre[a] && res@[b] == pre[b]);
                    }
                }
                if inner(size, *node) && (i != 0 || j != 0) {
                    assert(in_grid(size, next));
                }
            }
            j = j + 1;
        }
        i = i + 1;
    }
    proof {
        assert forall|a: int, b: int| 0 <= a < res.len() && 0 <= b < res.len() && a != b implies res@[a]
            != res@[b] by {
            if a < b {
                assert(before(res@[a], res@[b]));
            } else {
                assert(before(res@[b], res@[a]));
            }
        }
    }
    res
}

/// `blk` holds no cell of the grid.
pub open spec fn no_obstacle(size: (usize, usize), blk: Seq<Coord>) -> bool {
    forall|c: Coord| in_grid(size, c) ==> !blk.contains(c)
}

/// `r` moves through free in-grid cells, one step at a time.
pub open spec fn is_walk(size: (usize, usize), blk: Seq<Coord>, r: Seq<Coord>) -> bool {
    &&& r.len() >= 1
    &&& forall|k: int| 0 <= k < r.len() ==> in_grid(size, #[trigger] r[k]) && !blk.contains(r[k])
    &&& forall|k: int| 0 <= k < r.len() - 1 ==> is_step(#[trigger] r[k], r[k + 1])
}

/// `end` can be walked to from `start` around the cells of `blk`.
pub open spec fn reachable(size: (usize, usize), blk: Seq<Coord>, start: Coord, end: Coord) -> bool {
    exists|r: Seq<Coord>| is_walk(size, blk, r) && r[0] == start && r.last() == end
}

/// `r` is a route from `start` to `end`: a walk that visits no cell twice.
pub open spec fn is_route(
    size: (usize, usize),
    blk: Seq<Coord>,
    start: Coord,
    end: Coord,
    r: Seq<Coord>,
) -> bool {
    &&& is_walk(size, blk, r)
    &&& r[0] == start
    &&& r.last() == end
    &&& r.no_duplicates()
}

/// The accumulated octile cost of the steps along `r`.
pub open spec fn route_cost(r: Seq<Coord>) -> int
    decreases r.len(),
{
    if r.len() < 2 {
        0
    } else {
        route_cost(r.drop_last()) + octile(r[r.len() - 2], r.last())
    }
}

#[derive(PartialEq, Eq, Structural, Clone, Copy)]
enum Mark {
    Unseen,
    Open,
    Closed,
}

/// The cell at position `j` of a row-major array of the grid's cells.
pub open spec fn coord_of(size: (usize, usize), j: int) -> Coord {
    ((j % (size.0 as int)) as i32, (j / (size.0 as int)) as i32)
}

pub proof fn lemma_coord_of(size: (usize, usize), j: int)
    requires
        0 <= j < size.0 * size.1,
        size.0 <= i32::MAX,
        size.1 <= i32::MAX,
    ensures
        in_grid(size, coord_of(size, j)),
        idx(size, coord_of(size, j)) == j,
{
    let h = size.1 as int;
    let ww = size.0 as int;
    assert(ww > 0) by (nonlinear_arith)
        requires
            j < ww * h,
            0 <= j,
            0 <= ww,
            0 <= h,
    ;
    vstd::arithmetic::div_mod::lemma_fundamental_div_mod(j, ww);
    vstd::arithmetic::div_mod::lemma_mod_bound(j, ww);
    let q = j / ww;
    let m = j % ww;
    assert(0 <= q < h) by (nonlinear_arith)
        requires
            0 <= j < ww * h,
            ww > 0,
            j == ww * q + m,
            0 <= m < ww,
    ;
    assert(q * ww + m == j) by (nonlinear_arith)
        requires
            j == ww * q + m,
    ;
}

pub proof fn lemma_coord_of_idx(size: (usize, usize), c: Coord)
    requires
        in_grid(size, c),
    ensures
        coord_of(size, idx(size, c)) == c,
{
    lemma_idx(size, c);
}

/// A search's state as values: per cell its mark, `g`, `f` and predecessor.
type Model = (Seq<Mark>, Seq<u128>, Seq<u128>, Seq<Option<Coord>>);

/// `i` is the open cell of least `f`, the first such in row-major order.
spec fn is_pick(m: Model, i: int) -> bool {
    &&& 0 <= i < m.0.len()
    &&& m.0[i] == Mark::Open
    &&& forall|j: int| 0 <= j < m.0.len() && m.0[j] == Mark::Open ==> m.2[i] <= m.2[j]
    &&& forall|j: int| 0 <= j < i && m.0[j] == Mark::Open ==> m.2[i] < m.2[j]
}

spec fn pick(m: Model) -> Option<int> {
    if exists|i: int| is_pick(m, i) {
        Some(choose|i: int| is_pick(m, i))
    } else {
        None
    }
}

proof fn lemma_pick(m: Model, i: int)
    requires
        is_pick(m, i),
    ensures
        pick(m) == Some(i),
{
    let k = choose|k: int| is_pick(m, k);
    if k < i {
        assert(m.2[i] <= m.2[k]);
    } else if i < k {
        assert(m.2[k] <= m.2[i]);
    }
}

/// Expanding `cur` improves the cell at `j`.
spec fn improves(
    m: Model,
    size: (usize, usize),
    blk: Seq<Coord>,
    cur: Coord,
    j: int,
) -> bool {
    let d = coord_of(size, j);
    &&& in_grid(size, d)
    &&& is_step(cur, d)
    &&& m.0[j] != Mark::Closed
    &&& !blk.contains(d)
    &&& (m.0[j] == Mark::Unseen || m.1[idx(size, cur)] + octile(cur, d) < m.1[j])
}

spec fn model_at(m: Model, j: int) -> (Mark, u128, u128, Option<Coord>) {
    (m.0[j], m.1[j], m.2[j], m.3[j])
}

/// The cell at `j` once `cur` is closed and its neighbours relaxed.
spec fn relaxed_at(
    m: Model,
    size: (usize, usize),
    end: Coord,
    blk: Seq<Coord>,
    cur: Coord,
    j: int,
) -> (Mark, u128, u128, Option<Coord>) {
    let d = coord_of(size, j);
    let g = m.1[idx(size, cur)] + octile(cur, d);
    if j == idx(size, cur) {
        (Mark::Closed, m.1[j], m.2[j], m.3[j])
    } else if improves(m, size, blk, cur, j) {
        (Mark::Open, g as u128, (g + octile(d, end)) as u128, Some(cur))
    } else {
        (m.0[j], m.1[j], m.2[j], m.3[j])
    }
}

/// The state after one expansion of `cur`.
spec fn relaxed(m: Model, size: (usize, usize), end: Coord, blk: Seq<Coord>, cur: Coord) -> Model {
    let n = m.0.len();
    (
        Seq::new(n, |j: int| relaxed_at(m, size, end, blk, cur, j).0),
        Seq::new(n, |j: int| relaxed_at(m, size, end, blk, cur, j).1),
        Seq::new(n, |j: int| relaxed_at(m, size, end, blk, cur, j).2),
        Seq::new(n, |j: int| relaxed_at(m, size, end, blk, cur, j).3),
    )
}

/// The state in which the search pops `end`, if it does within `fuel` steps.
spec fn run(m: Model, size: (usize, usize), end: Coord, blk: Seq<Coord>, fuel: nat) -> Option<Model>
    decreases fuel,
{
    if fuel == 0 {
        None
    } else {
        match pick(m) {
            None => None,
            Some(i) => if coord_of(size, i) == end {
                Some(m)
            } else {
                run(relaxed(m, size, end, blk, coord_of(size, i)), size, end, blk, (fuel - 1) as nat)
            },
        }
    }
}

spec fn init_model(size: (usize, usize), start: Coord, end: Coord) -> Model {
    let n = (size.0 * size.1) as nat;
    let si = idx(size, start);
    (
        Seq::new(n, |j: int| if j == si { Mark::Open } else { Mark::Unseen }),
        Seq::new(n, |j: int| 0u128),
        Seq::new(n, |j: int| if j == si { octile(start, end) as u128 } else { 0u128 }),
        Seq::new(n, |j: int| None),
    )
}

/// `r` leads from `start` to `end` along the predecessors of `m`.
spec fn follows(m: Model, size: (usize, usize), start: Coord, end: Coord, r: Seq<Coord>) -> bool {
    &&& r.len() >= 1
    &&& r[0] == start
    &&& r.last() == end
    &&& m.3[idx(size, start)] is None
    &&& forall|k: int| 0 <= k < r.len() ==> in_grid(size, #[trigger] r[k])
    &&& forall|k: int| 0 <= k < r.len() - 1 ==> m.3[idx(size, #[trigger] r[k + 1])] == Some(r[k])
}

proof fn lemma_follows_tail(
    m: Model,
    size: (usize, usize),
    start: Coord,
    end: Coord,
    r1: Seq<Coord>,
    r2: Seq<Coord>,
    t: int,
)
    requires
        follows(m, size, start, end, r1),
        follows(m, size, start, end, r2),
        r1.len() <= r2.len(),
        0 <= t < r1.len(),
    ensures
        r1[r1.len() - 1 - t] == r2[r2.len() - 1 - t],
    decreases t,
{
    let l1 = r1.len() as int;
    let l2 = r2.len() as int;
    if t > 0 {
        lemma_follows_tail(m, size, start, end, r1, r2, t - 1);
        assert(m.3[idx(size, r1[l1 - 2 - (t - 1) + 1])] == Some(r1[l1 - 2 - (t - 1)]));
        assert(m.3[idx(size, r2[l2 - 2 - (t - 1) + 1])] == Some(r2[l2 - 2 - (t - 1)]));
    }
}

proof fn lemma_follows_unique(
    m: Model,
    size: (usize, usize),
    start: Coord,
    end: Coord,
    r1: Seq<Coord>,
    r2: Seq<Coord>,
)
    requires
        follows(m, size, start, end, r1),
        follows(m, size, start, end, r2),
        r1.len() <= r2.len(),
    ensures
        r1 == r2,
{
    let l1 = r1.len() as int;
    let l2 = r2.len() as int;
    lemma_follows_tail(m, size, start, end, r1, r2, l1 - 1);
    if l2 > l1 {
        assert(m.3[idx(size, r2[(l2 - l1 - 1) + 1])] == Some(r2[l2 - l1 - 1]));
    }
    assert forall|k: int| 0 <= k < l1 implies r1[k] == r2[k] by {
        lemma_follows_tail(m, size, start, end, r1, r2, l1 - 1 - k);
    }
    assert(r1 =~= r2);
}

/// The route along the predecessors of `m`.
spec fn parent_path(m: Model, size: (usize, usize), start: Coord, end: Coord) -> Seq<Coord> {
    choose|r: Seq<Coord>| follows(m, size, start, end, r)
}

/// The route that [`a_star`] returns for these arguments.
pub closed spec fn route_of(
    size: (usize, usize),
    start: Coord,
    end: Coord,
    blk: Seq<Coord>,
) -> Seq<Coord> {
    if blk.contains(start) || blk.contains(end) {
        seq![start]
    } else {
        match run(init_model(size, start, end), size, end, blk, (size.0 * size.1 + 1) as nat) {
            None => seq![start],
            Some(m) => parent_path(m, size, start, end),
        }
    }
}

/// What [`search`] returns for these arguments: the route when `end` can be
/// reached, else nothing.
pub open spec fn search_outcome(
    size: (usize, usize),
    start: Coord,
    end: Coord,
    blk: Seq<Coord>,
) -> Option<Seq<Coord>> {
    if reachable(size, blk, start, end) {
        Some(route_of(size, start, end, blk))
    } else {
        None
    }
}

/// The working state of one search, one entry per cell in row-major order.
struct Search {
    mark: Vec<Mark>,
    g: Vec<u128>,
    f: Vec<u128>,
    parent: Vec<Option<Coord>>,
    blocked: Vec<bool>,
    closed: Ghost<Set<int>>,
}

impl Search {
    spec fn model(&self) -> Model {
        (self.mark@, self.g@, self.f@, self.parent@)
    }

    spec fn seen(&self, size: (usize, usize), c: Coord) -> bool {
        self.mark@[idx(size, c)] != Mark::Unseen
    }

    spec fn open_at(&self, size: (usize, usize), c: Coord) -> bool {
        self.mark@[idx(size, c)] == Mark::Open
    }

    spec fn done(&self, size: (usize, usize), c: Coord) -> bool {
        self.mark@[idx(size, c)] == Mark::Closed
    }

    spec fn gc(&self, size: (usize, usize), c: Coord) -> int {
        self.g@[idx(size, c)] as int
    }

    spec fn fc(&self, size: (usize, usize), c: Coord) -> int {
        self.f@[idx(size, c)] as int
    }

    spec fn par(&self, size: (usize, usize), c: Coord) -> Option<Coord> {
        self.parent@[idx(size, c)]
    }

    spec fn wf(
        &self,
        size: (usize, usize),
        start: Coord,
        end: Coord,
        blk: Seq<Coord>,
    ) -> bool {
        let n = size.0 * size.1;
        &&& size.0 <= i32::MAX && size.1 <= i32::MAX && n <= usize::MAX
        &&& in_grid(size, start) && in_grid(size, end)
        &&& !blk.contains(start) && !blk.contains(end)
        &&& self.mark.len() == n && self.g.len() == n && self.f.len() == n
        &&& self.parent.len() == n && self.blocked.len() == n
        &&& forall|c: Coord|
            in_grid(size, c) ==> (#[trigger] self.blocked@[idx(size, c)] <==> blk.contains(c))
        &&& self.closed@.finite()
        &&& forall|i: int|
            #[trigger] self.closed@.contains(i) <==> (0 <= i < n && self.mark@[i] == Mark::Closed)
        &&& self.seen(size, start) && self.gc(size, start) == 0 && self.par(size, start) is None
        &&& !self.done(size, end)
        &&& forall|c: Coord|
            in_grid(size, c) && #[trigger] self.seen(size, c) ==> {
                &&& !blk.contains(c)
                &&& self.fc(size, c) == self.gc(size, c) + octile(c, end)
                &&& octile(start, c) <= self.gc(size, c) <= 14 * self.closed@.len()
                &&& (c != start ==> self.par(size, c) is Some)
            }
        &&& forall|c: Coord|
            in_grid(size, c) && (#[trigger] self.par(size, c)) is Some ==> {
                let p = self.par(size, c)->Some_0;
                &&& in_grid(size, p)
                &&& self.done(size, p)
                &&& is_step(p, c)
                &&& self.gc(size, c) == self.gc(size, p) + octile(p, c)
                &&& self.seen(size, c)
                &&& c != start
            }
        &&& no_obstacle(size, blk) ==> forall|c: Coord|
            in_grid(size, c) && #[trigger] self.done(size, c) ==> self.gc(size, c) + octile(c, end)
                == octile(start, end)
    }

    /// Every free neighbour of `c` that is not closed has been reached, at a
    /// cost no greater than through `c`.
    spec fn frontier_of(&self, size: (usize, usize), blk: Seq<Coord>, c: Coord) -> bool {
        forall|d: Coord|
            in_grid(size, d) && is_step(c, d) && !blk.contains(d) && !(#[trigger] self.done(
                size,
                d,
            )) ==> self.seen(size, d) && self.gc(size, d) <= self.gc(size, c) + octile(c, d)
    }

    spec fn frontier(&self, size: (usize, usize), blk: Seq<Coord>) -> bool {
        forall|c: Coord|
            in_grid(size, c) && #[trigger] self.done(size, c) ==> self.frontier_of(size, blk, c)
    }

    proof fn lemma_closed_bound(&self, size: (usize, usize), start: Coord, end: Coord, blk: Seq<Coord>)
        requires
            self.wf(size, start, end, blk),
        ensures
            self.closed@.len() <= size.0 * size.1,
    {
        let n = size.0 * size.1;
        lemma_int_range(0, n as int);
        assert(self.closed@.subset_of(set_int_range(0, n as int)));
        lemma_len_subset(self.closed@, set_int_range(0, n as int));
    }
}

fn filled<T: Copy>(v: T, n: usize) -> (r: Vec<T>)
    ensures
        r@ == Seq::new(n as nat, |i: int| v),
{
    let mut r: Vec<T> = Vec::new();
    while r.len() < n
        invariant
            r.len() <= n,
            r@ == Seq::new(r.len() as nat, |i: int| v),
        decreases n - r.len(),
    {
        r.push(v);
    }
    r
}

/// Marks, cell by cell, whether `block` holds the cell.
fn blocked_cells(size: (usize, usize), block: &Vec<Coord>) -> (r: Vec<bool>)
    requires
        size.0 * size.1 <= usize::MAX,
    ensures
        r.len() == size.0 * size.1,
        forall|c: Coord|
            in_grid(size, c) ==> (#[trigger] r@[idx(size, c)] <==> block@.contains(c)),
{
    broadcast use lemma_idx;

    let mut r = filled(false, size.0 * size.1);
    let mut k: usize = 0;
    while k < block.len()
        invariant
            k <= block.len(),
            size.0 * size.1 <= usize::MAX,
            r.len() == size.0 * size.1,
            forall|c: Coord|
                in_grid(size, c) ==> (#[trigger] r@[idx(size, c)] <==> block@.take(k as int).contains(
                    c,
                )),
        decreases block.len() - k,
    {
        let b = block[k];
        let ghost before = r@;
        if is_in_range(size, &b) {
            let i = index_of(size, &b);
            proof {
                lemma_idx(size, b);
            }
            r.set(i, true);
        }
        proof {
            assert(block@.take(k + 1) == block@.take(k as int).push(b));
            assert forall|c: Coord| in_grid(size, c) implies (#[trigger] r@[idx(size, c)]
                <==> block@.take(k + 1).contains(c)) by {
                let t = block@.take(k + 1);
                lemma_idx(size, c);
                if in_grid(size, b) {
                    lemma_idx(size, b);
                }
                if t.contains(c) {
                    let j = choose|j: int| 0 <= j < t.len() && t[j] == c;
                    if j < k {
                        assert(block@.take(k as int)[j] == c);
                    }
                }
                if block@.take(k as int).contains(c) {
                    let j = choose|j: int| 0 <= j < k && block@.take(k as int)[j] == c;
                    assert(t[j] == c);
                }
                if c == b {
                    assert(t[k as int] == c);
                }
            }
        }
        k = k + 1;
    }
    assert(block@.take(block.len() as int) == block@);
    r
}

impl Search {
    fn new(size: (usize, usize), start: Coord, end: Coord, blocked: Vec<bool>, blk: Ghost<Seq<Coord>>) -> (r: Search)
        requires
            size.0 <= i32::MAX,
            size.1 <= i32::MAX,
            size.0 * size.1 <= usize::MAX,
            in_grid(size, start),
            in_grid(size, end),
            !blk@.contains(start),
            !blk@.contains(end),
            blocked.len() == size.0 * size.1,
            forall|c: Coord|
                in_grid(size, c) ==> (#[trigger] blocked@[idx(size, c)] <==> blk@.contains(c)),
        ensures
            r.wf(size, start, end, blk@),
            r.frontier(size, blk@),
            r.closed@.len() == 0,
            r.model() == init_model(size, start, end),
    {
            broadcast use lemma_idx;

        let n = size.0 * size.1;
        let mut mark = filled(Mark::Unseen, n);
        let si = index_of(size, &start);
        mark.set(si, Mark::Open);
        let g = filled(0u128, n);
        let mut f = filled(0u128, n);
        f.set(si, calc_cost(&start, &end) as u128);
        let parent: Vec<Option<Coord>> = filled(None, n);
        let r = Search { mark, g, f, parent, blocked, closed: Ghost(Set::empty()) };
        proof {
            assert forall|c: Coord| in_grid(size, c) && #[trigger] r.seen(size, c) implies c == start by {
                if c != start {
                    assert(idx(size, c) != idx(size, start));
                }
            }
            lemma_octile_triangle(start, end, start);
            let im = init_model(size, start, end);
            assert(r.mark@ =~= im.0);
            assert(r.g@ =~= im.1);
            assert(r.f@ =~= im.2);
            assert(r.parent@ =~= im.3);
        }
        r
    }

    /// The open cell of least `f`; among equal ones, the first in row-major order.
    fn pick_open(&self, n: usize) -> (r: Option<usize>)
        requires
            self.mark.len() == n,
            self.f.len() == n,
        ensures
            match r {
                None => forall|i: int| 0 <= i < n ==> self.mark@[i] != Mark::Open,
                Some(i) => {
                    &&& i < n
                    &&& self.mark@[i as int] == Mark::Open
                    &&& forall|j: int|
                        0 <= j < n && self.mark@[j] == Mark::Open ==> self.f@[i as int] <= self.f@[j]
                    &&& forall|j: int|
                        0 <= j < i && self.mark@[j] == Mark::Open ==> self.f@[i as int] < self.f@[j]
                },
            },
    {
        let mut best: Option<usize> = None;
        let mut i: usize = 0;
        while i < n
            invariant
                i <= n,
                self.mark.len() == n,
                self.f.len() == n,
                match best {
                    None => forall|j: int| 0 <= j < i ==> self.mark@[j] != Mark::Open,
                    Some(b) => {
                        &&& b < i
                        &&& self.mark@[b as int] == Mark::Open
                        &&& forall|j: int|
                            0 <= j < i && self.mark@[j] == Mark::Open ==> self.f@[b as int]
                                <= self.f@[j]
                        &&& forall|j: int|
                            0 <= j < b && self.mark@[j] == Mark::Open ==> self.f@[b as int]
                                < self.f@[j]
                    },
                },
            decreases n - i,
        {
            if self.mark[i] == Mark::Open {
                match best {
                    None => {
                        best = Some(i);
                    },
                    Some(b) => {
                        if self.f[i] < self.f[b] {
                            best = Some(i);
                        }
                    },
                }
            }
            i = i + 1;
        }
        best
    }
}

impl Search {
    /// Closes `cur` and relaxes each free neighbour that is not closed.
    #[verifier::rlimit(50)]
    fn expand(
        &mut self,
        size: (usize, usize),
        start: Coord,
        end: Coord,
        blk: Ghost<Seq<Coord>>,
        cur: Coord,
    )
        requires
            old(self).wf(size, start, end, blk@),
            old(self).frontier(size, blk@),
            in_grid(size, cur),
            old(self).open_at(size, cur),
            cur != end,
            no_obstacle(size, blk@) ==> old(self).fc(size, cur) == octile(start, end),
        ensures
            final(self).wf(size, start, end, blk@),
            final(self).frontier(size, blk@),
            final(self).closed@.len() == old(self).closed@.len() + 1,
            final(self).model() == relaxed(old(self).model(), size, end, blk@, cur),
    {
        broadcast use lemma_idx;

        proof {
            self.lemma_closed_bound(size, start, end, blk@);
        }
        let ghost n = size.0 * size.1;
        let ghost len0 = self.closed@.len();
        let ghost m0 = self.model();
        let ci = index_of(size, &cur);
        self.mark.set(ci, Mark::Closed);
        self.closed = Ghost(self.closed@.insert(ci as int));
        let gcur = self.g[ci];
        proof {
            assert(old(self).seen(size, cur));
        }
        let nb = neighbor(&cur, size);
        let mut k: usize = 0;
        proof {
            assert forall|c: Coord|
                in_grid(size, c) && #[trigger] self.done(size, c) && c != cur implies self.frontier_of(
                size,
                blk@,
                c,
            ) by {
                assert(old(self).done(size, c));
                assert(old(self).frontier_of(size, blk@, c));
                assert forall|d: Coord|
                    in_grid(size, d) && is_step(c, d) && !blk@.contains(d) && !(
                    #[trigger] self.done(size, d)) implies self.seen(size, d) && self.gc(size, d)
                    <= self.gc(size, c) + octile(c, d) by {
                    assert(!old(self).done(size, d));
                }
            }
            assert forall|c: Coord| in_grid(size, c) && #[trigger] self.seen(size, c) implies {
                &&& !blk@.contains(c)
                &&& self.fc(size, c) == self.gc(size, c) + octile(c, end)
                &&& octile(start, c) <= self.gc(size, c) <= 14 * self.closed@.len()
                &&& (c != start ==> self.par(size, c) is Some)
            } by {
                lemma_idx(size, c);
                assert(old(self).seen(size, c));
            }
            assert forall|i: int|
                #[trigger] self.closed@.contains(i) <==> (0 <= i < n && self.mark@[i]
                    == Mark::Closed) by {
                if i != ci {
                    assert(old(self).closed@.contains(i) <==> self.closed@.contains(i));
                }
            }
            assert forall|c: Coord|
                in_grid(size, c) && (#[trigger] self.par(size, c)) is Some implies {
                let p = self.par(size, c)->Some_0;
                &&& in_grid(size, p)
                &&& self.done(size, p)
                &&& is_step(p, c)
                &&& self.gc(size, c) == self.gc(size, p) + octile(p, c)
                &&& self.seen(size, c)
                &&& c != start
            } by {
                lemma_idx(size, c);
                assert(old(self).par(size, c) is Some);
                let p = self.par(size, c)->Some_0;
                lemma_idx(size, p);
                assert(old(self).done(size, p));
            }
            if no_obstacle(size, blk@) {
                assert forall|c: Coord|
                    in_grid(size, c) && #[trigger] self.done(size, c) implies self.gc(size, c)
                    + octile(c, end) == octile(start, end) by {
                    lemma_idx(size, c);
                    if c != cur {
                        assert(old(self).done(size, c));
                    } else {
                        assert(old(self).seen(size, cur));
                    }
                }
            }
            lemma_idx(size, end);
            lemma_idx(size, start);
            assert(!old(self).closed@.contains(ci as int));
            assert(self.wf(size, start, end, blk@));
            assert(old(self).seen(size, cur));
            assert forall|j: int| 0 <= j < n implies #[trigger] model_at(self.model(), j) == if j
                != ci && !nb@.take(0).contains(coord_of(size, j)) {
                model_at(m0, j)
            } else {
                relaxed_at(m0, size, end, blk@, cur, j)
            } by {
                lemma_coord_of_idx(size, cur);
            }
        }
        while k < nb.len()
            invariant
                size.0 <= i32::MAX,
                size.1 <= i32::MAX,
                in_grid(size, cur),
                cur != end,
                ci == idx(size, cur),
                self.wf(size, start, end, blk@),
                self.done(size, cur),
                gcur == self.gc(size, cur),
                gcur <= 14 * len0,
                self.closed@.len() == len0 + 1,
                len0 <= n,
                n == size.0 * size.1,
                forall|c: Coord|
                    in_grid(size, c) && #[trigger] self.done(size, c) && c != cur
                        ==> self.frontier_of(size, blk@, c),
                forall|c: Coord| #[trigger] nb@.contains(c) <==> (in_grid(size, c) && is_step(cur, c)),
                forall|t: int|
                    0 <= t < k ==> {
                        let d = #[trigger] nb@[t];
                        !blk@.contains(d) && !self.done(size, d) ==> self.seen(size, d) && self.gc(
                            size,
                            d,
                        ) <= gcur + octile(cur, d)
                    },
                k <= nb.len(),
                m0 == old(self).model(),
                m0.1[ci as int] == gcur,
                forall|j: int|
                    0 <= j < n ==> #[trigger] model_at(self.model(), j) == if j != ci
                        && !nb@.take(k as int).contains(coord_of(size, j)) {
                        model_at(m0, j)
                    } else {
                        relaxed_at(m0, size, end, blk@, cur, j)
                    },
            decreases nb.len() - k,
        {
            let d = nb[k];
            assert(nb@.contains(d));
            let di = index_of(size, &d);
            let ghost before = self.model();
            proof {
                lemma_idx(size, d);
                lemma_coord_of_idx(size, d);
                lemma_coord_of_idx(size, cur);
                assert(model_at(before, di as int) == if di != ci && !nb@.take(k as int).contains(d) {
                    model_at(m0, di as int)
                } else {
                    relaxed_at(m0, size, end, blk@, cur, di as int)
                });
                assert(self.blocked@[idx(size, d)] <==> blk@.contains(d));
            }
            if self.mark[di] != Mark::Closed && !self.blocked[di] {
                let cost = calc_cost(&cur, &d) as u128;
                proof {
                    lemma_step_cost(cur, d);
                    lemma_octile_triangle(start, cur, d);
                    lemma_octile_triangle(d, end, d);
                }
                assert(self.seen(size, cur));
                assert(gcur <= 14 * (len0 + 1));
                assert(n <= usize::MAX);
                assert(usize::MAX <= u64::MAX);
                assert(octile(d, end) <= 14 * 0x1_0000_0000);
                let tentative = gcur + cost;
                if self.mark[di] == Mark::Unseen || tentative < self.g[di] {
                    let ghost pre = *self;
                    let h = calc_cost(&d, &end) as u128;
                    self.g.set(di, tentative);
                    self.f.set(di, tentative + h);
                    self.parent.set(di, Some(cur));
                    self.mark.set(di, Mark::Open);
                    proof {
                        assert(d != start);
                        assert forall|c: Coord| in_grid(size, c) && c != d implies #[trigger] idx(size, c) != di by {
                            lemma_idx(size, c);
                        }
                        assert forall|c: Coord|
                            in_grid(size, c) && #[trigger] self.done(size, c) && c != cur
                                implies self.frontier_of(size, blk@, c) by {
                            lemma_idx(size, c);
                            assert(pre.done(size, c));
                            assert(pre.frontier_of(size, blk@, c));
                            assert forall|e: Coord|
                                in_grid(size, e) && is_step(c, e) && !blk@.contains(e) && !(
                                #[trigger] self.done(size, e)) implies self.seen(size, e)
                                && self.gc(size, e) <= self.gc(size, c) + octile(c, e) by {
                                lemma_idx(size, e);
                                if e != d {
                                    assert(idx(size, e) != di);
                                }
                                assert(!pre.done(size, e));
                            }
                        }
                        assert forall|c: Coord| in_grid(size, c) && #[trigger] self.seen(size, c) implies {
                            &&& !blk@.contains(c)
                            &&& self.fc(size, c) == self.gc(size, c) + octile(c, end)
                            &&& octile(start, c) <= self.gc(size, c) <= 14 * self.closed@.len()
                            &&& (c != start ==> self.par(size, c) is Some)
                        } by {
                            lemma_idx(size, c);
                            if c != d {
                                assert(pre.seen(size, c));
                            } else {
                                assert(pre.seen(size, cur));
                                assert(!pre.blocked@[idx(size, d)]);
                            }
                        }
                        assert forall|i: int|
                            #[trigger] self.closed@.contains(i) <==> (0 <= i < n && self.mark@[i]
                                == Mark::Closed) by {
                            assert(pre.closed@.contains(i) <==> (0 <= i < n && pre.mark@[i]
                                == Mark::Closed));
                        }
                        assert forall|c: Coord|
                            in_grid(size, c) && (#[trigger] self.par(size, c)) is Some implies {
                            let p = self.par(size, c)->Some_0;
                            &&& in_grid(size, p)
                            &&& self.done(size, p)
                            &&& is_step(p, c)
                            &&& self.gc(size, c) == self.gc(size, p) + octile(p, c)
                            &&& self.seen(size, c)
                            &&& c != start
                        } by {
                            lemma_idx(size, c);
                            if c != d {
                                assert(pre.par(size, c) is Some);
                                let p = self.par(size, c)->Some_0;
                                lemma_idx(size, p);
                                assert(pre.done(size, p));
                            } else {
                                lemma_idx(size, cur);
                            }
                        }
                        if no_obstacle(size, blk@) {
                            assert forall|c: Coord|
                                in_grid(size, c) && #[trigger] self.done(size, c) implies self.gc(
                                size,
                                c,
                            ) + octile(c, end) == octile(start, end) by {
                                lemma_idx(size, c);
                                assert(pre.done(size, c));
                            }
                        }
                        lemma_idx(size, end);
                        lemma_idx(size, start);
                        assert(self.wf(size, start, end, blk@));
                        assert forall|t: int|
                            0 <= t < k + 1 implies {
                            let e = #[trigger] nb@[t];
                            !blk@.contains(e) && !self.done(size, e) ==> self.seen(size, e)
                                && self.gc(size, e) <= gcur + octile(cur, e)
                        } by {
                            let e = nb@[t];
                            assert(nb@.contains(e));
                            lemma_idx(size, e);
                            if e != d {
                                assert(idx(size, e) != di);
                                if t < k {
                                    assert(!blk@.contains(e) && !pre.done(size, e) ==> pre.seen(size, e)
                                        && pre.gc(size, e) <= gcur + octile(cur, e));
                                }
                            }
                        }
                    }
                }
            }
            proof {
                assert(nb@.take(k + 1) == nb@.take(k as int).push(d));
                assert forall|j: int| 0 <= j < n implies #[trigger] model_at(self.model(), j) == if j
                    != ci && !nb@.take(k + 1).contains(coord_of(size, j)) {
                    model_at(m0, j)
                } else {
                    relaxed_at(m0, size, end, blk@, cur, j)
                } by {
                    lemma_coord_of(size, j);
                    let e = coord_of(size, j);
                    let tk = nb@.take(k as int);
                    let tk1 = nb@.take(k + 1);
                    if tk1.contains(e) && !tk.contains(e) {
                        let t = choose|t: int| 0 <= t < tk1.len() && tk1[t] == e;
                        if t < k {
                            assert(tk[t] == e);
                        }
                    }
                    if tk.contains(e) {
                        let t = choose|t: int| 0 <= t < tk.len() && tk[t] == e;
                        assert(tk1[t] == e);
                    }
                    if e == d {
                        assert(nb@.take(k + 1)[k as int] == e);
                    } else {
                        assert(j != di);
                        assert(model_at(self.model(), j) == model_at(before, j));
                    }
                }
            }
            k = k + 1;
        }
        proof {
            assert(nb@.take(nb.len() as int) == nb@);
            let rm = relaxed(m0, size, end, blk@, cur);
            assert(m0.0.len() == n);
            assert forall|j: int| 0 <= j < n implies {
                &&& self.mark@[j] == rm.0[j]
                &&& self.g@[j] == rm.1[j]
                &&& self.f@[j] == rm.2[j]
                &&& self.parent@[j] == rm.3[j]
            } by {
                lemma_coord_of(size, j);
                assert(model_at(self.model(), j) == if j != ci && !nb@.contains(coord_of(size, j)) {
                    model_at(m0, j)
                } else {
                    relaxed_at(m0, size, end, blk@, cur, j)
                });
            }
            assert(self.mark@ =~= rm.0);
            assert(self.g@ =~= rm.1);
            assert(self.f@ =~= rm.2);
            assert(self.parent@ =~= rm.3);
        }
        proof {
            assert forall|c: Coord|
                in_grid(size, c) && #[trigger] self.done(size, c) implies self.frontier_of(
                size,
                blk@,
                c,
            ) by {
                if c == cur {
                    assert forall|d: Coord|
                        in_grid(size, d) && is_step(c, d) && !blk@.contains(d) && !(
                        #[trigger] self.done(size, d)) implies self.seen(size, d) && self.gc(size, d)
                        <= self.gc(size, c) + octile(c, d) by {
                        assert(nb@.contains(d));
                        let t = choose|t: int| 0 <= t < nb@.len() && nb@[t] == d;
                    }
                }
            }
        }
    }
}

/// Follows the predecessor links back from `end` and returns the cells
/// in walking order, from `start` to `end`.
#[verifier::rlimit(60)]
fn reconstruct_path(
    search: &Search,
    size: (usize, usize),
    end: Coord,
    start: Coord,
    blk: Ghost<Seq<Coord>>,
) -> (r: Vec<Coord>)
    requires
        search.wf(size, start, end, blk@),
        search.seen(size, end),
    ensures
        is_route(size, blk@, start, end, r@),
        route_cost(r@) == search.gc(size, end),
        follows(search.model(), size, start, end, r@),
{
    let mut rev: Vec<Coord> = Vec::new();
    rev.push(end);
    let mut cur = end;
    loop
        invariant
            search.wf(size, start, end, blk@),
            rev.len() >= 1,
            rev@[0] == end,
            rev@.last() == cur,
            forall|t: int|
                0 <= t < rev.len() ==> in_grid(size, #[trigger] rev@[t]) && search.seen(size, rev@[t]),
            forall|t: int|
                0 <= t < rev.len() - 1 ==> search.par(size, #[trigger] rev@[t]) == Some(rev@[t + 1]),
            forall|t: int, u: int|
                0 <= t < u < rev.len() ==> search.gc(size, #[trigger] rev@[t]) > search.gc(
                    size,
                    #[trigger] rev@[u],
                ),
        ensures
            search.par(size, cur) is None,
        decreases search.gc(size, cur),
    {
        proof {
            assert(in_grid(size, rev@[rev.len() - 1]));
            lemma_idx(size, cur);
        }
        let ci = index_of(size, &cur);
        match search.parent[ci] {
            None => {
                break;
            },
            Some(p) => {
                proof {
                    assert(search.par(size, cur) == Some(p));
                    lemma_step_cost(p, cur);
                }
                let ghost before = rev@;
                rev.push(p);
                cur = p;
                proof {
                    assert forall|t: int, u: int|
                        0 <= t < u < rev.len() implies search.gc(size, #[trigger] rev@[t])
                        > search.gc(size, #[trigger] rev@[u]) by {
                        if u == rev.len() - 1 {
                            if t < before.len() - 1 {
                                assert(search.gc(size, before[t]) > search.gc(
                                    size,
                                    before[before.len() - 1],
                                ));
                            }
                        } else {
                            assert(before[t] == rev@[t] && before[u] == rev@[u]);
                        }
                    }
                    assert forall|t: int| 0 <= t < rev.len() - 1 implies search.par(
                        size,
                        #[trigger] rev@[t],
                    ) == Some(rev@[t + 1]) by {
                        if t < before.len() - 1 {
                            assert(before[t] == rev@[t]);
                        }
                    }
                }
            },
        }
    }
    let mut out: Vec<Coord> = Vec::new();
    let mut k: usize = rev.len();
    let ghost len = rev.len() as int;
    while k > 0
        invariant
            search.wf(size, start, end, blk@),
            len == rev.len(),
            rev@[0] == end,
            rev@.last() == start,
            k <= len,
            out.len() + k == len,
            forall|t: int| 0 <= t < out.len() ==> #[trigger] out@[t] == rev@[len - 1 - t],
            out.len() > 0 ==> route_cost(out@) == search.gc(size, out@.last()),
            forall|t: int|
                0 <= t < len ==> in_grid(size, #[trigger] rev@[t]) && search.seen(size, rev@[t]),
            forall|t: int|
                0 <= t < len - 1 ==> search.par(size, #[trigger] rev@[t]) == Some(rev@[t + 1]),
        decreases k,
    {
        k = k - 1;
        let x = rev[k];
        let ghost before = out@;
        out.push(x);
        proof {
            assert(out@.drop_last() == before);
            if before.len() > 0 {
                assert(before.last() == rev@[k + 1]);
                assert(search.par(size, rev@[k as int]) == Some(rev@[k + 1]));
            } else {
                assert(x == start);
            }
        }
    }
    proof {
        let o = out@;
        assert(out.len() == len);
        assert forall|t: int| 0 <= t < o.len() implies in_grid(size, #[trigger] o[t]) && !blk@.contains(
            o[t],
        ) by {
            assert(search.seen(size, rev@[len - 1 - t]));
        }
        assert forall|t: int| 0 <= t < o.len() - 1 implies is_step(#[trigger] o[t], o[t + 1]) by {
            let c = rev@[len - 2 - t];
            assert(search.par(size, c) == Some(rev@[len - 1 - t]));
        }
        assert forall|t: int| 0 <= t < o.len() - 1 implies search.model().3[idx(
            size,
            #[trigger] o[t + 1],
        )] == Some(o[t]) by {
            let c = rev@[len - 2 - t];
            assert(search.par(size, c) == Some(rev@[len - 1 - t]));
        }
        assert forall|t: int, u: int| 0 <= t < o.len() && 0 <= u < o.len() && t != u implies o[t]
            != o[u] by {
            if t < u {
                assert(search.gc(size, rev@[len - 1 - u]) > search.gc(size, rev@[len - 1 - t]));
            } else {
                assert(search.gc(size, rev@[len - 1 - t]) > search.gc(size, rev@[len - 1 - u]));
            }
        }
        assert(o[0] == start);
        assert(o.last() == end);
    }
    out
}

impl Search {
    /// With no open cell left, every cell of a walk from `start` is closed.
    proof fn lemma_walk_closed(
        &self,
        size: (usize, usize),
        start: Coord,
        end: Coord,
        blk: Seq<Coord>,
        w: Seq<Coord>,
        k: int,
    )
        requires
            self.wf(size, start, end, blk),
            self.frontier(size, blk),
            forall|i: int| 0 <= i < size.0 * size.1 ==> self.mark@[i] != Mark::Open,
            is_walk(size, blk, w),
            w[0] == start,
            0 <= k < w.len(),
        ensures
            self.done(size, w[k]),
        decreases k,
    {
        lemma_idx(size, w[k]);
        if k > 0 {
            self.lemma_walk_closed(size, start, end, blk, w, k - 1);
            let c = w[k - 1];
            let d = w[k];
            assert(in_grid(size, c));
            assert(self.done(size, c));
            assert(is_step(c, d));
            assert(in_grid(size, d) && !blk.contains(d));
            assert(self.frontier_of(size, blk, c));
            if !self.done(size, d) {
                assert(self.seen(size, d));
                assert(self.mark@[idx(size, d)] != Mark::Open);
            }
        }
    }

    /// On a grid without obstacles some open cell has `f` no greater than the
    /// cost of the straight route.
    proof fn lemma_open_on_line(
        &self,
        size: (usize, usize),
        start: Coord,
        end: Coord,
        blk: Seq<Coord>,
        c: Coord,
    )
        requires
            self.wf(size, start, end, blk),
            self.frontier(size, blk),
            no_obstacle(size, blk),
            in_grid(size, c),
            self.seen(size, c),
            self.gc(size, c) + octile(c, end) <= octile(start, end),
        ensures
            exists|o: Coord|
                in_grid(size, o) && self.open_at(size, o) && self.fc(size, o) <= octile(start, end),
        decreases octile(c, end),
    {
        lemma_idx(size, c);
        if !self.open_at(size, c) {
            lemma_idx(size, end);
            let m = toward(c, end);
            lemma_toward(size, c, end);
            lemma_idx(size, m);
            assert(self.done(size, c));
            assert(self.frontier_of(size, blk, c));
            if self.done(size, m) {
                assert(self.gc(size, m) + octile(m, end) == octile(start, end));
            } else {
                assert(self.seen(size, m));
            }
            self.lemma_open_on_line(size, start, end, blk, m);
        }
    }
}

/// Cutting a walk after its `m`-th cell saves at least the octile cost from
/// there to its last cell.
proof fn lemma_route_cost_split(w: Seq<Coord>, m: int)
    requires
        1 <= m <= w.len(),
    ensures
        route_cost(w) >= route_cost(w.take(m)) + octile(w[m - 1], w.last()),
    decreases w.len(),
{
    lemma_octile_triangle(w.last(), w.last(), w.last());
    if m < w.len() {
        let v = w.drop_last();
        lemma_route_cost_split(v, m);
        assert(v.take(m) =~= w.take(m));
        lemma_octile_triangle(w[m - 1], v.last(), w.last());
    } else {
        assert(w.take(m) =~= w);
    }
}

proof fn lemma_route_cost_step(w: Seq<Coord>, k: int)
    requires
        1 <= k < w.len(),
    ensures
        route_cost(w.take(k + 1)) == route_cost(w.take(k)) + octile(w[k - 1], w[k]),
{
    assert(w.take(k + 1).drop_last() =~= w.take(k));
}

impl Search {
    /// No walk from `start` reaches `c` for less than its `g`.
    spec fn settled(&self, size: (usize, usize), start: Coord, blk: Seq<Coord>, c: Coord) -> bool {
        forall|w: Seq<Coord>|
            #[trigger] is_walk(size, blk, w) && w[0] == start && w.last() == c ==> self.gc(size, c)
                <= route_cost(w)
    }

    spec fn all_settled(&self, size: (usize, usize), start: Coord, blk: Seq<Coord>) -> bool {
        forall|c: Coord|
            in_grid(size, c) && #[trigger] self.done(size, c) ==> self.settled(size, start, blk, c)
    }

    proof fn lemma_first_open(&self, size: (usize, usize), w: Seq<Coord>, i: int)
        requires
            0 <= i < w.len(),
            forall|t: int| 0 <= t < i ==> self.done(size, #[trigger] w[t]),
            !self.done(size, w.last()),
        ensures
            exists|k: int|
                i <= k < w.len() && !self.done(size, #[trigger] w[k]) && forall|t: int|
                    0 <= t < k ==> self.done(size, #[trigger] w[t]),
        decreases w.len() - i,
    {
        if !self.done(size, w[i]) {
            assert(i <= i < w.len() && !self.done(size, w[i]));
        } else {
            self.lemma_first_open(size, w, i + 1);
        }
    }

    /// The first cell of a walk that is not closed has been reached for no
    /// more than the walk's cost up to it.
    proof fn lemma_prefix_bound(
        &self,
        size: (usize, usize),
        start: Coord,
        end: Coord,
        blk: Seq<Coord>,
        w: Seq<Coord>,
        k: int,
    )
        requires
            self.wf(size, start, end, blk),
            self.frontier(size, blk),
            self.all_settled(size, start, blk),
            is_walk(size, blk, w),
            w[0] == start,
            0 <= k < w.len(),
            forall|t: int| 0 <= t < k ==> self.done(size, #[trigger] w[t]),
            !self.done(size, w[k]),
        ensures
            self.seen(size, w[k]),
            self.gc(size, w[k]) <= route_cost(w.take(k + 1)),
    {
        if k > 0 {
            let c = w[k - 1];
            let d = w[k];
            assert(in_grid(size, w[k - 1]));
            assert(self.done(size, c));
            let v = w.take(k);
            assert forall|t: int| 0 <= t < v.len() implies in_grid(size, #[trigger] v[t])
                && !blk.contains(v[t]) by {
                assert(v[t] == w[t]);
            }
            assert forall|t: int| 0 <= t < v.len() - 1 implies is_step(#[trigger] v[t], v[t + 1]) by {
                assert(v[t] == w[t] && v[t + 1] == w[t + 1]);
            }
            assert(is_walk(size, blk, v));
            assert(self.settled(size, start, blk, c));
            assert(self.gc(size, c) <= route_cost(v));
            assert(in_grid(size, w[k]) && !blk.contains(w[k]));
            assert(is_step(w[k - 1], w[k]));
            assert(self.frontier_of(size, blk, c));
            lemma_route_cost_step(w, k);
        } else {
            assert(w.take(1).len() == 1);
        }
    }

    /// The cell that is popped is settled.
    proof fn lemma_pop_settled(
        &self,
        size: (usize, usize),
        start: Coord,
        end: Coord,
        blk: Seq<Coord>,
        cur: Coord,
    )
        requires
            self.wf(size, start, end, blk),
            self.frontier(size, blk),
            self.all_settled(size, start, blk),
            in_grid(size, cur),
            is_pick(self.model(), idx(size, cur)),
        ensures
            self.settled(size, start, blk, cur),
    {
        lemma_idx(size, cur);
        assert(self.seen(size, cur));
        assert forall|w: Seq<Coord>|
            #[trigger] is_walk(size, blk, w) && w[0] == start && w.last() == cur implies self.gc(
            size,
            cur,
        ) <= route_cost(w) by {
            self.lemma_first_open(size, w, 0);
            let k = choose|k: int|
                0 <= k < w.len() && !self.done(size, #[trigger] w[k]) && forall|t: int|
                    0 <= t < k ==> self.done(size, #[trigger] w[t]);
            self.lemma_prefix_bound(size, start, end, blk, w, k);
            let d = w[k];
            assert(in_grid(size, w[k]));
            lemma_idx(size, d);
            assert(self.open_at(size, d));
            assert(self.model().2[idx(size, cur)] <= self.model().2[idx(size, d)]);
            lemma_route_cost_split(w, k + 1);
            lemma_octile_triangle(d, cur, end);
        }
    }
}

impl Search {
    /// Expanding a settled cell keeps every closed cell settled.
    proof fn lemma_settled_kept(
        &self,
        next: &Search,
        size: (usize, usize),
        start: Coord,
        end: Coord,
        blk: Seq<Coord>,
        cur: Coord,
    )
        requires
            self.wf(size, start, end, blk),
            next.wf(size, start, end, blk),
            self.all_settled(size, start, blk),
            self.settled(size, start, blk, cur),
            in_grid(size, cur),
            next.model() == relaxed(self.model(), size, end, blk, cur),
        ensures
            next.all_settled(size, start, blk),
    {
        assert forall|c: Coord| in_grid(size, c) && #[trigger] next.done(size, c) implies next.settled(
            size,
            start,
            blk,
            c,
        ) by {
            lemma_idx(size, c);
            lemma_idx(size, cur);
            lemma_coord_of_idx(size, c);
            let j = idx(size, c);
            let e = relaxed_at(self.model(), size, end, blk, cur, j);
            assert(next.model().0[j] == e.0);
            assert(next.model().1[j] == e.1);
            if c != cur {
                assert(j != idx(size, cur));
                assert(self.done(size, c));
            }
            assert(next.gc(size, c) == self.gc(size, c));
            assert(self.settled(size, start, blk, c));
        }
    }
}

/// A* search from `start` to `end` on a grid of `size.0` columns and
/// `size.1` rows, around the cells of `block`.
///
/// Cells are expanded in ascending `g + h`, both measured in octile cost;
/// among open cells of equal priority the one first in row-major order
/// (smaller `y`, then smaller `x`) goes first. A cell is expanded at most
/// once. When `end` cannot be reached, or `start` or `end` is blocked, the
/// result is the single cell `start`.
pub fn a_star(size: (usize, usize), start: Coord, end: Coord, block: Vec<Coord>) -> (r: Vec<Coord>)
    requires
        size.0 <= i32::MAX,
        size.1 <= i32::MAX,
        size.0 * size.1 <= usize::MAX,
        in_grid(size, start),
        in_grid(size, end),
    ensures
        reachable(size, block@, start, end) ==> is_route(size, block@, start, end, r@),
        !reachable(size, block@, start, end) ==> r@ == seq![start],
        no_obstacle(size, block@) ==> route_cost(r@) == octile(start, end),
        r@ == route_of(size, start, end, block@),
        forall|w: Seq<Coord>|
            #[trigger] is_walk(size, block@, w) && w[0] == start && w.last() == end ==> route_cost(r@)
                <= route_cost(w),
{
    let ghost blk = block@;
    let blocked = blocked_cells(size, &block);
    let si = index_of(size, &start);
    let ei = index_of(size, &end);
    proof {
        lemma_idx(size, start);
        lemma_idx(size, end);
    }
    if blocked[si] || blocked[ei] {
        proof {
            assert forall|w: Seq<Coord>|
                is_walk(size, blk, w) && w[0] == start implies w.last() != end by {
                assert(!blk.contains(w[0]));
                assert(!blk.contains(w[w.len() - 1]));
            }
        }
        let mut r: Vec<Coord> = Vec::new();
        r.push(start);
        return r;
    }
    let mut search = Search::new(size, start, end, blocked, Ghost(blk));
    proof {
        assert forall|c: Coord| in_grid(size, c) && #[trigger] search.done(size, c) implies search.settled(
            size,
            start,
            blk,
            c,
        ) by {
            lemma_idx(size, c);
            assert(search.closed@.contains(idx(size, c)));
        }
    }
    let n = size.0 * size.1;
    loop
        invariant
            search.wf(size, start, end, blk),
            search.frontier(size, blk),
            n == size.0 * size.1,
            blk == block@,
            !blk.contains(start),
            !blk.contains(end),
            search.all_settled(size, start, blk),
            run(search.model(), size, end, blk, (n + 1 - search.closed@.len()) as nat) == run(
                init_model(size, start, end),
                size,
                end,
                blk,
                (n + 1) as nat,
            ),
        decreases n - search.closed@.len(),
    {
        proof {
            search.lemma_closed_bound(size, start, end, blk);
            lemma_idx(size, start);
            lemma_octile_triangle(start, end, start);
            if no_obstacle(size, blk) {
                search.lemma_open_on_line(size, start, end, blk, start);
            }
        }
        match search.pick_open(n) {
            None => {
                proof {
                    if no_obstacle(size, blk) {
                        let o = choose|o: Coord|
                            in_grid(size, o) && search.open_at(size, o) && search.fc(size, o)
                                <= octile(start, end);
                        lemma_idx(size, o);
                    }
                    if reachable(size, blk, start, end) {
                        let w = choose|w: Seq<Coord>|
                            is_walk(size, blk, w) && w[0] == start && w.last() == end;
                        search.lemma_walk_closed(size, start, end, blk, w, w.len() - 1);
                    }
                    assert(!exists|i: int| is_pick(search.model(), i));
                }
                let mut r: Vec<Coord> = Vec::new();
                r.push(start);
                return r;
            },
            Some(i) => {
                let cur = coord_at(size, i);
                proof {
                    lemma_idx(size, cur);
                    assert(search.seen(size, cur));
                    lemma_octile_triangle(start, cur, end);
                    lemma_octile_triangle(end, end, end);
                    if no_obstacle(size, blk) {
                        let o = choose|o: Coord|
                            in_grid(size, o) && search.open_at(size, o) && search.fc(size, o)
                                <= octile(start, end);
                        lemma_idx(size, o);
                        assert(search.fc(size, cur) == octile(start, end));
                    }
                }
                proof {
                    lemma_pick(search.model(), i as int);
                    lemma_coord_of_idx(size, cur);
                    search.lemma_pop_settled(size, start, end, blk, cur);
                }
                if cur.0 == end.0 && cur.1 == end.1 {
                    let r = reconstruct_path(&search, size, end, start, Ghost(blk));
                    proof {
                        assert(is_walk(size, blk, r@) && r@[0] == start && r@.last() == end);
                        let m = search.model();
                        let p = parent_path(m, size, start, end);
                        assert(follows(m, size, start, end, p));
                        if p.len() <= r@.len() {
                            lemma_follows_unique(m, size, start, end, p, r@);
                        } else {
                            lemma_follows_unique(m, size, start, end, r@, p);
                        }
                    }
                    return r;
                }
                let ghost len0 = search.closed@.len();
                let ghost prev = search;
                search.expand(size, start, end, Ghost(blk), cur);
                proof {
                    prev.lemma_settled_kept(&search, size, start, end, blk, cur);
                }
                proof {
                    search.lemma_closed_bound(size, start, end, blk);
                }
            },
        }
    }
}

/// Whether `block` lists the cell `c`.
pub fn holds(block: &Vec<Coord>, c: &Coord) -> (r: bool)
    ensures
        r == block@.contains(*c),
{
    let mut k: usize = 0;
    while k < block.len()
        invariant
            k <= block.len(),
            forall|j: int| 0 <= j < k ==> block@[j] != *c,
        decreases block.len() - k,
    {
        let b = block[k];
        if b.0 == c.0 && b.1 == c.1 {
            assert(block@[k as int] == *c);
            return true;
        }
        k = k + 1;
    }
    false
}

/// Searches like [`a_star`], and says apart a route from a failure:
/// `Some(route)` exactly when `end` can be reached from `start`.
pub fn search(size: (usize, usize), start: Coord, end: Coord, block: Vec<Coord>) -> (r: Option<
    Vec<Coord>,
>)
    requires
        size.0 <= i32::MAX,
        size.1 <= i32::MAX,
        size.0 * size.1 <= usize::MAX,
        in_grid(size, start),
        in_grid(size, end),
    ensures
        r is Some <==> reachable(size, block@, start, end),
        r matches Some(route) ==> is_route(size, block@, start, end, route@),
        r matches Some(route) ==> route@ == route_of(size, start, end, block@),
        r matches Some(route) ==> forall|w: Seq<Coord>|
            #[trigger] is_walk(size, block@, w) && w[0] == start && w.last() == end ==> route_cost(
                route@,
            ) <= route_cost(w),
        no_obstacle(size, block@) ==> (r matches Some(route) && route_cost(route@) == octile(
            start,
            end,
        )),
{
    let ghost blk = block@;
    let start_free = !holds(&block, &start);
    let route = a_star(size, start, end, block);
    let last = route[route.len() - 1];
    if start_free && last.0 == end.0 && last.1 == end.1 {
        proof {
            if !reachable(size, blk, start, end) {
                let w = seq![start];
                assert(w.last() == end);
                assert(is_walk(size, blk, w));
            }
        }
        Some(route)
    } else {
        proof {
            if reachable(size, blk, start, end) {
                let w = choose|w: Seq<Coord>| is_walk(size, blk, w) && w[0] == start && w.last() == end;
                assert(!blk.contains(w[0]));
                assert(route@.last() == end);
            }
            if no_obstacle(size, blk) {
                assert(is_walk(size, blk, route@));
            }
        }
        None
    }
}

proof fn lemma_run_same_cells(
    m: Model,
    size: (usize, usize),
    end: Coord,
    b1: Seq<Coord>,
    b2: Seq<Coord>,
    fuel: nat,
)
    requires
        forall|c: Coord| b1.contains(c) <==> b2.contains(c),
    ensures
        run(m, size, end, b1, fuel) == run(m, size, end, b2, fuel),
    decreases fuel,
{
    if fuel > 0 {
        if let Some(i) = pick(m) {
            let cur = coord_of(size, i);
            if cur != end {
                let r1 = relaxed(m, size, end, b1, cur);
                let r2 = relaxed(m, size, end, b2, cur);
                assert forall|j: int| 0 <= j < m.0.len() implies relaxed_at(m, size, end, b1, cur, j)
                    == relaxed_at(m, size, end, b2, cur, j) by {
                    assert(b1.contains(coord_of(size, j)) == b2.contains(coord_of(size, j)));
                }
                assert(r1.0 =~= r2.0);
                assert(r1.1 =~= r2.1);
                assert(r1.2 =~= r2.2);
                assert(r1.3 =~= r2.3);
                lemma_run_same_cells(r1, size, end, b1, b2, (fuel - 1) as nat);
            }
        }
    }
}

/// The route depends on the obstacle list only through the cells it holds:
/// lists with the same cells, in any order and with any repeats, give the
/// same route.
pub proof fn lemma_route_of_same_cells(
    size: (usize, usize),
    start: Coord,
    end: Coord,
    b1: Seq<Coord>,
    b2: Seq<Coord>,
)
    requires
        forall|c: Coord| b1.contains(c) <==> b2.contains(c),
    ensures
        route_of(size, start, end, b1) == route_of(size, start, end, b2),
{
    lemma_run_same_cells(
        init_model(size, start, end),
        size,
        end,
        b1,
        b2,
        (size.0 * size.1 + 1) as nat,
    );
}

/// Obstacle lists with the same cells give the same search outcome.
pub proof fn lemma_search_outcome_same_cells(
    size: (usize, usize),
    start: Coord,
    end: Coord,
    b1: Seq<Coord>,
    b2: Seq<Coord>,
)
    requires
        forall|c: Coord| b1.contains(c) <==> b2.contains(c),
    ensures
        search_outcome(size, start, end, b1) == search_outcome(size, start, end, b2),
{
    lemma_route_of_same_cells(size, start, end, b1, b2);
    assert forall|w: Seq<Coord>| is_walk(size, b1, w) <==> is_walk(size, b2, w) by {
        if is_walk(size, b1, w) {
            assert forall|k: int| 0 <= k < w.len() implies in_grid(size, #[trigger] w[k])
                && !b2.contains(w[k]) by {
                assert(!b1.contains(w[k]));
            }
        }
        if is_walk(size, b2, w) {
            assert forall|k: int| 0 <= k < w.len() implies in_grid(size, #[trigger] w[k])
                && !b1.contains(w[k]) by {
                assert(!b2.contains(w[k]));
            }
        }
    }
    if reachable(size, b1, start, end) {
        let w = choose|w: Seq<Coord>| is_walk(size, b1, w) && w[0] == start && w.last() == end;
        assert(is_walk(size, b2, w));
    }
    if reachable(size, b2, start, end) {
        let w = choose|w: Seq<Coord>| is_walk(size, b2, w) && w[0] == start && w.last() == end;
        assert(is_walk(size, b1, w));
    }
}

} // verus!
