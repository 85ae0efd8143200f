use vstd::prelude::*;

use crate::map::WorldMap;

verus! {

/// The four moves a robot can make, in the order in which they are tried:
/// down, up, right, left.
pub open spec fn direction_at(k: int) -> (i32, i32) {
    if k == 0 {
        (0i32, 1i32)
    } else if k == 1 {
        (0i32, -1i32)
    } else if k == 2 {
        (1i32, 0i32)
    } else {
        (-1i32, 0i32)
    }
}

/// `d` is one of the four moves.
pub open spec fn is_direction(d: (i32, i32)) -> bool {
    d == direction_at(0) || d == direction_at(1) || d == direction_at(2) || d == direction_at(3)
}

pub fn direction(k: usize) -> (d: (i32, i32))
    requires
        k < 4,
    ensures
        d == direction_at(k as int),
        is_direction(d),
{
    if k == 0 {
        (0, 1)
    } else if k == 1 {
        (0, -1)
    } else if k == 2 {
        (1, 0)
    } else {
        (-1, 0)
    }
}

/// The cell reached from `pos` by the move `d`, if it lies on a
/// `width` by `height` grid.
pub open spec fn shifted(pos: (usize, usize), d: (i32, i32), width: usize, height: usize) -> Option<(usize, usize)> {
    let nx = pos.0 + d.0;
    let ny = pos.1 + d.1;
    if 0 <= nx < width && 0 <= ny < height {
        Some((nx as usize, ny as usize))
    } else {
        None
    }
}

pub fn shift(pos: (usize, usize), d: (i32, i32), width: usize, height: usize) -> (res: Option<(usize, usize)>)
    ensures
        res == shifted(pos, d, width, height),
{
    let nx: i128 = pos.0 as i128 + d.0 as i128;
    let ny: i128 = pos.1 as i128 + d.1 as i128;
    if 0 <= nx && nx < width as i128 && 0 <= ny && ny < height as i128 {
        Some((nx as usize, ny as usize))
    } else {
        None
    }
}

/// `a` and `b` are side by side: one apart in exactly one coordinate.
pub open spec fn adjacent(a: (usize, usize), b: (usize, usize)) -> bool {
    ||| a.0 == b.0 && (b.1 == a.1 + 1 || a.1 == b.1 + 1)
    ||| a.1 == b.1 && (b.0 == a.0 + 1 || a.0 == b.0 + 1)
}

/// A route towards `goal` may enter a walkable cell, and the goal itself
/// when it lies on the map, whatever stands there.
pub open spec fn can_enter(map: &WorldMap, goal: (usize, usize), q: (usize, usize)) -> bool {
    map.walkable(q.0 as int, q.1 as int) || (q == goal && map.in_bounds(q.0 as int, q.1 as int))
}

pub open spec fn step_ok(map: &WorldMap, goal: (usize, usize), p: (usize, usize), q: (usize, usize)) -> bool {
    adjacent(p, q) && can_enter(map, goal, q)
}

/// The cell a route stands on before its `i`-th cell.
pub open spec fn before(start: (usize, usize), path: Seq<(usize, usize)>, i: int) -> (usize, usize) {
    if i == 0 {
        start
    } else {
        path[i - 1]
    }
}

/// `path` lists the cells a robot walks through from `start` (left out) to
/// `goal`, one move at a time.
pub open spec fn is_route(
    map: &WorldMap,
    start: (usize, usize),
    goal: (usize, usize),
    path: Seq<(usize, usize)>,
) -> bool {
    &&& if path.len() == 0 {
        start == goal
    } else {
        path.last() == goal
    }
    &&& forall|i: int| 0 <= i < path.len() ==> step_ok(map, goal, before(start, path, i), #[trigger] path[i])
}

/// `path` is a route and no route from `start` to `goal` is shorter.
pub open spec fn is_shortest_route(
    map: &WorldMap,
    start: (usize, usize),
    goal: (usize, usize),
    path: Seq<(usize, usize)>,
) -> bool {
    &&& is_route(map, start, goal, path)
    &&& forall|other: Seq<(usize, usize)>| #[trigger] is_route(map, start, goal, other) ==> path.len() <= other.len()
}

/// The number of the move from `p` to the adjacent cell `q`, in the order
/// in which moves are tried: 0 down, 1 up, 2 right, 3 left.
pub open spec fn move_index(p: (usize, usize), q: (usize, usize)) -> int {
    if q.0 == p.0 && q.1 == p.1 + 1 {
        0
    } else if q.0 == p.0 && q.1 + 1 == p.1 {
        1
    } else if q.0 == p.0 + 1 {
        2
    } else {
        3
    }
}

/// The numbers of the moves of a route, in order.
pub open spec fn route_moves(start: (usize, usize), path: Seq<(usize, usize)>) -> Seq<int> {
    Seq::new(path.len(), |i: int| move_index(before(start, path, i), path[i]))
}

/// `a` comes before `b` in dictionary order; both have the same length.
pub open spec fn lex_lt(a: Seq<int>, b: Seq<int>) -> bool
    decreases a.len(),
{
    if a.len() == 0 || a.len() != b.len() {
        false
    } else {
        lex_lt(a.drop_last(), b.drop_last()) || (a.drop_last() == b.drop_last() && a.last() < b.last())
    }
}

pub open spec fn lex_le(a: Seq<int>, b: Seq<int>) -> bool {
    a == b || lex_lt(a, b)
}

/// Shorter first, then dictionary order.
pub open spec fn key_lt(a: Seq<int>, b: Seq<int>) -> bool {
    a.len() < b.len() || lex_lt(a, b)
}

pub proof fn lemma_lex_lt_push(a: Seq<int>, b: Seq<int>, x: int, y: int)
    requires
        a.len() == b.len(),
    ensures
        lex_lt(a.push(x), b.push(y)) == (lex_lt(a, b) || (a == b && x < y)),
{
    assert(a.push(x).drop_last() =~= a);
    assert(b.push(y).drop_last() =~= b);
}

pub proof fn lemma_lex_lt_len(a: Seq<int>, b: Seq<int>)
    requires
        lex_lt(a, b),
    ensures
        a.len() == b.len(),
        a != b,
    decreases a.len(),
{
    if lex_lt(a.drop_last(), b.drop_last()) {
        lemma_lex_lt_len(a.drop_last(), b.drop_last());
    }
}

pub proof fn lemma_lex_lt_trans(a: Seq<int>, b: Seq<int>, c: Seq<int>)
    requires
        lex_lt(a, b),
        lex_lt(b, c),
    ensures
        lex_lt(a, c),
    decreases a.len(),
{
    lemma_lex_lt_len(a, b);
    lemma_lex_lt_len(b, c);
    if lex_lt(a.drop_last(), b.drop_last()) && lex_lt(b.drop_last(), c.drop_last()) {
        lemma_lex_lt_trans(a.drop_last(), b.drop_last(), c.drop_last());
    }
}

pub proof fn lemma_lex_le_trans(a: Seq<int>, b: Seq<int>, c: Seq<int>)
    requires
        lex_le(a, b),
        lex_le(b, c),
    ensures
        lex_le(a, c),
{
    if lex_lt(a, b) && lex_lt(b, c) {
        lemma_lex_lt_trans(a, b, c);
    }
}

pub proof fn lemma_key_lt_trans(a: Seq<int>, b: Seq<int>, c: Seq<int>)
    requires
        key_lt(a, b),
        key_lt(b, c),
    ensures
        key_lt(a, c),
{
    if lex_lt(a, b) {
        lemma_lex_lt_len(a, b);
    }
    if lex_lt(b, c) {
        lemma_lex_lt_len(b, c);
    }
    if lex_lt(a, b) && lex_lt(b, c) {
        lemma_lex_lt_trans(a, b, c);
    }
}

/// The `k`-th move from `u` has number `k`.
pub proof fn lemma_move_index_of(u: (usize, usize), k: int, width: usize, height: usize)
    requires
        0 <= k < 4,
        shifted(u, direction_at(k), width, height) is Some,
    ensures
        move_index(u, shifted(u, direction_at(k), width, height).unwrap()) == k,
{
}

/// `path` is the shortest route whose moves come first in dictionary order.
pub open spec fn is_first_shortest_route(
    map: &WorldMap,
    start: (usize, usize),
    goal: (usize, usize),
    path: Seq<(usize, usize)>,
) -> bool {
    &&& is_shortest_route(map, start, goal, path)
    &&& forall|other: Seq<(usize, usize)>| #[trigger] is_route(map, start, goal, other) && other.len() == path.len()
        ==> lex_le(route_moves(start, path), route_moves(start, other))
}

/// Some route leads from `start` to `goal`.
pub open spec fn reachable(map: &WorldMap, start: (usize, usize), goal: (usize, usize)) -> bool {
    exists|path: Seq<(usize, usize)>| is_route(map, start, goal, path)
}

/// Every cell adjacent to `u` on the grid is one of the four moves from `u`.
pub proof fn lemma_adjacent_is_move(u: (usize, usize), q: (usize, usize), width: usize, height: usize)
    requires
        adjacent(u, q),
        q.0 < width,
        q.1 < height,
    ensures
        exists|k: int| 0 <= k < 4 && #[trigger] shifted(u, direction_at(k), width, height) == Some(q),
{
    if q.0 == u.0 && q.1 == u.1 + 1 {
        assert(shifted(u, direction_at(0), width, height) == Some(q));
    } else if q.0 == u.0 && u.1 == q.1 + 1 {
        assert(shifted(u, direction_at(1), width, height) == Some(q));
    } else if q.0 == u.0 + 1 {
        assert(shifted(u, direction_at(2), width, height) == Some(q));
    } else {
        assert(shifted(u, direction_at(3), width, height) == Some(q));
    }
}

/// A move lands on an adjacent cell.
pub proof fn lemma_move_is_adjacent(u: (usize, usize), k: int, width: usize, height: usize)
    requires
        0 <= k < 4,
        shifted(u, direction_at(k), width, height) is Some,
    ensures
        adjacent(u, shifted(u, direction_at(k), width, height).unwrap()),
{
}

/// A set of cells that holds `start` and is closed under moves holds every
/// cell of every route from `start`.
proof fn lemma_route_stays_inside(
    map: &WorldMap,
    start: (usize, usize),
    goal: (usize, usize),
    inside: spec_fn((usize, usize)) -> bool,
    path: Seq<(usize, usize)>,
    k: int,
)
    requires
        inside(start),
        forall|u: (usize, usize), q: (usize, usize)| inside(u) && #[trigger] step_ok(map, goal, u, q) ==> inside(q),
        is_route(map, start, goal, path),
        0 <= k < path.len(),
    ensures
        inside(path[k]),
    decreases k,
{
    if k > 0 {
        lemma_route_stays_inside(map, start, goal, inside, path, k - 1);
    }
    assert(step_ok(map, goal, before(start, path, k), path[k]));
}

/// When such a closed set misses `goal`, no route reaches it.
pub proof fn lemma_closed_set_blocks(
    map: &WorldMap,
    start: (usize, usize),
    goal: (usize, usize),
    inside: spec_fn((usize, usize)) -> bool,
)
    requires
        inside(start),
        !inside(goal),
        forall|u: (usize, usize), q: (usize, usize)| inside(u) && #[trigger] step_ok(map, goal, u, q) ==> inside(q),
    ensures
        !reachable(map, start, goal),
{
    assert forall|path: Seq<(usize, usize)>| !is_route(map, start, goal, path) by {
        if is_route(map, start, goal, path) && path.len() > 0 {
            lemma_route_stays_inside(map, start, goal, inside, path, path.len() - 1);
        }
    }
}

/// Number of cells of a row that no search has reached yet.
pub open spec fn row_unseen(r: Seq<Option<(usize, usize)>>) -> nat
    decreases r.len(),
{
    if r.len() == 0 {
        0
    } else {
        row_unseen(r.drop_last()) + if r.last() is None {
            1nat
        } else {
            0nat
        }
    }
}

/// Number of cells of a grid that no search has reached yet.
pub open spec fn grid_unseen(g: Seq<Vec<Option<(usize, usize)>>>) -> nat
    decreases g.len(),
{
    if g.len() == 0 {
        0
    } else {
        grid_unseen(g.drop_last()) + row_unseen(g.last()@)
    }
}

proof fn lemma_row_unseen_mark(r: Seq<Option<(usize, usize)>>, i: int, v: (usize, usize))
    requires
        0 <= i < r.len(),
        r[i] is None,
    ensures
        row_unseen(r.update(i, Some(v))) + 1 == row_unseen(r),
    decreases r.len(),
{
    if i == r.len() - 1 {
        assert(r.update(i, Some(v)).drop_last() =~= r.drop_last());
    } else {
        lemma_row_unseen_mark(r.drop_last(), i, v);
        assert(r.update(i, Some(v)).drop_last() =~= r.drop_last().update(i, Some(v)));
    }
}

proof fn lemma_grid_unseen_rows(g1: Seq<Vec<Option<(usize, usize)>>>, g2: Seq<Vec<Option<(usize, usize)>>>, y: int)
    requires
        g1.len() == g2.len(),
        0 <= y < g1.len(),
        forall|j: int| 0 <= j < g1.len() && j != y ==> (#[trigger] g1[j])@ == g2[j]@,
        row_unseen(g2[y]@) + 1 == row_unseen(g1[y]@),
    ensures
        grid_unseen(g2) + 1 == grid_unseen(g1),
    decreases g1.len(),
{
    if y == g1.len() - 1 {
        lemma_grid_unseen_same(g1.drop_last(), g2.drop_last());
    } else {
        lemma_grid_unseen_rows(g1.drop_last(), g2.drop_last(), y);
    }
}

proof fn lemma_grid_unseen_same(g1: Seq<Vec<Option<(usize, usize)>>>, g2: Seq<Vec<Option<(usize, usize)>>>)
    requires
        g1.len() == g2.len(),
        forall|j: int| 0 <= j < g1.len() ==> (#[trigger] g1[j])@ == g2[j]@,
    ensures
        grid_unseen(g2) == grid_unseen(g1),
    decreases g1.len(),
{
    if g1.len() > 0 {
        lemma_grid_unseen_same(g1.drop_last(), g2.drop_last());
    }
}

/// Marking an unseen cell of a grid lowers the unseen count by one.
pub proof fn lemma_grid_unseen_mark(
    g1: Seq<Vec<Option<(usize, usize)>>>,
    g2: Seq<Vec<Option<(usize, usize)>>>,
    x: int,
    y: int,
    v: (usize, usize),
)
    requires
        g1.len() == g2.len(),
        0 <= y < g1.len(),
        0 <= x < g1[y]@.len(),
        g1[y]@[x] is None,
        g2[y]@ == g1[y]@.update(x, Some(v)),
        forall|j: int| 0 <= j < g1.len() && j != y ==> (#[trigger] g1[j])@ == g2[j]@,
    ensures
        grid_unseen(g2) + 1 == grid_unseen(g1),
{
    lemma_row_unseen_mark(g1[y]@, x, v);
    lemma_grid_unseen_rows(g1, g2, y);
}

} // verus!
