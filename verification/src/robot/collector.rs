use vstd::prelude::*;

use crate::app::App;
use crate::map::{MapTile, WorldMap};
use crate::messages::{ResourceKind, RobotMessage};
use crate::robot::path::{
    adjacent, before, direction, direction_at, grid_unseen, is_first_shortest_route, is_route,
    key_lt, lemma_adjacent_is_move, lemma_closed_set_blocks, lemma_grid_unseen_mark,
    lemma_key_lt_trans, lemma_lex_le_trans, lemma_lex_lt_len, lemma_lex_lt_push, lemma_move_index_of,
    lemma_move_is_adjacent, lex_le, lex_lt, move_index, reachable, route_moves, shift, shifted, step_ok, can_enter,
};

verus! {

/// Where the search of `bfs` came from into `q`, if it has reached `q`.
pub open spec fn parent_of(parent: Seq<Vec<Option<(usize, usize)>>>, q: (usize, usize)) -> Option<(usize, usize)> {
    if q.1 < parent.len() && q.0 < parent[q.1 as int]@.len() {
        parent[q.1 as int]@[q.0 as int]
    } else {
        None
    }
}

/// The search has reached `q`.
pub open spec fn seen(parent: Seq<Vec<Option<(usize, usize)>>>, start: (usize, usize), q: (usize, usize)) -> bool {
    q == start || parent_of(parent, q) is Some
}

/// The link recorded for `q` is a move from a reached cell one step nearer
/// to the start.
pub open spec fn link_ok(
    map: &WorldMap,
    parent: Seq<Vec<Option<(usize, usize)>>>,
    start: (usize, usize),
    goal: (usize, usize),
    dist: Map<(usize, usize), nat>,
    code: Map<(usize, usize), Seq<int>>,
    q: (usize, usize),
) -> bool {
    let p = parent_of(parent, q).unwrap();
    &&& seen(parent, start, p)
    &&& step_ok(map, goal, p, q)
    &&& dist[q] == dist[p] + 1
    &&& code[q] == code[p].push(move_index(p, q))
}

/// Along the recorded links, the moves of `path` are those recorded for its
/// cells.
proof fn lemma_codes_along(
    map: &WorldMap,
    parent: Seq<Vec<Option<(usize, usize)>>>,
    start: (usize, usize),
    goal: (usize, usize),
    dist: Map<(usize, usize), nat>,
    code: Map<(usize, usize), Seq<int>>,
    path: Seq<(usize, usize)>,
    i: int,
)
    requires
        code[start] == Seq::<int>::empty(),
        forall|j: int| 0 <= j < path.len() ==> parent_of(parent, #[trigger] path[j]) == Some(before(start, path, j)),
        forall|q: (usize, usize)| #[trigger] parent_of(parent, q) is Some ==> link_ok(map, parent, start, goal, dist, code, q),
        0 <= i < path.len(),
    ensures
        code[path[i]] == route_moves(start, path).take(i + 1),
    decreases i,
{
    assert(parent_of(parent, path[i]) is Some);
    assert(link_ok(map, parent, start, goal, dist, code, path[i]));
    if i > 0 {
        lemma_codes_along(map, parent, start, goal, dist, code, path, i - 1);
        assert(route_moves(start, path).take(i + 1) =~= route_moves(start, path).take(i).push(
            move_index(before(start, path, i), path[i])));
    } else {
        assert(route_moves(start, path).take(1) =~= seq![move_index(start, path[0])]);
    }
}

/// The cell that comes after `rev[k]` on the way back to the start.
pub open spec fn next_back(rev: Seq<(usize, usize)>, cur: (usize, usize), k: int) -> (usize, usize) {
    if k + 1 < rev.len() {
        rev[k + 1]
    } else {
        cur
    }
}

/// Follows the recorded links from `goal` back to `start` and returns the
/// cells from the start (left out) to the goal.
#[verifier::spinoff_prover]
fn trace_back(
    map: &WorldMap,
    parent: &Vec<Vec<Option<(usize, usize)>>>,
    start: (usize, usize),
    goal: (usize, usize),
    Ghost(dist): Ghost<Map<(usize, usize), nat>>,
    Ghost(code): Ghost<Map<(usize, usize), Seq<int>>>,
) -> (path: Vec<(usize, usize)>)
    requires
        map.wf(),
        parent@.len() == map.height,
        forall|j: int| 0 <= j < map.height ==> (#[trigger] parent@[j])@.len() == map.width,
        start != goal,
        seen(parent@, start, goal),
        parent_of(parent@, start) is None,
        dist[start] == 0,
        code[start] == Seq::<int>::empty(),
        forall|q: (usize, usize)| #[trigger] parent_of(parent@, q) is Some ==> link_ok(map, parent@, start, goal, dist, code, q),
    ensures
        is_route(map, start, goal, path@),
        path@.len() == dist[goal],
        route_moves(start, path@) == code[goal],
{
    let mut rev: Vec<(usize, usize)> = Vec::new();
    let mut cur = goal;
    while !(cur.0 == start.0 && cur.1 == start.1)
        invariant
            map.wf(),
            parent@.len() == map.height,
            forall|j: int| 0 <= j < map.height ==> (#[trigger] parent@[j])@.len() == map.width,
            parent_of(parent@, start) is None,
            dist[start] == 0,
            forall|q: (usize, usize)| #[trigger] parent_of(parent@, q) is Some ==> link_ok(map, parent@, start, goal, dist, code, q),
            seen(parent@, start, cur),
            rev@.len() + dist[cur] == dist[goal],
            rev@.len() == 0 ==> cur == goal,
            rev@.len() > 0 ==> rev@[0] == goal,
            forall|k: int| 0 <= k < rev@.len() ==> step_ok(map, goal, next_back(rev@, cur, k), #[trigger] rev@[k]),
            forall|k: int| 0 <= k < rev@.len() ==> parent_of(parent@, #[trigger] rev@[k]) == Some(next_back(rev@, cur, k)),
        decreases dist[cur],
    {
        assert(parent_of(parent@, cur) is Some);
        let p = parent[cur.1][cur.0].unwrap();
        assert(link_ok(map, parent@, start, goal, dist, code, cur));
        let ghost old_rev = rev@;
        let ghost old_cur = cur;
        rev.push(cur);
        cur = p;
        assert forall|k: int| 0 <= k < rev@.len() implies step_ok(map, goal, next_back(rev@, cur, k), #[trigger] rev@[k]) by {
            if k < old_rev.len() {
                assert(rev@[k] == old_rev[k]);
                assert(next_back(rev@, cur, k) == next_back(old_rev, old_cur, k));
            }
        }
        assert forall|k: int| 0 <= k < rev@.len() implies parent_of(parent@, #[trigger] rev@[k]) == Some(next_back(rev@, cur, k)) by {
            if k < old_rev.len() {
                assert(rev@[k] == old_rev[k]);
                assert(next_back(rev@, cur, k) == next_back(old_rev, old_cur, k));
            }
        }
    }
    let n = rev.len();
    let mut path: Vec<(usize, usize)> = Vec::new();
    let mut j = n;
    while j > 0
        invariant
            j <= n,
            n == rev@.len(),
            path@ =~= Seq::new((n - j) as nat, |i: int| rev@[n - 1 - i]),
        decreases j,
    {
        j = j - 1;
        path.push(rev[j]);
    }
    assert(rev@.len() > 0);
    assert forall|i: int| 0 <= i < path@.len() implies step_ok(map, goal, before(start, path@, i), #[trigger] path@[i])
        && parent_of(parent@, path@[i]) == Some(before(start, path@, i)) by {
        let k = n - 1 - i;
        assert(path@[i] == rev@[k]);
        assert(step_ok(map, goal, next_back(rev@, cur, k), rev@[k]));
        assert(parent_of(parent@, rev@[k]) == Some(next_back(rev@, cur, k)));
        if i > 0 {
            assert(path@[i - 1] == rev@[k + 1]);
        }
    }
    proof {
        lemma_codes_along(map, parent@, start, goal, dist, code, path@, n - 1);
        assert(route_moves(start, path@).take(n as int) =~= route_moves(start, path@));
    }
    path
}

/// When every reached cell nearer to the start than `bound` has had all its
/// moves explored, and `goal` lies `bound` moves away by the search, no
/// route to `goal` is shorter than `bound`.
proof fn lemma_no_shorter_route(
    map: &WorldMap,
    parent: Seq<Vec<Option<(usize, usize)>>>,
    start: (usize, usize),
    goal: (usize, usize),
    dist: Map<(usize, usize), nat>,
    bound: nat,
    path: Seq<(usize, usize)>,
)
    requires
        dist[start] == 0,
        dist[goal] == bound,
        forall|u: (usize, usize), q: (usize, usize)|
            seen(parent, start, u) && dist[u] < bound && #[trigger] step_ok(map, goal, u, q) ==> seen(parent, start, q) && dist[q] <= dist[u] + 1,
        is_route(map, start, goal, path),
    ensures
        bound <= path.len(),
{
    if path.len() < bound {
        assert forall|i: int| 0 <= i < path.len() implies seen(parent, start, #[trigger] path[i]) && dist[path[i]] <= i + 1 by {
            lemma_route_prefix_near(map, parent, start, goal, dist, bound, path, i);
        }
        if path.len() > 0 {
            assert(dist[path[path.len() - 1]] <= path.len());
        }
    }
}

proof fn lemma_route_prefix_near(
    map: &WorldMap,
    parent: Seq<Vec<Option<(usize, usize)>>>,
    start: (usize, usize),
    goal: (usize, usize),
    dist: Map<(usize, usize), nat>,
    bound: nat,
    path: Seq<(usize, usize)>,
    i: int,
)
    requires
        dist[start] == 0,
        forall|u: (usize, usize), q: (usize, usize)|
            seen(parent, start, u) && dist[u] < bound && #[trigger] step_ok(map, goal, u, q) ==> seen(parent, start, q) && dist[q] <= dist[u] + 1,
        is_route(map, start, goal, path),
        path.len() < bound,
        0 <= i < path.len(),
    ensures
        seen(parent, start, path[i]),
        dist[path[i]] <= i + 1,
    decreases i,
{
    if i > 0 {
        lemma_route_prefix_near(map, parent, start, goal, dist, bound, path, i - 1);
    }
    assert(step_ok(map, goal, before(start, path, i), path[i]));
}

/// Facts the search keeps about the cells it has fully explored, as needed
/// once the goal is reached at `bound` moves: every move from an explored
/// cell leads to a reached cell at most one move further, and, when exactly
/// one further, recorded with moves no later in dictionary order.
pub open spec fn explored_ok(
    map: &WorldMap,
    parent: Seq<Vec<Option<(usize, usize)>>>,
    start: (usize, usize),
    goal: (usize, usize),
    dist: Map<(usize, usize), nat>,
    code: Map<(usize, usize), Seq<int>>,
    a: (usize, usize),
    q: (usize, usize),
) -> bool {
    &&& seen(parent, start, q)
    &&& dist[q] <= dist[a] + 1
    &&& (dist[q] == dist[a] + 1 ==> lex_le(code[q], code[a].push(move_index(a, q))))
}

/// From a reached cell, a route needs at least as many further moves to the
/// goal as the search counts between them.
proof fn lemma_no_shortcut(
    map: &WorldMap,
    parent: Seq<Vec<Option<(usize, usize)>>>,
    start: (usize, usize),
    goal: (usize, usize),
    dist: Map<(usize, usize), nat>,
    code: Map<(usize, usize), Seq<int>>,
    bound: nat,
    path: Seq<(usize, usize)>,
    m: int,
)
    requires
        dist[goal] == bound,
        forall|a: (usize, usize), q: (usize, usize)|
            seen(parent, start, a) && dist[a] < bound && #[trigger] step_ok(map, goal, a, q)
            ==> explored_ok(map, parent, start, goal, dist, code, a, q),
        is_route(map, start, goal, path),
        0 <= m <= path.len(),
        seen(parent, start, before(start, path, m)),
    ensures
        dist[before(start, path, m)] + (path.len() - m) >= bound,
    decreases path.len() - m,
{
    let b = before(start, path, m);
    if dist[b] >= bound {
    } else if m < path.len() {
        assert(step_ok(map, goal, b, path[m]));
        assert(explored_ok(map, parent, start, goal, dist, code, b, path[m]));
        assert(before(start, path, m + 1) == path[m]);
        lemma_no_shortcut(map, parent, start, goal, dist, code, bound, path, m + 1);
    } else if path.len() > 0 {
        assert(b == path[path.len() - 1]);
    }
}

/// Along a shortest route, the search reaches each cell at the right number
/// of moves with moves no later in dictionary order than the route's.
proof fn lemma_first_prefix(
    map: &WorldMap,
    parent: Seq<Vec<Option<(usize, usize)>>>,
    start: (usize, usize),
    goal: (usize, usize),
    dist: Map<(usize, usize), nat>,
    code: Map<(usize, usize), Seq<int>>,
    bound: nat,
    path: Seq<(usize, usize)>,
    i: int,
)
    requires
        dist[start] == 0,
        code[start] == Seq::<int>::empty(),
        dist[goal] == bound,
        forall|q: (usize, usize)| #[trigger] seen(parent, start, q) ==> dist[q] == code[q].len(),
        forall|a: (usize, usize), q: (usize, usize)|
            seen(parent, start, a) && dist[a] < bound && #[trigger] step_ok(map, goal, a, q)
            ==> explored_ok(map, parent, start, goal, dist, code, a, q),
        is_route(map, start, goal, path),
        path.len() == bound,
        0 <= i < path.len(),
    ensures
        seen(parent, start, path[i]),
        dist[path[i]] == i + 1,
        lex_le(code[path[i]], route_moves(start, path).take(i + 1)),
    decreases i,
{
    let moves = route_moves(start, path);
    let b = before(start, path, i);
    if i > 0 {
        lemma_first_prefix(map, parent, start, goal, dist, code, bound, path, i - 1);
    } else {
        assert(moves.take(0) =~= Seq::<int>::empty());
    }
    assert(seen(parent, start, b) && dist[b] == i && lex_le(code[b], moves.take(i)));
    assert(step_ok(map, goal, b, path[i]));
    assert(explored_ok(map, parent, start, goal, dist, code, b, path[i]));
    if dist[path[i]] < i + 1 {
        assert(before(start, path, i + 1) == path[i]);
        lemma_no_shortcut(map, parent, start, goal, dist, code, bound, path, i + 1);
    }
    let mi = move_index(b, path[i]);
    assert(moves.take(i + 1) =~= moves.take(i).push(mi));
    assert(code[b].len() == i);
    if lex_lt(code[b], moves.take(i)) {
        lemma_lex_lt_push(code[b], moves.take(i), mi, mi);
    }
    lemma_lex_le_trans(code[path[i]], code[b].push(mi), moves.take(i).push(mi));
}

/// What the search keeps of the cells it has reached.
#[verifier::opaque]
pub open spec fn core_inv(
    map: &WorldMap,
    start: (usize, usize),
    goal: (usize, usize),
    parent: Seq<Vec<Option<(usize, usize)>>>,
    order: Seq<(usize, usize)>,
    dist: Map<(usize, usize), nat>,
    code: Map<(usize, usize), Seq<int>>,
) -> bool {
    &&& 1 <= order.len()
    &&& order[0] == start
    &&& parent_of(parent, start) is None
    &&& dist[start] == 0
    &&& code[start] == Seq::<int>::empty()
    &&& forall|i: int| 0 <= i < order.len() ==> seen(parent, start, #[trigger] order[i])
    &&& forall|q: (usize, usize)| seen(parent, start, q) ==> #[trigger] order.contains(q)
    &&& forall|q: (usize, usize)| seen(parent, start, q) ==> #[trigger] dist.dom().contains(q)
    &&& forall|q: (usize, usize)| #[trigger] seen(parent, start, q) ==> dist[q] == code[q].len()
    &&& forall|q: (usize, usize)| #[trigger] parent_of(parent, q) is Some ==> link_ok(map, parent, start, goal, dist, code, q)
    &&& forall|i: int, j: int| 0 <= i <= j < order.len() ==> dist[#[trigger] order[i]] <= dist[#[trigger] order[j]]
    &&& forall|i: int, j: int| 0 <= i < j < order.len() ==> key_lt(code[#[trigger] order[i]], code[#[trigger] order[j]])
}

/// `a` comes no later than `b`: the same, fewer moves, or as many and
/// earlier in dictionary order.
pub open spec fn key_le(a: Seq<int>, b: Seq<int>) -> bool {
    a == b || key_lt(a, b)
}

/// What the search keeps between two cells taken from its queue: `head`
/// cells have been explored.
#[verifier::opaque]
pub open spec fn outer_inv(
    map: &WorldMap,
    start: (usize, usize),
    goal: (usize, usize),
    parent: Seq<Vec<Option<(usize, usize)>>>,
    order: Seq<(usize, usize)>,
    head: int,
    dist: Map<(usize, usize), nat>,
    code: Map<(usize, usize), Seq<int>>,
) -> bool {
    &&& core_inv(map, start, goal, parent, order, dist, code)
    &&& 0 <= head <= order.len()
    &&& head == 0 ==> order.len() == 1
    &&& head > 0 ==> forall|q: (usize, usize)| #[trigger] parent_of(parent, q) is Some
        ==> key_le(code[parent_of(parent, q).unwrap()], code[order[head - 1]])
    &&& forall|i: int| 0 <= i < head ==> #[trigger] order[i] != goal
    &&& head > 0 ==> forall|j: int| 0 <= j < order.len() ==> dist[#[trigger] order[j]] <= dist[order[head - 1]] + 1
    &&& forall|i: int, q: (usize, usize)|
        0 <= i < head && #[trigger] step_ok(map, goal, order[i], q) ==> explored_ok(map, parent, start, goal, dist, code, order[i], q)
}

/// What the search keeps while it tries the moves from `u`, the `head`-th
/// cell, `k` of them done.
#[verifier::opaque]
pub open spec fn inner_inv(
    map: &WorldMap,
    start: (usize, usize),
    goal: (usize, usize),
    parent: Seq<Vec<Option<(usize, usize)>>>,
    order: Seq<(usize, usize)>,
    head: int,
    dist: Map<(usize, usize), nat>,
    code: Map<(usize, usize), Seq<int>>,
    u: (usize, usize),
    k: int,
) -> bool {
    &&& core_inv(map, start, goal, parent, order, dist, code)
    &&& 1 <= head <= order.len()
    &&& order[head - 1] == u
    &&& u != goal
    &&& 0 <= k <= 4
    &&& forall|q: (usize, usize)| #[trigger] parent_of(parent, q) is Some ==> key_le(code[parent_of(parent, q).unwrap()], code[u])
    &&& forall|q: (usize, usize)| #[trigger] parent_of(parent, q) == Some(u) ==> move_index(u, q) < k
    &&& forall|i: int| 0 <= i < head ==> #[trigger] order[i] != goal
    &&& forall|j: int| 0 <= j < order.len() ==> dist[#[trigger] order[j]] <= dist[u] + 1
    &&& forall|i: int, q: (usize, usize)|
        0 <= i < head - 1 && #[trigger] step_ok(map, goal, order[i], q) ==> explored_ok(map, parent, start, goal, dist, code, order[i], q)
    &&& forall|j: int| 0 <= j < k ==> (#[trigger] shifted(u, direction_at(j), map.width, map.height) matches Some(q)
        ==> (step_ok(map, goal, u, q) ==> explored_ok(map, parent, start, goal, dist, code, u, q)))
}

proof fn lemma_search_init(
    map: &WorldMap,
    start: (usize, usize),
    goal: (usize, usize),
    parent: Seq<Vec<Option<(usize, usize)>>>,
    order: Seq<(usize, usize)>,
    dist: Map<(usize, usize), nat>,
    code: Map<(usize, usize), Seq<int>>,
)
    requires
        forall|q: (usize, usize)| #[trigger] parent_of(parent, q) is None,
        order == seq![start],
        dist == Map::<(usize, usize), nat>::empty().insert(start, 0nat),
        code == Map::<(usize, usize), Seq<int>>::empty().insert(start, Seq::<int>::empty()),
    ensures
        outer_inv(map, start, goal, parent, order, 0, dist, code),
{
    reveal(outer_inv);
    reveal(core_inv);
    assert forall|q: (usize, usize)| seen(parent, start, q) implies #[trigger] order.contains(q) by {
        assert(order[0] == start);
    }
}

/// Taking the next cell from the queue starts the trial of its moves.
proof fn lemma_search_take(
    map: &WorldMap,
    start: (usize, usize),
    goal: (usize, usize),
    parent: Seq<Vec<Option<(usize, usize)>>>,
    order: Seq<(usize, usize)>,
    head: int,
    dist: Map<(usize, usize), nat>,
    code: Map<(usize, usize), Seq<int>>,
)
    requires
        outer_inv(map, start, goal, parent, order, head, dist, code),
        head < order.len(),
        order[head] != goal,
    ensures
        inner_inv(map, start, goal, parent, order, head + 1, dist, code, order[head], 0),
{
    reveal(outer_inv);
    reveal(inner_inv);
    reveal(core_inv);
    let u = order[head];
    if head > 0 {
        assert forall|j: int| 0 <= j < order.len() implies dist[#[trigger] order[j]] <= dist[u] + 1 by {
            assert(dist[order[head - 1]] <= dist[order[head]]);
        }
        let prev = order[head - 1];
        assert(key_lt(code[prev], code[u]));
        assert forall|q: (usize, usize)| #[trigger] parent_of(parent, q) is Some
            implies key_le(code[parent_of(parent, q).unwrap()], code[u]) by {
            let p = parent_of(parent, q).unwrap();
            assert(key_le(code[p], code[prev]));
            if key_lt(code[p], code[prev]) {
                lemma_key_lt_trans(code[p], code[prev], code[u]);
            }
        }
        assert forall|q: (usize, usize)| #[trigger] parent_of(parent, q) == Some(u) implies move_index(u, q) < 0 by {
            let p = parent_of(parent, q).unwrap();
            assert(key_le(code[p], code[prev]));
            if key_lt(code[p], code[prev]) {
                lemma_key_lt_trans(code[p], code[prev], code[u]);
                lemma_key_lt_irrefl(code[u]);
            } else {
                lemma_key_lt_irrefl(code[u]);
            }
        }
    } else {
        assert forall|q: (usize, usize)| #[trigger] parent_of(parent, q) is Some implies false by {
            assert(seen(parent, start, q));
            assert(order.contains(q));
        }
        assert forall|j: int| 0 <= j < order.len() implies dist[#[trigger] order[j]] <= dist[u] + 1 by {}
    }
}

/// Distinct cells of the queue have distinct recorded moves.
proof fn lemma_distinct_codes(
    map: &WorldMap,
    start: (usize, usize),
    goal: (usize, usize),
    parent: Seq<Vec<Option<(usize, usize)>>>,
    order: Seq<(usize, usize)>,
    dist: Map<(usize, usize), nat>,
    code: Map<(usize, usize), Seq<int>>,
    a: (usize, usize),
    b: (usize, usize),
)
    requires
        core_inv(map, start, goal, parent, order, dist, code),
        seen(parent, start, a),
        seen(parent, start, b),
        a != b,
    ensures
        code[a] != code[b],
{
    reveal(core_inv);
    assert(order.contains(a));
    assert(order.contains(b));
    let i = choose|i: int| 0 <= i < order.len() && order[i] == a;
    let j = choose|j: int| 0 <= j < order.len() && order[j] == b;
    if i < j {
        assert(key_lt(code[order[i]], code[order[j]]));
    } else {
        assert(key_lt(code[order[j]], code[order[i]]));
    }
    lemma_key_lt_irrefl(code[a]);
}

proof fn lemma_key_lt_irrefl(a: Seq<int>)
    ensures
        !key_lt(a, a),
{
    if lex_lt(a, a) {
        lemma_lex_lt_len(a, a);
    }
}

/// A move that finds nothing new keeps what the search knows.
proof fn lemma_search_skip(
    map: &WorldMap,
    start: (usize, usize),
    goal: (usize, usize),
    parent: Seq<Vec<Option<(usize, usize)>>>,
    order: Seq<(usize, usize)>,
    head: int,
    dist: Map<(usize, usize), nat>,
    code: Map<(usize, usize), Seq<int>>,
    u: (usize, usize),
    k: int,
)
    requires
        inner_inv(map, start, goal, parent, order, head, dist, code, u, k),
        k < 4,
        shifted(u, direction_at(k), map.width, map.height) matches Some(q) ==> !can_enter(map, goal, q)
            || seen(parent, start, q),
    ensures
        inner_inv(map, start, goal, parent, order, head, dist, code, u, k + 1),
{
    reveal(inner_inv);
    reveal(core_inv);
    if let Some(q) = shifted(u, direction_at(k), map.width, map.height) {
        lemma_move_is_adjacent(u, k, map.width, map.height);
        lemma_move_index_of(u, k, map.width, map.height);
        if step_ok(map, goal, u, q) {
            assert(order.contains(q));
            let i = choose|i: int| 0 <= i < order.len() && order[i] == q;
            assert(dist[order[i]] <= dist[u] + 1);
            if dist[q] == dist[u] + 1 {
                assert(q != start);
                let p = parent_of(parent, q).unwrap();
                assert(link_ok(map, parent, start, goal, dist, code, q));
                assert(seen(parent, start, p));
                assert(code[p].len() == code[u].len());
                if p == u {
                    assert(move_index(u, q) < k);
                }
                assert(key_le(code[p], code[u]));
                assert(seen(parent, start, u)) by {
                    assert(order[head - 1] == u);
                }
                if p != u {
                    lemma_distinct_codes(map, start, goal, parent, order, dist, code, p, u);
                    assert(lex_lt(code[p], code[u]));
                    lemma_lex_lt_push(code[p], code[u], move_index(p, q), k);
                }
            }
            assert(explored_ok(map, parent, start, goal, dist, code, u, q));
        }
    }
    assert forall|j: int| 0 <= j < k + 1 implies (#[trigger] shifted(u, direction_at(j), map.width, map.height) matches Some(q)
        ==> (step_ok(map, goal, u, q) ==> explored_ok(map, parent, start, goal, dist, code, u, q))) by {}
}

/// Recording a newly reached cell keeps what the search knows.
#[verifier::rlimit(50)]
#[verifier::spinoff_prover]
proof fn lemma_search_visit(
    map: &WorldMap,
    start: (usize, usize),
    goal: (usize, usize),
    parent: Seq<Vec<Option<(usize, usize)>>>,
    order: Seq<(usize, usize)>,
    head: int,
    dist: Map<(usize, usize), nat>,
    code: Map<(usize, usize), Seq<int>>,
    u: (usize, usize),
    k: int,
    q: (usize, usize),
    parent2: Seq<Vec<Option<(usize, usize)>>>,
)
    requires
        inner_inv(map, start, goal, parent, order, head, dist, code, u, k),
        k < 4,
        shifted(u, direction_at(k), map.width, map.height) == Some(q),
        can_enter(map, goal, q),
        !seen(parent, start, q),
        forall|z: (usize, usize)| #[trigger] parent_of(parent2, z) == if z == q { Some(u) } else { parent_of(parent, z) },
    ensures
        inner_inv(
            map,
            start,
            goal,
            parent2,
            order.push(q),
            head,
            dist.insert(q, dist[u] + 1),
            code.insert(q, code[u].push(k)),
            u,
            k + 1,
        ),
{
    reveal(inner_inv);
    reveal(core_inv);
    lemma_move_is_adjacent(u, k, map.width, map.height);
    lemma_move_index_of(u, k, map.width, map.height);
    let order2 = order.push(q);
    let dist2 = dist.insert(q, dist[u] + 1);
    let code2 = code.insert(q, code[u].push(k));
    assert(seen(parent, start, u)) by {
        assert(order[head - 1] == u);
    }
    assert forall|z: (usize, usize)| seen(parent, start, z) implies #[trigger] dist2[z] == dist[z] && code2[z] == code[z] by {}
    assert forall|i: int| 0 <= i < order.len() implies #[trigger] dist2[order[i]] == dist[order[i]]
        && code2[order[i]] == code[order[i]] && order2[i] == order[i] by {
        assert(seen(parent, start, order[i]));
    }
    assert forall|z: (usize, usize)| seen(parent2, start, z) implies #[trigger] order2.contains(z) by {
        if z == q {
            assert(order2[order2.len() - 1] == q);
        } else {
            assert(seen(parent, start, z));
            assert(order.contains(z));
            let i = choose|i: int| 0 <= i < order.len() && order[i] == z;
            assert(order2[i] == z);
        }
    }
    assert forall|i: int| 0 <= i < order2.len() implies seen(parent2, start, #[trigger] order2[i]) by {
        if i < order.len() {
            assert(seen(parent, start, order[i]));
        }
    }
    assert forall|z: (usize, usize)| seen(parent2, start, z) implies #[trigger] dist2.dom().contains(z) by {
        if z != q {
            assert(seen(parent, start, z));
        }
    }
    assert forall|z: (usize, usize)| #[trigger] seen(parent2, start, z) implies dist2[z] == code2[z].len() by {
        if z != q {
            assert(seen(parent, start, z));
        }
    }
    assert forall|z: (usize, usize)| #[trigger] parent_of(parent2, z) is Some implies link_ok(map, parent2, start, goal, dist2, code2, z) by {
        if z != q {
            assert(link_ok(map, parent, start, goal, dist, code, z));
            let p = parent_of(parent, z).unwrap();
            assert(seen(parent, start, p));
            assert(seen(parent, start, z));
        }
    }
    assert forall|i: int, j: int| 0 <= i <= j < order2.len() implies dist2[#[trigger] order2[i]] <= dist2[#[trigger] order2[j]] by {
        if j < order.len() {
            assert(dist[order[i]] <= dist[order[j]]);
        }
    }
    assert forall|i: int, j: int| 0 <= i < j < order2.len() implies key_lt(code2[#[trigger] order2[i]], code2[#[trigger] order2[j]]) by {
        if j < order.len() {
            assert(key_lt(code[order[i]], code[order[j]]));
        } else {
            let v = order[i];
            assert(dist[v] <= dist[u] + 1);
            if dist[v] == dist[u] + 1 {
                assert(v != start);
                assert(parent_of(parent, v) is Some);
                let p = parent_of(parent, v).unwrap();
                assert(link_ok(map, parent, start, goal, dist, code, v));
                assert(seen(parent, start, p));
                assert(code[p].len() == code[u].len());
                assert(key_le(code[p], code[u]));
                if p == u {
                    assert(move_index(u, v) < k);
                    lemma_lex_lt_push(code[p], code[u], move_index(p, v), k);
                } else {
                    lemma_distinct_codes(map, start, goal, parent, order, dist, code, p, u);
                    assert(lex_lt(code[p], code[u]));
                    lemma_lex_lt_push(code[p], code[u], move_index(p, v), k);
                }
                assert(code2[v] == code[v]);
                assert(code2[q] == code[u].push(k));
            }
        }
    }
    assert forall|z: (usize, usize)| #[trigger] parent_of(parent2, z) is Some
        implies key_le(code2[parent_of(parent2, z).unwrap()], code2[u]) by {
        if z != q {
            let p = parent_of(parent, z).unwrap();
            assert(link_ok(map, parent, start, goal, dist, code, z));
            assert(seen(parent, start, p));
        }
    }
    assert forall|z: (usize, usize)| #[trigger] parent_of(parent2, z) == Some(u) implies move_index(u, z) < k + 1 by {
        if z != q {
            assert(parent_of(parent, z) == Some(u));
        }
    }
    assert forall|i: int| 0 <= i < head implies #[trigger] order2[i] != goal by {
        assert(order2[i] == order[i]);
    }
    assert forall|j: int| 0 <= j < order2.len() implies dist2[#[trigger] order2[j]] <= dist2[u] + 1 by {}
    assert forall|i: int, z: (usize, usize)|
        0 <= i < head - 1 && #[trigger] step_ok(map, goal, order2[i], z) implies explored_ok(map, parent2, start, goal, dist2, code2, order2[i], z) by {
        assert(order2[i] == order[i]);
        assert(explored_ok(map, parent, start, goal, dist, code, order[i], z));
        assert(seen(parent, start, order[i]));
    }
    assert forall|j: int| 0 <= j < k + 1 implies (#[trigger] shifted(u, direction_at(j), map.width, map.height) matches Some(z)
        ==> (step_ok(map, goal, u, z) ==> explored_ok(map, parent2, start, goal, dist2, code2, u, z))) by {
        if j < k {
            if let Some(z) = shifted(u, direction_at(j), map.width, map.height) {
                if step_ok(map, goal, u, z) {
                    assert(explored_ok(map, parent, start, goal, dist, code, u, z));
                }
            }
        }
    }
}

/// All four moves from `u` tried: `u` counts as explored.
proof fn lemma_search_done(
    map: &WorldMap,
    start: (usize, usize),
    goal: (usize, usize),
    parent: Seq<Vec<Option<(usize, usize)>>>,
    order: Seq<(usize, usize)>,
    head: int,
    dist: Map<(usize, usize), nat>,
    code: Map<(usize, usize), Seq<int>>,
    u: (usize, usize),
)
    requires
        inner_inv(map, start, goal, parent, order, head, dist, code, u, 4),
    ensures
        outer_inv(map, start, goal, parent, order, head, dist, code),
{
    reveal(inner_inv);
    reveal(outer_inv);
    assert forall|i: int, q: (usize, usize)|
        0 <= i < head && #[trigger] step_ok(map, goal, order[i], q) implies explored_ok(map, parent, start, goal, dist, code, order[i], q) by {
        if i == head - 1 {
            lemma_adjacent_is_move(u, q, map.width, map.height);
            let j = choose|j: int| 0 <= j < 4 && #[trigger] shifted(u, direction_at(j), map.width, map.height) == Some(q);
            assert(shifted(u, direction_at(j), map.width, map.height) matches Some(z)
                ==> (step_ok(map, goal, u, z) ==> explored_ok(map, parent, start, goal, dist, code, u, z)));
        }
    }
}

/// The goal taken from the queue: its recorded moves are those of the
/// shortest route that comes first in dictionary order.
proof fn lemma_search_goal(
    map: &WorldMap,
    start: (usize, usize),
    goal: (usize, usize),
    parent: Seq<Vec<Option<(usize, usize)>>>,
    order: Seq<(usize, usize)>,
    head: int,
    dist: Map<(usize, usize), nat>,
    code: Map<(usize, usize), Seq<int>>,
)
    requires
        outer_inv(map, start, goal, parent, order, head, dist, code),
        head < order.len(),
        order[head] == goal,
    ensures
        seen(parent, start, goal),
        parent_of(parent, start) is None,
        dist[start] == 0,
        code[start] == Seq::<int>::empty(),
        forall|q: (usize, usize)| #[trigger] parent_of(parent, q) is Some ==> link_ok(map, parent, start, goal, dist, code, q),
        forall|other: Seq<(usize, usize)>| #[trigger] is_route(map, start, goal, other) ==> dist[goal] <= other.len(),
        forall|other: Seq<(usize, usize)>| #[trigger] is_route(map, start, goal, other) && other.len() == dist[goal]
            ==> lex_le(code[goal], route_moves(start, other)),
{
    reveal(outer_inv);
    reveal(core_inv);
    let bound = dist[goal];
    assert forall|a: (usize, usize), q: (usize, usize)|
        seen(parent, start, a) && dist[a] < bound && #[trigger] step_ok(map, goal, a, q)
        implies explored_ok(map, parent, start, goal, dist, code, a, q) by {
        assert(order.contains(a));
        let i = choose|i: int| 0 <= i < order.len() && order[i] == a;
        if i >= head {
            assert(dist[order[head]] <= dist[order[i]]);
        }
        assert(step_ok(map, goal, order[i], q));
    }
    assert forall|a: (usize, usize), q: (usize, usize)|
        seen(parent, start, a) && dist[a] < bound && #[trigger] step_ok(map, goal, a, q)
        implies seen(parent, start, q) && dist[q] <= dist[a] + 1 by {
        assert(explored_ok(map, parent, start, goal, dist, code, a, q));
    }
    assert forall|other: Seq<(usize, usize)>| #[trigger] is_route(map, start, goal, other) implies bound <= other.len() by {
        lemma_no_shorter_route(map, parent, start, goal, dist, bound, other);
    }
    assert forall|other: Seq<(usize, usize)>| #[trigger] is_route(map, start, goal, other) && other.len() == bound
        implies lex_le(code[goal], route_moves(start, other)) by {
        if other.len() == 0 {
            assert(route_moves(start, other) =~= Seq::<int>::empty());
            assert(start == goal);
        } else {
            lemma_first_prefix(map, parent, start, goal, dist, code, bound, other, other.len() - 1);
            assert(route_moves(start, other).take(other.len() as int) =~= route_moves(start, other));
        }
    }
}

/// The queue ran empty without the goal: no route leads there.
proof fn lemma_search_exhausted(
    map: &WorldMap,
    start: (usize, usize),
    goal: (usize, usize),
    parent: Seq<Vec<Option<(usize, usize)>>>,
    order: Seq<(usize, usize)>,
    dist: Map<(usize, usize), nat>,
    code: Map<(usize, usize), Seq<int>>,
)
    requires
        outer_inv(map, start, goal, parent, order, order.len() as int, dist, code),
    ensures
        !reachable(map, start, goal),
{
    reveal(outer_inv);
    reveal(core_inv);
    let inside = |q: (usize, usize)| seen(parent, start, q);
    assert forall|u: (usize, usize), q: (usize, usize)| inside(u) && #[trigger] step_ok(map, goal, u, q) implies inside(q) by {
        assert(order.contains(u));
        let i = choose|i: int| 0 <= i < order.len() && order[i] == u;
        assert(step_ok(map, goal, order[i], q));
        assert(explored_ok(map, parent, start, goal, dist, code, order[i], q));
    }
    if inside(goal) {
        assert(order.contains(goal));
        let i = choose|i: int| 0 <= i < order.len() && order[i] == goal;
        assert(order[i] != goal);
    }
    lemma_closed_set_blocks(map, start, goal, inside);
}

/// Breadth-first search over the map from `start` to `goal`: of the
/// shortest routes (start left out, goal last), the one whose moves come
/// first in the order down, up, right, left; `None` when no route exists.
/// The goal may be entered whatever stands on it; every other cell of the
/// route is walkable.
pub fn bfs(app: &App, start: (usize, usize), goal: (usize, usize)) -> (res: Option<Vec<(usize, usize)>>)
    requires
        start == goal || app.map.wf(),
    ensures
        res matches Some(path) ==> is_first_shortest_route(&app.map, start, goal, path@),
        res is Some <==> reachable(&app.map, start, goal),
{
    let map = &app.map;
    if start.0 == goal.0 && start.1 == goal.1 {
        let path: Vec<(usize, usize)> = Vec::new();
        assert(is_route(map, start, goal, path@));
        assert forall|other: Seq<(usize, usize)>| #[trigger] is_route(map, start, goal, other) && other.len() == path@.len()
            implies lex_le(route_moves(start, path@), route_moves(start, other)) by {
            assert(route_moves(start, path@) =~= route_moves(start, other));
        }
        return Some(path);
    }
    let width = map.width;
    let height = map.height;
    let mut parent: Vec<Vec<Option<(usize, usize)>>> = Vec::new();
    let mut y: usize = 0;
    while y < height
        invariant
            y <= height,
            parent@.len() == y,
            forall|j: int| 0 <= j < y ==> (#[trigger] parent@[j])@.len() == width,
            forall|j: int, i: int| 0 <= j < y && 0 <= i < width ==> (#[trigger] parent@[j]@[i]) is None,
        decreases height - y,
    {
        let mut row: Vec<Option<(usize, usize)>> = Vec::new();
        let mut x: usize = 0;
        while x < width
            invariant
                x <= width,
                row@.len() == x,
                forall|i: int| 0 <= i < x ==> (#[trigger] row@[i]) is None,
            decreases width - x,
        {
            row.push(None);
            x = x + 1;
        }
        parent.push(row);
        y = y + 1;
    }
    let mut order: Vec<(usize, usize)> = Vec::new();
    order.push(start);
    let mut head: usize = 0;
    let ghost mut dist: Map<(usize, usize), nat> = Map::empty().insert(start, 0nat);
    let ghost mut code: Map<(usize, usize), Seq<int>> = Map::empty().insert(start, Seq::<int>::empty());
    proof {
        assert forall|q: (usize, usize)| #[trigger] parent_of(parent@, q) is None by {
            if q.1 < parent@.len() && q.0 < parent@[q.1 as int]@.len() {
                assert(parent@[q.1 as int]@[q.0 as int] is None);
            }
        }
        assert(order@ =~= seq![start]);
        lemma_search_init(map, start, goal, parent@, order@, dist, code);
    }
    while head < order.len()
        invariant
            *map == app.map,
            map.wf(),
            width == map.width,
            height == map.height,
            start != goal,
            parent@.len() == height,
            forall|j: int| 0 <= j < height ==> (#[trigger] parent@[j])@.len() == width,
            head <= order@.len(),
            outer_inv(map, start, goal, parent@, order@, head as int, dist, code),
        decreases grid_unseen(parent@), order@.len() - head,
    {
        let u = order[head];
        if u.0 == goal.0 && u.1 == goal.1 {
            proof {
                lemma_search_goal(map, start, goal, parent@, order@, head as int, dist, code);
            }
            let path = trace_back(map, &parent, start, goal, Ghost(dist), Ghost(code));
            return Some(path);
        }
        proof {
            lemma_search_take(map, start, goal, parent@, order@, head as int, dist, code);
        }
        head = head + 1;
        let ghost unseen_before = grid_unseen(parent@);
        let ghost len_before = order@.len();
        let mut k: usize = 0;
        while k < 4
            invariant
                map.wf(),
                width == map.width,
                height == map.height,
                parent@.len() == height,
                forall|j: int| 0 <= j < height ==> (#[trigger] parent@[j])@.len() == width,
                k <= 4,
                head <= order@.len(),
                len_before <= order@.len(),
                grid_unseen(parent@) + (order@.len() - len_before) == unseen_before,
                inner_inv(map, start, goal, parent@, order@, head as int, dist, code, u, k as int),
            decreases 4 - k,
        {
            let d = direction(k);
            let next = shift(u, d, width, height);
            let mut fresh = false;
            if let Some(q) = next {
                let enterable = map.is_walkable(q.0, q.1) || (q.0 == goal.0 && q.1 == goal.1);
                let is_start = q.0 == start.0 && q.1 == start.1;
                if enterable && !is_start && parent[q.1][q.0].is_none() {
                    fresh = true;
                    let ghost old_parent = parent@;
                    let ghost old_order = order@;
                    assert(!seen(old_parent, start, q));
                    parent[q.1].set(q.0, Some(u));
                    order.push(q);
                    proof {
                        lemma_grid_unseen_mark(old_parent, parent@, q.0 as int, q.1 as int, u);
                        assert forall|z: (usize, usize)| #[trigger] parent_of(parent@, z) == if z == q {
                            Some(u)
                        } else {
                            parent_of(old_parent, z)
                        } by {}
                        lemma_search_visit(map, start, goal, old_parent, old_order, head as int, dist, code, u, k as int, q, parent@);
                        dist = dist.insert(q, dist[u] + 1);
                        code = code.insert(q, code[u].push(k as int));
                    }
                }
            }
            proof {
                if !fresh {
                    lemma_search_skip(map, start, goal, parent@, order@, head as int, dist, code, u, k as int);
                }
            }
            k = k + 1;
        }
        proof {
            lemma_search_done(map, start, goal, parent@, order@, head as int, dist, code, u);
        }
    }
    proof {
        lemma_search_exhausted(map, start, goal, parent@, order@, dist, code);
    }
    None
}

/// What taking one unit out of `tile` leaves there, with the kind of the
/// unit; `None` when the tile holds no unit.
pub open spec fn take_result(tile: MapTile) -> Option<(MapTile, ResourceKind)> {
    match tile {
        MapTile::Energy(n) => if n > 0 {
            Some((if n == 1 { MapTile::Empty } else { MapTile::Energy((n - 1) as u32) }, ResourceKind::Energy))
        } else {
            None
        },
        MapTile::Crystal(n) => if n > 0 {
            Some((if n == 1 { MapTile::Empty } else { MapTile::Crystal((n - 1) as u32) }, ResourceKind::Crystal))
        } else {
            None
        },
        _ => None,
    }
}

/// Units of resource that `tile` holds.
pub open spec fn units(tile: MapTile) -> nat {
    match tile {
        MapTile::Energy(n) => n as nat,
        MapTile::Crystal(n) => n as nat,
        _ => 0,
    }
}

/// The kind of resource a tile holds, if any.
pub open spec fn kind_of(tile: MapTile) -> Option<ResourceKind> {
    match tile {
        MapTile::Energy(_) => Some(ResourceKind::Energy),
        MapTile::Crystal(_) => Some(ResourceKind::Crystal),
        _ => None,
    }
}

/// Takes one unit out of a resource tile. A deposit that runs out becomes an
/// empty tile; one with units left keeps its kind.
pub fn take_one_unit(tile: &MapTile) -> (res: Option<(MapTile, ResourceKind)>)
    ensures
        res == take_result(*tile),
        res is Some <==> units(*tile) > 0,
        res matches Some((rest, kind)) ==> {
            &&& units(rest) + 1 == units(*tile)
            &&& kind_of(*tile) == Some(kind)
            &&& (units(rest) == 0 <==> rest == MapTile::Empty)
            &&& (rest != MapTile::Empty ==> kind_of(rest) == Some(kind))
        },
{
    match tile {
        MapTile::Energy(n) if *n > 0 => {
            let remaining = *n - 1;
            let new_tile = if remaining == 0 {
                MapTile::Empty
            } else {
                MapTile::Energy(remaining)
            };
            Some((new_tile, ResourceKind::Energy))
        },
        MapTile::Crystal(n) if *n > 0 => {
            let remaining = *n - 1;
            let new_tile = if remaining == 0 {
                MapTile::Empty
            } else {
                MapTile::Crystal(remaining)
            };
            Some((new_tile, ResourceKind::Crystal))
        },
        _ => None,
    }
}

/// The tile still holds at least one unit of resource.
pub fn resource_remaining(tile: &MapTile) -> (res: bool)
    ensures
        res == (units(*tile) > 0),
        res == (take_result(*tile) is Some),
{
    matches!(tile, MapTile::Energy(n) if *n > 0) || matches!(tile, MapTile::Crystal(n) if *n > 0)
}

/// The entry does not lie at `t`.
pub open spec fn not_at(t: (usize, usize)) -> spec_fn((usize, usize, ResourceKind)) -> bool {
    |r: (usize, usize, ResourceKind)| !(r.0 == t.0 && r.1 == t.1)
}

/// The position differs from `t`.
pub open spec fn other_than(t: (usize, usize)) -> spec_fn((usize, usize)) -> bool {
    |p: (usize, usize)| p != t
}

/// Drops every known resource that lies at `t`.
fn forget_resource(known: &mut Vec<(usize, usize, ResourceKind)>, t: (usize, usize))
    ensures
        final(known)@ == old(known)@.filter(not_at(t)),
{
    let ghost all = known@;
    let mut kept: Vec<(usize, usize, ResourceKind)> = Vec::new();
    let mut i: usize = 0;
    while i < known.len()
        invariant
            known@ == all,
            i <= all.len(),
            kept@ == all.take(i as int).filter(not_at(t)),
        decreases all.len() - i,
    {
        let r = known[i];
        proof {
            assert(all.take(i + 1) =~= all.take(i as int).push(r));
            all.take(i as int).lemma_filter_push(r, not_at(t));
        }
        if !(r.0 == t.0 && r.1 == t.1) {
            kept.push(r);
        }
        i = i + 1;
    }
    assert(all.take(all.len() as int) =~= all);
    *known = kept;
}

/// Drops `t` from the claimed positions.
fn release_claim(claimed: &mut Vec<(usize, usize)>, t: (usize, usize))
    ensures
        final(claimed)@ == old(claimed)@.filter(other_than(t)),
{
    let ghost all = claimed@;
    let mut kept: Vec<(usize, usize)> = Vec::new();
    let mut i: usize = 0;
    while i < claimed.len()
        invariant
            claimed@ == all,
            i <= all.len(),
            kept@ == all.take(i as int).filter(other_than(t)),
        decreases all.len() - i,
    {
        let p = claimed[i];
        proof {
            assert(all.take(i + 1) =~= all.take(i as int).push(p));
            all.take(i as int).lemma_filter_push(p, other_than(t));
        }
        if !(p.0 == t.0 && p.1 == t.1) {
            kept.push(p);
        }
        i = i + 1;
    }
    assert(all.take(all.len() as int) =~= all);
    *claimed = kept;
}


/// What a collector is doing.
pub enum State {
    Idle,
    GoingTo { target: (usize, usize), kind: ResourceKind, path: Vec<(usize, usize)> },
    Returning { target: (usize, usize), kind: ResourceKind, path: Vec<(usize, usize)> },
}

/// A robot that fetches known resources one unit at a time and carries them
/// back to the base.
pub struct Collector {
    id: usize,
    pos: (usize, usize),
}

/// The known resource at index `i` is not claimed by any collector.
pub open spec fn unclaimed(app: &App, i: int) -> bool {
    !app.claimed_resources@.contains((app.known_resources@[i].0, app.known_resources@[i].1))
}

/// `i` is the first known resource that no collector has claimed.
pub open spec fn is_first_unclaimed(app: &App, i: int) -> bool {
    &&& 0 <= i < app.known_resources@.len()
    &&& unclaimed(app, i)
    &&& forall|j: int| 0 <= j < i ==> !unclaimed(app, j)
}

/// The collector moves: it has a next cell and that cell is walkable.
pub open spec fn moves(map: &WorldMap, path: Seq<(usize, usize)>) -> bool {
    path.len() > 0 && map.walkable(path[0].0 as int, path[0].1 as int)
}

pub open spec fn pos_after(map: &WorldMap, pos: (usize, usize), path: Seq<(usize, usize)>) -> (usize, usize) {
    if moves(map, path) {
        path[0]
    } else {
        pos
    }
}

pub open spec fn path_after(map: &WorldMap, path: Seq<(usize, usize)>) -> Seq<(usize, usize)> {
    if moves(map, path) {
        path.drop_first()
    } else {
        path
    }
}

/// The shared list of collector positions after collector `id` moved (or not).
pub open spec fn collectors_after(
    collectors: Seq<(usize, usize)>,
    id: usize,
    map: &WorldMap,
    pos: (usize, usize),
    path: Seq<(usize, usize)>,
) -> Seq<(usize, usize)> {
    if moves(map, path) && id < collectors.len() {
        collectors.update(id as int, path[0])
    } else {
        collectors
    }
}

/// What a step of a collector leaves alone.
pub open spec fn collector_frame(old: &App, new: &App) -> bool {
    &&& new.base == old.base
    &&& new.active == old.active
    &&& new.collected_energy == old.collected_energy
    &&& new.collected_crystals == old.collected_crystals
    &&& new.known_obstacles@ == old.known_obstacles@
    &&& new.scouts@ == old.scouts@
    &&& new.map.wf()
    &&& new.map.width == old.map.width
    &&& new.map.height == old.map.height
}

/// The targets a state refers to lie on the map.
pub open spec fn state_wf(state: &State, map: &WorldMap, pos: (usize, usize)) -> bool {
    match state {
        State::Idle => true,
        State::GoingTo { target, path, .. } => map.in_bounds(target.0 as int, target.1 as int) && chain(pos, path@),
        State::Returning { target, path, .. } => map.in_bounds(target.0 as int, target.1 as int) && chain(pos, path@),
    }
}

/// Each cell of `path` is adjacent to the one before it, `pos` coming first.
pub open spec fn chain(pos: (usize, usize), path: Seq<(usize, usize)>) -> bool {
    forall|i: int| 0 <= i < path.len() ==> adjacent(before(pos, path, i), #[trigger] path[i])
}

proof fn lemma_route_is_chain(map: &WorldMap, start: (usize, usize), goal: (usize, usize), path: Seq<(usize, usize)>)
    requires
        is_route(map, start, goal, path),
    ensures
        chain(start, path),
{
    assert forall|i: int| 0 <= i < path.len() implies adjacent(before(start, path, i), #[trigger] path[i]) by {
        assert(step_ok(map, goal, before(start, path, i), path[i]));
    }
}

proof fn lemma_chain_rest(pos: (usize, usize), path: Seq<(usize, usize)>)
    requires
        chain(pos, path),
        path.len() > 0,
    ensures
        chain(path[0], path.drop_first()),
{
    assert forall|i: int| 0 <= i < path.drop_first().len() implies adjacent(before(path[0], path.drop_first(), i), #[trigger] path.drop_first()[i]) by {
        assert(path.drop_first()[i] == path[i + 1]);
        assert(adjacent(before(pos, path, i + 1), path[i + 1]));
    }
}

/// A route that starts on the map ends on the map.
pub proof fn lemma_route_ends_on_map(map: &WorldMap, start: (usize, usize), goal: (usize, usize), path: Seq<(usize, usize)>)
    requires
        is_route(map, start, goal, path),
        map.in_bounds(start.0 as int, start.1 as int),
    ensures
        map.in_bounds(goal.0 as int, goal.1 as int),
{
    if path.len() > 0 {
        assert(step_ok(map, goal, before(start, path, path.len() - 1), path[path.len() - 1]));
    }
}

/// Step from `Idle`: claim the first unclaimed known resource and head for
/// it when a route leads there; otherwise stay idle.
pub open spec fn idle_step(pos: (usize, usize), old: &App, new: &App, next: &State) -> bool {
    &&& collector_frame(old, new)
    &&& new.map == old.map
    &&& new.known_resources@ == old.known_resources@
    &&& new.collectors@ == old.collectors@
    &&& if exists|i: int| is_first_unclaimed(old, i) {
        let i = choose|i: int| is_first_unclaimed(old, i);
        let t = (old.known_resources@[i].0, old.known_resources@[i].1);
        if reachable(&old.map, pos, t) {
            &&& new.claimed_resources@ == old.claimed_resources@.push(t)
            &&& next matches State::GoingTo { target, kind, path }
            &&& target == t
            &&& kind == old.known_resources@[i].2
            &&& is_first_shortest_route(&old.map, pos, t, path@)
        } else {
            &&& new.claimed_resources@ == old.claimed_resources@
            &&& next is Idle
        }
    } else {
        &&& new.claimed_resources@ == old.claimed_resources@
        &&& next is Idle
    }
}

/// Step from `GoingTo`: one move along the path; on the target, take one
/// unit and head back to the base, or, when it is spent, forget the site and
/// give the target up.
pub open spec fn going_step(
    pos: (usize, usize),
    target: (usize, usize),
    kind: ResourceKind,
    path: Seq<(usize, usize)>,
    new_pos: (usize, usize),
    old: &App,
    new: &App,
    next: &State,
) -> bool {
    let here = pos_after(&old.map, pos, path);
    &&& collector_frame(old, new)
    &&& new_pos == here
    &&& if here != target {
        &&& new.map == old.map
        &&& new.known_resources@ == old.known_resources@
        &&& new.claimed_resources@ == old.claimed_resources@
        &&& next matches State::GoingTo { target: t, kind: k, path: p }
        &&& t == target && k == kind && p@ == path_after(&old.map, path)
    } else {
        match take_result(old.map.tile(target.0 as int, target.1 as int)) {
            Some((rest, taken)) => {
                &&& new.map.grid() == old.map.grid().update(
                    target.1 as int,
                    old.map.grid()[target.1 as int].update(target.0 as int, rest),
                )
                &&& new.known_resources@ == if rest == MapTile::Empty {
                    old.known_resources@.filter(not_at(target))
                } else {
                    old.known_resources@
                }
                &&& new.claimed_resources@ == old.claimed_resources@
                &&& next matches State::Returning { target: t, kind: k, path: p }
                &&& t == target && k == taken
                &&& if reachable(&new.map, here, new.base.pos) {
                    is_first_shortest_route(&new.map, here, new.base.pos, p@)
                } else {
                    p@.len() == 0
                }
            },
            None => {
                &&& new.map == old.map
                &&& new.known_resources@ == old.known_resources@.filter(not_at(target))
                &&& new.claimed_resources@ == old.claimed_resources@.filter(other_than(target))
                &&& next is Idle
            },
        }
    }
}

/// Step from `Returning`: one move along the path. At its end on the base,
/// report one unit collected and go back for more while the target has some
/// left; at its end anywhere else (no route home was found), keep the unit
/// and search again for a route to the base.
pub open spec fn returning_step(
    pos: (usize, usize),
    target: (usize, usize),
    kind: ResourceKind,
    path: Seq<(usize, usize)>,
    new_pos: (usize, usize),
    old: &App,
    new: &App,
    next: &State,
    msg: Option<RobotMessage>,
) -> bool {
    let here = pos_after(&old.map, pos, path);
    let rest = path_after(&old.map, path);
    &&& collector_frame(old, new)
    &&& new.map == old.map
    &&& new_pos == here
    &&& if rest.len() > 0 {
        &&& msg is None
        &&& new.known_resources@ == old.known_resources@
        &&& new.claimed_resources@ == old.claimed_resources@
        &&& next matches State::Returning { target: t, kind: k, path: p }
        &&& t == target && k == kind && p@ == rest
    } else if here != old.base.pos {
        &&& msg is None
        &&& new.known_resources@ == old.known_resources@
        &&& new.claimed_resources@ == old.claimed_resources@
        &&& next matches State::Returning { target: t, kind: k, path: p }
        &&& t == target && k == kind
        &&& if reachable(&old.map, here, old.base.pos) {
            is_first_shortest_route(&old.map, here, old.base.pos, p@)
        } else {
            p@.len() == 0
        }
    } else {
        &&& msg == Some(RobotMessage::ResourceCollected { pos: here, amount: 1, kind })
        &&& if units(old.map.tile(target.0 as int, target.1 as int)) > 0 {
            &&& new.known_resources@ == old.known_resources@
            &&& if reachable(&old.map, here, target) {
                &&& new.claimed_resources@ == old.claimed_resources@
                &&& next matches State::GoingTo { target: t, kind: k, path: p }
                &&& t == target && k == kind
                &&& is_first_shortest_route(&old.map, here, target, p@)
            } else {
                &&& new.claimed_resources@ == old.claimed_resources@.filter(other_than(target))
                &&& next is Idle
            }
        } else {
            &&& new.known_resources@ == old.known_resources@.filter(not_at(target))
            &&& new.claimed_resources@ == old.claimed_resources@.filter(other_than(target))
            &&& next is Idle
        }
    }
}

/// One step of a collector at `pos` with identity `id`, in `state`, from
/// `old` to `new`: it ends at `new_pos` in `next` and reports `msg`.
pub open spec fn stepped(
    pos: (usize, usize),
    id: usize,
    state: &State,
    old: &App,
    new: &App,
    new_pos: (usize, usize),
    next: &State,
    msg: Option<RobotMessage>,
) -> bool {
    match state {
        State::Idle => {
            &&& new_pos == pos
            &&& msg is None
            &&& idle_step(pos, old, new, next)
        },
        State::GoingTo { target, kind, path } => {
            &&& msg is None
            &&& going_step(pos, *target, *kind, path@, new_pos, old, new, next)
            &&& new.collectors@ == collectors_after(old.collectors@, id, &old.map, pos, path@)
        },
        State::Returning { target, kind, path } => {
            &&& returning_step(pos, *target, *kind, path@, new_pos, old, new, next, msg)
            &&& new.collectors@ == collectors_after(old.collectors@, id, &old.map, pos, path@)
        },
    }
}

/// Units of resource in a row of tiles.
pub open spec fn row_units(row: Seq<MapTile>) -> nat
    decreases row.len(),
{
    if row.len() == 0 {
        0
    } else {
        row_units(row.drop_last()) + units(row.last())
    }
}

/// Units of resource left on the map.
pub open spec fn map_units(grid: Seq<Seq<MapTile>>) -> nat
    decreases grid.len(),
{
    if grid.len() == 0 {
        0
    } else {
        map_units(grid.drop_last()) + row_units(grid.last())
    }
}

/// Units a collector in `state` carries.
pub open spec fn carried(state: &State) -> nat {
    match state {
        State::Returning { .. } => 1,
        _ => 0,
    }
}

/// Units a report hands to the base.
pub open spec fn delivered(msg: Option<RobotMessage>) -> nat {
    match msg {
        Some(RobotMessage::ResourceCollected { amount, .. }) => amount as nat,
        _ => 0,
    }
}

proof fn lemma_row_units_update(row: Seq<MapTile>, x: int, t: MapTile)
    requires
        0 <= x < row.len(),
    ensures
        row_units(row.update(x, t)) + units(row[x]) == row_units(row) + units(t),
    decreases row.len(),
{
    if x == row.len() - 1 {
        assert(row.update(x, t).drop_last() =~= row.drop_last());
    } else {
        lemma_row_units_update(row.drop_last(), x, t);
        assert(row.update(x, t).drop_last() =~= row.drop_last().update(x, t));
    }
}

proof fn lemma_map_units_update(grid: Seq<Seq<MapTile>>, x: int, y: int, t: MapTile)
    requires
        0 <= y < grid.len(),
        0 <= x < grid[y].len(),
    ensures
        map_units(grid.update(y, grid[y].update(x, t))) + units(grid[y][x]) == map_units(grid) + units(t),
    decreases grid.len(),
{
    if y == grid.len() - 1 {
        assert(grid.update(y, grid[y].update(x, t)).drop_last() =~= grid.drop_last());
        lemma_row_units_update(grid[y], x, t);
    } else {
        lemma_map_units_update(grid.drop_last(), x, y, t);
        assert(grid.update(y, grid[y].update(x, t)).drop_last() =~= grid.drop_last().update(y, grid[y].update(x, t)));
    }
}

/// Every unit taken from the map is carried by the collector until the
/// report of its delivery: over one step, units on the map plus units
/// carried plus units reported to the base stay the same.
pub proof fn lemma_collector_conserves_units(
    pos: (usize, usize),
    id: usize,
    state: &State,
    old: &App,
    new: &App,
    new_pos: (usize, usize),
    next: &State,
    msg: Option<RobotMessage>,
)
    requires
        old.map.wf(),
        state_wf(state, &old.map, pos),
        stepped(pos, id, state, old, new, new_pos, next, msg),
    ensures
        map_units(new.map.grid()) + carried(next) + delivered(msg) == map_units(old.map.grid()) + carried(state),
{
    match state {
        State::GoingTo { target, kind, path } => {
            let here = pos_after(&old.map, pos, path@);
            if here == *target {
                let tile = old.map.tile(target.0 as int, target.1 as int);
                if let Some((rest, taken)) = take_result(tile) {
                    let g = old.map.grid();
                    assert(g[target.1 as int][target.0 as int] == tile);
                    lemma_map_units_update(g, target.0 as int, target.1 as int, rest);
                }
            }
        },
        _ => {},
    }
}

/// Whether `path` is a chain of adjacent cells from `pos`.
fn chain_holds(pos: (usize, usize), path: &Vec<(usize, usize)>) -> (res: bool)
    ensures
        res == chain(pos, path@),
{
    let mut i: usize = 0;
    let mut prev = pos;
    while i < path.len()
        invariant
            i <= path@.len(),
            prev == before(pos, path@, i as int),
            forall|j: int| 0 <= j < i ==> adjacent(before(pos, path@, j), #[trigger] path@[j]),
        decreases path@.len() - i,
    {
        let q = path[i];
        let side_by_side = (q.0 == prev.0 && ((prev.1 < usize::MAX && q.1 == prev.1 + 1) || (q.1 < usize::MAX && prev.1 == q.1 + 1)))
            || (q.1 == prev.1 && ((prev.0 < usize::MAX && q.0 == prev.0 + 1) || (q.0 < usize::MAX && prev.0 == q.0 + 1)));
        if !side_by_side {
            assert(!adjacent(before(pos, path@, i as int), path@[i as int]));
            return false;
        }
        prev = q;
        i = i + 1;
    }
    true
}

/// Units of resource of `kind` that `tile` holds.
pub open spec fn units_of(tile: MapTile, kind: ResourceKind) -> nat {
    if kind_of(tile) == Some(kind) {
        units(tile)
    } else {
        0
    }
}

pub open spec fn row_units_of(row: Seq<MapTile>, kind: ResourceKind) -> nat
    decreases row.len(),
{
    if row.len() == 0 {
        0
    } else {
        row_units_of(row.drop_last(), kind) + units_of(row.last(), kind)
    }
}

/// Units of resource of `kind` left on the map.
pub open spec fn map_units_of(grid: Seq<Seq<MapTile>>, kind: ResourceKind) -> nat
    decreases grid.len(),
{
    if grid.len() == 0 {
        0
    } else {
        map_units_of(grid.drop_last(), kind) + row_units_of(grid.last(), kind)
    }
}

/// Units of `kind` a collector in `state` carries.
pub open spec fn carried_of(state: &State, kind: ResourceKind) -> nat {
    match state {
        State::Returning { kind: k, .. } => if *k == kind {
            1
        } else {
            0
        },
        _ => 0,
    }
}

/// Units of `kind` a report hands to the base.
pub open spec fn delivered_of(msg: Option<RobotMessage>, kind: ResourceKind) -> nat {
    match msg {
        Some(RobotMessage::ResourceCollected { amount, kind: k, .. }) => if k == kind {
            amount as nat
        } else {
            0
        },
        _ => 0,
    }
}

proof fn lemma_row_units_of_update(row: Seq<MapTile>, x: int, t: MapTile, kind: ResourceKind)
    requires
        0 <= x < row.len(),
    ensures
        row_units_of(row.update(x, t), kind) + units_of(row[x], kind) == row_units_of(row, kind) + units_of(t, kind),
    decreases row.len(),
{
    if x == row.len() - 1 {
        assert(row.update(x, t).drop_last() =~= row.drop_last());
    } else {
        lemma_row_units_of_update(row.drop_last(), x, t, kind);
        assert(row.update(x, t).drop_last() =~= row.drop_last().update(x, t));
    }
}

proof fn lemma_map_units_of_update(grid: Seq<Seq<MapTile>>, x: int, y: int, t: MapTile, kind: ResourceKind)
    requires
        0 <= y < grid.len(),
        0 <= x < grid[y].len(),
    ensures
        map_units_of(grid.update(y, grid[y].update(x, t)), kind) + units_of(grid[y][x], kind)
            == map_units_of(grid, kind) + units_of(t, kind),
    decreases grid.len(),
{
    if y == grid.len() - 1 {
        assert(grid.update(y, grid[y].update(x, t)).drop_last() =~= grid.drop_last());
        lemma_row_units_of_update(grid[y], x, t, kind);
    } else {
        lemma_map_units_of_update(grid.drop_last(), x, y, t, kind);
        assert(grid.update(y, grid[y].update(x, t)).drop_last() =~= grid.drop_last().update(y, grid[y].update(x, t)));
    }
}

/// Units are conserved kind by kind: over one step, the units of each kind
/// on the map, carried, and reported to the base stay the same, and a
/// collector carries at most one unit. So a collector never reports a unit
/// of a kind it did not take.
pub proof fn lemma_collector_conserves_kind(
    pos: (usize, usize),
    id: usize,
    state: &State,
    old: &App,
    new: &App,
    new_pos: (usize, usize),
    next: &State,
    msg: Option<RobotMessage>,
    kind: ResourceKind,
)
    requires
        old.map.wf(),
        state_wf(state, &old.map, pos),
        stepped(pos, id, state, old, new, new_pos, next, msg),
    ensures
        map_units_of(new.map.grid(), kind) + carried_of(next, kind) + delivered_of(msg, kind)
            == map_units_of(old.map.grid(), kind) + carried_of(state, kind),
        carried(next) <= 1,
{
    match state {
        State::GoingTo { target, kind: k, path } => {
            let here = pos_after(&old.map, pos, path@);
            if here == *target {
                let tile = old.map.tile(target.0 as int, target.1 as int);
                if let Some((rest, taken)) = take_result(tile) {
                    let g = old.map.grid();
                    assert(g[target.1 as int][target.0 as int] == tile);
                    lemma_map_units_of_update(g, target.0 as int, target.1 as int, rest, kind);
                }
            }
        },
        _ => {},
    }
}

/// Forgetting the site at `t` drops exactly the known resources at `t`:
/// every other entry stays, and nothing else is added.
pub proof fn lemma_forgetting_keeps_other_sites(known: Seq<(usize, usize, ResourceKind)>, t: (usize, usize))
    ensures
        forall|i: int| 0 <= i < known.len() && !(known[i].0 == t.0 && known[i].1 == t.1)
            ==> #[trigger] known.filter(not_at(t)).contains(known[i]),
        forall|r: (usize, usize, ResourceKind)| #[trigger] known.filter(not_at(t)).contains(r)
            ==> known.contains(r) && !(r.0 == t.0 && r.1 == t.1),
{
    assert forall|i: int| 0 <= i < known.len() && !(known[i].0 == t.0 && known[i].1 == t.1)
        implies #[trigger] known.filter(not_at(t)).contains(known[i]) by {
        known.lemma_filter_contains(not_at(t), i);
    }
    assert forall|r: (usize, usize, ResourceKind)| #[trigger] known.filter(not_at(t)).contains(r)
        implies known.contains(r) && !(r.0 == t.0 && r.1 == t.1) by {
        known.lemma_filter_contains_rev(not_at(t), r);
        let f = known.filter(not_at(t));
        let i = choose|i: int| 0 <= i < f.len() && f[i] == r;
        known.lemma_filter_pred(not_at(t), i);
    }
}

/// A collector step forgets no known resource but those at its own target,
/// and learns none: every known resource elsewhere is still known after it.
pub proof fn lemma_step_forgets_only_target(
    pos: (usize, usize),
    id: usize,
    state: &State,
    old: &App,
    new: &App,
    new_pos: (usize, usize),
    next: &State,
    msg: Option<RobotMessage>,
)
    requires
        stepped(pos, id, state, old, new, new_pos, next, msg),
    ensures
        forall|r: (usize, usize, ResourceKind)| #[trigger] new.known_resources@.contains(r) ==> old.known_resources@.contains(r),
        forall|i: int| 0 <= i < old.known_resources@.len() && (target_of(state) matches Some(t)
            ==> !(old.known_resources@[i].0 == t.0 && old.known_resources@[i].1 == t.1))
            ==> #[trigger] new.known_resources@.contains(old.known_resources@[i]),
{
    let k = old.known_resources@;
    match target_of(state) {
        Some(t) => {
            lemma_forgetting_keeps_other_sites(k, t);
            assert forall|i: int| 0 <= i < k.len() && !(k[i].0 == t.0 && k[i].1 == t.1)
                implies #[trigger] new.known_resources@.contains(k[i]) by {
                if new.known_resources@ == k {
                    assert(new.known_resources@[i] == k[i]);
                }
            }
            assert forall|r: (usize, usize, ResourceKind)| #[trigger] new.known_resources@.contains(r) implies k.contains(r) by {}
        },
        None => {
            assert forall|i: int| 0 <= i < k.len() implies #[trigger] new.known_resources@.contains(k[i]) by {
                assert(new.known_resources@[i] == k[i]);
            }
        },
    }
}

/// The deposit a collector in `state` is working on, if any.
pub open spec fn target_of(state: &State) -> Option<(usize, usize)> {
    match state {
        State::Idle => None,
        State::GoingTo { target, .. } => Some(*target),
        State::Returning { target, .. } => Some(*target),
    }
}

/// The claimed positions are exactly the targets of the working collectors,
/// each claimed once and worked on by one collector only.
pub open spec fn claims_match(claimed: Seq<(usize, usize)>, states: Seq<State>) -> bool {
    &&& claimed.no_duplicates()
    &&& forall|p: (usize, usize)| claimed.contains(p) <==> exists|i: int| 0 <= i < states.len() && #[trigger] target_of(&states[i]) == Some(p)
    &&& forall|i: int, j: int| 0 <= i < states.len() && 0 <= j < states.len() && i != j && #[trigger] target_of(&states[i]) is Some
        ==> target_of(&states[i]) != #[trigger] target_of(&states[j])
}

proof fn lemma_release_facts(s: Seq<(usize, usize)>, t: (usize, usize))
    requires
        s.no_duplicates(),
    ensures
        s.filter(other_than(t)).no_duplicates(),
        forall|p: (usize, usize)| #[trigger] s.filter(other_than(t)).contains(p) <==> (s.contains(p) && p != t),
    decreases s.len(),
{
    let f = s.filter(other_than(t));
    assert forall|p: (usize, usize)| #[trigger] f.contains(p) <==> (s.contains(p) && p != t) by {
        if f.contains(p) {
            s.lemma_filter_contains_rev(other_than(t), p);
            let i = choose|i: int| 0 <= i < f.len() && f[i] == p;
            s.lemma_filter_pred(other_than(t), i);
        }
        if s.contains(p) && p != t {
            let i = choose|i: int| 0 <= i < s.len() && s[i] == p;
            s.lemma_filter_contains(other_than(t), i);
        }
    }
    if s.len() > 0 {
        let rest = s.drop_last();
        assert(rest.no_duplicates()) by {
            assert forall|i: int, j: int| 0 <= i < rest.len() && 0 <= j < rest.len() && i != j implies rest[i] != rest[j] by {
                assert(rest[i] == s[i] && rest[j] == s[j]);
            }
        }
        lemma_release_facts(rest, t);
        reveal(Seq::filter);
        assert(f == if other_than(t)(s.last()) { rest.filter(other_than(t)).push(s.last()) } else { rest.filter(other_than(t)) });
        if other_than(t)(s.last()) {
            let g = rest.filter(other_than(t));
            assert(!rest.contains(s.last())) by {
                if rest.contains(s.last()) {
                    let i = choose|i: int| 0 <= i < rest.len() && rest[i] == s.last();
                    assert(s[i] == s[s.len() - 1]);
                }
            }
            assert(!g.contains(s.last()));
            assert forall|i: int, j: int| 0 <= i < f.len() && 0 <= j < f.len() && i != j implies f[i] != f[j] by {
                if i == g.len() {
                    assert(g.contains(f[j]));
                } else if j == g.len() {
                    assert(g.contains(f[i]));
                }
            }
        }
    }
}

/// Claims track targets: if before a step of collector `k` the claimed
/// positions are exactly the targets of the working collectors, one
/// collector per target, then so they are after it. No two collectors
/// ever head for the same deposit.
pub proof fn lemma_claims_track_targets(
    states: Seq<State>,
    k: int,
    pos: (usize, usize),
    id: usize,
    old: &App,
    new: &App,
    new_pos: (usize, usize),
    next: &State,
    msg: Option<RobotMessage>,
)
    requires
        0 <= k < states.len(),
        claims_match(old.claimed_resources@, states),
        stepped(pos, id, &states[k], old, new, new_pos, next, msg),
    ensures
        claims_match(new.claimed_resources@, states.update(k, *next)),
{
    let c0 = old.claimed_resources@;
    let c1 = new.claimed_resources@;
    let s1 = states.update(k, *next);
    let state = &states[k];
    if target_of(next) == target_of(state) && c1 == c0 {
        assert forall|p: (usize, usize)| c1.contains(p) <==> exists|i: int| 0 <= i < s1.len() && #[trigger] target_of(&s1[i]) == Some(p) by {
            if c0.contains(p) {
                let i = choose|i: int| 0 <= i < states.len() && #[trigger] target_of(&states[i]) == Some(p);
                assert(target_of(&s1[i]) == Some(p));
            }
            if exists|i: int| 0 <= i < s1.len() && #[trigger] target_of(&s1[i]) == Some(p) {
                let i = choose|i: int| 0 <= i < s1.len() && #[trigger] target_of(&s1[i]) == Some(p);
                assert(target_of(&states[i]) == Some(p));
            }
        }
        assert forall|i: int, j: int| 0 <= i < s1.len() && 0 <= j < s1.len() && i != j && #[trigger] target_of(&s1[i]) is Some
            implies target_of(&s1[i]) != #[trigger] target_of(&s1[j]) by {
            assert(target_of(&s1[i]) == target_of(&states[i]));
            assert(target_of(&s1[j]) == target_of(&states[j]));
        }
    } else if target_of(state) is None {
        // a claim is made for a target nobody works on
        let i0 = choose|i: int| is_first_unclaimed(old, i);
        let t = (old.known_resources@[i0].0, old.known_resources@[i0].1);
        assert(!c0.contains(t));
        assert(c1 == c0.push(t));
        assert(target_of(next) == Some(t));
        assert forall|p: (usize, usize)| c1.contains(p) <==> exists|i: int| 0 <= i < s1.len() && #[trigger] target_of(&s1[i]) == Some(p) by {
            if c1.contains(p) {
                if p == t {
                    assert(target_of(&s1[k]) == Some(p));
                } else {
                    let m = choose|m: int| 0 <= m < c1.len() && c1[m] == p;
                    assert(m != c0.len());
                    assert(c0[m] == p);
                    assert(c0.contains(p));
                    let i = choose|i: int| 0 <= i < states.len() && #[trigger] target_of(&states[i]) == Some(p);
                    assert(target_of(&s1[i]) == Some(p));
                }
            }
            if exists|i: int| 0 <= i < s1.len() && #[trigger] target_of(&s1[i]) == Some(p) {
                let i = choose|i: int| 0 <= i < s1.len() && #[trigger] target_of(&s1[i]) == Some(p);
                if i == k {
                    assert(c1[c0.len() as int] == t);
                } else {
                    assert(target_of(&states[i]) == Some(p));
                    assert(c0.contains(p));
                    let m = choose|m: int| 0 <= m < c0.len() && c0[m] == p;
                    assert(c1[m] == p);
                }
            }
        }
        assert(c1.no_duplicates()) by {
            assert forall|a: int, b: int| 0 <= a < c1.len() && 0 <= b < c1.len() && a != b implies c1[a] != c1[b] by {
                if a == c0.len() {
                    assert(c0.contains(c1[b]));
                } else if b == c0.len() {
                    assert(c0.contains(c1[a]));
                }
            }
        }
        assert forall|i: int, j: int| 0 <= i < s1.len() && 0 <= j < s1.len() && i != j && #[trigger] target_of(&s1[i]) is Some
            implies target_of(&s1[i]) != #[trigger] target_of(&s1[j]) by {
            if i == k {
                if target_of(&s1[j]) == Some(t) {
                    assert(target_of(&states[j]) == Some(t));
                }
            } else if j == k {
                assert(target_of(&states[i]) is Some);
                let p = target_of(&states[i]).unwrap();
                assert(c0.contains(p));
            } else {
                assert(target_of(&s1[i]) == target_of(&states[i]));
            }
        }
    } else {
        // the collector gives its target up
        let t = target_of(state).unwrap();
        assert(next is Idle);
        assert(c1 == c0.filter(other_than(t)));
        lemma_release_facts(c0, t);
        assert forall|p: (usize, usize)| c1.contains(p) <==> exists|i: int| 0 <= i < s1.len() && #[trigger] target_of(&s1[i]) == Some(p) by {
            if c1.contains(p) {
                let i = choose|i: int| 0 <= i < states.len() && #[trigger] target_of(&states[i]) == Some(p);
                assert(i != k);
                assert(target_of(&s1[i]) == Some(p));
            }
            if exists|i: int| 0 <= i < s1.len() && #[trigger] target_of(&s1[i]) == Some(p) {
                let i = choose|i: int| 0 <= i < s1.len() && #[trigger] target_of(&s1[i]) == Some(p);
                assert(i != k);
                assert(target_of(&states[i]) == Some(p));
                assert(target_of(&states[k]) == Some(t));
                assert(p != t);
            }
        }
        assert forall|i: int, j: int| 0 <= i < s1.len() && 0 <= j < s1.len() && i != j && #[trigger] target_of(&s1[i]) is Some
            implies target_of(&s1[i]) != #[trigger] target_of(&s1[j]) by {
            assert(i != k);
            if j != k {
                assert(target_of(&s1[j]) == target_of(&states[j]));
            }
            assert(target_of(&s1[i]) == target_of(&states[i]));
        }
    }
}

/// The first known resource that no collector has claimed, with its kind.
fn first_unclaimed(app: &App) -> (res: Option<((usize, usize), ResourceKind)>)
    ensures
        match res {
            Some((t, k)) => exists|i: int| {
                &&& is_first_unclaimed(app, i)
                &&& t == (app.known_resources@[i].0, app.known_resources@[i].1)
                &&& k == app.known_resources@[i].2
            },
            None => forall|i: int| 0 <= i < app.known_resources@.len() ==> !unclaimed(app, i),
        },
{
    let mut i: usize = 0;
    while i < app.known_resources.len()
        invariant
            i <= app.known_resources@.len(),
            forall|j: int| 0 <= j < i ==> !unclaimed(app, j),
        decreases app.known_resources@.len() - i,
    {
        let r = app.known_resources[i];
        if !crate::base::contains_pos(&app.claimed_resources, (r.0, r.1)) {
            assert(is_first_unclaimed(app, i as int));
            return Some(((r.0, r.1), r.2));
        }
        i = i + 1;
    }
    None
}

impl Collector {
    pub fn new(id: usize, started_pos: (usize, usize)) -> (c: Collector)
        ensures
            c.id() == id,
            c.position() == started_pos,
    {
        Collector { id, pos: started_pos }
    }

    pub closed spec fn id(&self) -> usize {
        self.id
    }

    pub closed spec fn position(&self) -> (usize, usize) {
        self.pos
    }

    pub fn get_id(&self) -> (id: usize)
        ensures
            id == self.id(),
    {
        self.id
    }

    pub fn pos(&self) -> (pos: (usize, usize))
        ensures
            pos == self.position(),
    {
        self.pos
    }

    /// One move along `path` when its next cell is walkable; the shared
    /// position list follows.
    fn advance(&mut self, path: &mut Vec<(usize, usize)>, app: &mut App)
        requires
            old(app).map.wf(),
        ensures
            final(self).id() == old(self).id(),
            final(self).position() == pos_after(&old(app).map, old(self).position(), old(path)@),
            final(path)@ == path_after(&old(app).map, old(path)@),
            chain(old(self).position(), old(path)@) ==> chain(final(self).position(), final(path)@),
            chain(old(self).position(), old(path)@) && final(self).position() != old(self).position() ==> adjacent(old(self).position(), final(self).position()),
            final(app).collectors@ == collectors_after(
                old(app).collectors@,
                old(self).id(),
                &old(app).map,
                old(self).position(),
                old(path)@,
            ),
            final(app).map == old(app).map,
            final(app).base == old(app).base,
            final(app).active == old(app).active,
            final(app).collected_energy == old(app).collected_energy,
            final(app).collected_crystals == old(app).collected_crystals,
            final(app).known_resources@ == old(app).known_resources@,
            final(app).known_obstacles@ == old(app).known_obstacles@,
            final(app).scouts@ == old(app).scouts@,
            final(app).claimed_resources@ == old(app).claimed_resources@,
    {
        if path.len() > 0 {
            let next = path[0];
            if app.map.is_walkable(next.0, next.1) {
                path.remove(0);
                assert(path@ =~= old(path)@.drop_first());
                proof {
                    if chain(old(self).position(), old(path)@) {
                        lemma_chain_rest(old(self).position(), old(path)@);
                        assert(adjacent(before(old(self).position(), old(path)@, 0), old(path)@[0]));
                    }
                }
                self.pos = next;
                if self.id < app.collectors.len() {
                    app.collectors.set(self.id, next);
                }
            }
        }
    }

    /// Whether `step` may be called: the map is well formed, the collector
    /// stands on it, and `state` points at a cell of the map along a chain
    /// of adjacent cells.
    pub fn can_step(&self, state: &State, app: &App) -> (res: bool)
        ensures
            res == (app.map.wf() && app.map.in_bounds(self.position().0 as int, self.position().1 as int)
                && state_wf(state, &app.map, self.position())),
    {
        if !app.map.is_well_formed() || self.pos.0 >= app.map.width || self.pos.1 >= app.map.height {
            return false;
        }
        let (target, path) = match state {
            State::Idle => {
                return true;
            },
            State::GoingTo { target, path, .. } => (*target, path),
            State::Returning { target, path, .. } => (*target, path),
        };
        if target.0 >= app.map.width || target.1 >= app.map.height {
            return false;
        }
        chain_holds(self.pos, path)
    }

    fn step_idle(&self, app: &mut App) -> (next: State)
        requires
            old(app).map.wf(),
            old(app).map.in_bounds(self.position().0 as int, self.position().1 as int),
        ensures
            idle_step(self.position(), old(app), final(app), &next),
            state_wf(&next, &final(app).map, self.position()),
    {
        match first_unclaimed(app) {
            Some((t, k)) => {
                proof {
                    let i = choose|i: int| {
                        &&& is_first_unclaimed(old(app), i)
                        &&& t == (app.known_resources@[i].0, app.known_resources@[i].1)
                        &&& k == app.known_resources@[i].2
                    };
                    let i0 = choose|i: int| is_first_unclaimed(old(app), i);
                    assert(is_first_unclaimed(old(app), i0));
                    if i0 < i {
                        assert(!unclaimed(old(app), i0));
                    } else if i < i0 {
                        assert(!unclaimed(old(app), i));
                    }
                    assert(i == i0);
                }
                match bfs(app, self.pos, t) {
                    Some(path) => {
                        proof {
                            lemma_route_ends_on_map(&app.map, self.pos, t, path@);
                            lemma_route_is_chain(&app.map, self.pos, t, path@);
                        }
                        app.claimed_resources.push(t);
                        State::GoingTo { target: t, kind: k, path }
                    },
                    None => State::Idle,
                }
            },
            None => State::Idle,
        }
    }

    fn step_going(
        &mut self,
        target: (usize, usize),
        kind: ResourceKind,
        path: Vec<(usize, usize)>,
        app: &mut App,
    ) -> (next: State)
        requires
            old(app).map.wf(),
            old(app).map.in_bounds(old(self).position().0 as int, old(self).position().1 as int),
            old(app).map.in_bounds(target.0 as int, target.1 as int),
            chain(old(self).position(), path@),
        ensures
            final(self).id() == old(self).id(),
            going_step(old(self).position(), target, kind, path@, final(self).position(), old(app), final(app), &next),
            final(app).collectors@ == collectors_after(
                old(app).collectors@,
                old(self).id(),
                &old(app).map,
                old(self).position(),
                path@,
            ),
            final(app).map.in_bounds(final(self).position().0 as int, final(self).position().1 as int),
            state_wf(&next, &final(app).map, final(self).position()),
    {
        let mut path = path;
        self.advance(&mut path, app);
        if self.pos.0 == target.0 && self.pos.1 == target.1 {
            let tile = app.map.tiles[target.1][target.0];
            match take_one_unit(&tile) {
                Some((new_tile, taken)) => {
                    app.map.set_tile(target.0, target.1, new_tile);
                    if matches!(new_tile, MapTile::Empty) {
                        forget_resource(&mut app.known_resources, target);
                    }
                    let base_pos = app.base.pos;
                    let return_path = match bfs(app, self.pos, base_pos) {
                        Some(p) => p,
                        None => Vec::new(),
                    };
                    State::Returning { target, kind: taken, path: return_path }
                },
                None => {
                    forget_resource(&mut app.known_resources, target);
                    release_claim(&mut app.claimed_resources, target);
                    State::Idle
                },
            }
        } else {
            State::GoingTo { target, kind, path }
        }
    }

    fn step_returning(
        &mut self,
        target: (usize, usize),
        kind: ResourceKind,
        path: Vec<(usize, usize)>,
        app: &mut App,
    ) -> (res: (State, Option<RobotMessage>))
        requires
            old(app).map.wf(),
            old(app).map.in_bounds(old(self).position().0 as int, old(self).position().1 as int),
            old(app).map.in_bounds(target.0 as int, target.1 as int),
            chain(old(self).position(), path@),
        ensures
            final(self).id() == old(self).id(),
            returning_step(old(self).position(), target, kind, path@, final(self).position(), old(app), final(app), &res.0, res.1),
            final(app).collectors@ == collectors_after(
                old(app).collectors@,
                old(self).id(),
                &old(app).map,
                old(self).position(),
                path@,
            ),
            final(app).map.in_bounds(final(self).position().0 as int, final(self).position().1 as int),
            state_wf(&res.0, &final(app).map, final(self).position()),
    {
        let mut path = path;
        self.advance(&mut path, app);
        if path.len() == 0 && !(self.pos.0 == app.base.pos.0 && self.pos.1 == app.base.pos.1) {
            let base_pos = app.base.pos;
            let return_path = match bfs(app, self.pos, base_pos) {
                Some(p) => p,
                None => Vec::new(),
            };
            (State::Returning { target, kind, path: return_path }, None)
        } else if path.len() == 0 {
            let msg = RobotMessage::ResourceCollected { pos: self.pos, amount: 1, kind };
            let tile = app.map.tiles[target.1][target.0];
            if resource_remaining(&tile) {
                match bfs(app, self.pos, target) {
                    Some(p) => (State::GoingTo { target, kind, path: p }, Some(msg)),
                    None => {
                        release_claim(&mut app.claimed_resources, target);
                        (State::Idle, Some(msg))
                    },
                }
            } else {
                forget_resource(&mut app.known_resources, target);
                release_claim(&mut app.claimed_resources, target);
                (State::Idle, Some(msg))
            }
        } else {
            (State::Returning { target, kind, path }, None)
        }
    }

    /// One tick of the collector's work on the shared state: the next state,
    /// and the report to send to the base, if any.
    pub fn step(&mut self, state: State, app: &mut App) -> (res: (State, Option<RobotMessage>))
        requires
            old(app).map.wf(),
            old(app).map.in_bounds(old(self).position().0 as int, old(self).position().1 as int),
            state_wf(&state, &old(app).map, old(self).position()),
        ensures
            final(self).id() == old(self).id(),
            final(app).map.wf(),
            final(app).map.in_bounds(final(self).position().0 as int, final(self).position().1 as int),
            state_wf(&res.0, &final(app).map, final(self).position()),
            final(self).position() == old(self).position() || (adjacent(old(self).position(), final(self).position())
                && old(app).map.walkable(final(self).position().0 as int, final(self).position().1 as int)),
            stepped(old(self).position(), old(self).id(), &state, old(app), final(app), final(self).position(), &res.0, res.1),
    {
        match state {
            State::Idle => (self.step_idle(app), None),
            State::GoingTo { target, kind, path } => (self.step_going(target, kind, path, app), None),
            State::Returning { target, kind, path } => self.step_returning(target, kind, path, app),
        }
    }
}

} // verus!
