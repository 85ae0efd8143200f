use rand::rngs::ThreadRng;
use vstd::prelude::*;

use crate::app::App;
use crate::map::MapTile;
use crate::messages::{ResourceKind, RobotMessage};
use crate::rng::gen_range_inclusive;
use crate::base::contains_pos;
use crate::robot::path::{adjacent, direction, direction_at, is_direction, shift, shifted};

verus! {

/// A robot that wanders the map at random, reports the resources it steps on
/// and the obstacles it bumps into.
pub struct Scout {
    id: usize,
    pos: (usize, usize),
}

/// `dirs` holds each of the four moves exactly once.
pub open spec fn is_ordering(dirs: Seq<(i32, i32)>) -> bool {
    &&& dirs.len() == 4
    &&& forall|m: int| 0 <= m < 4 ==> is_direction(#[trigger] dirs[m])
    &&& forall|m1: int, m2: int| 0 <= m1 < 4 && 0 <= m2 < 4 && m1 != m2 ==> dirs[m1] != dirs[m2]
    &&& forall|k: int| 0 <= k < 4 ==> dirs.contains(#[trigger] direction_at(k))
}

/// Exchanges the moves at `i` and `j`.
pub fn swap_moves(dirs: &mut Vec<(i32, i32)>, i: usize, j: usize)
    requires
        i < old(dirs)@.len(),
        j < old(dirs)@.len(),
    ensures
        final(dirs)@ == old(dirs)@.update(i as int, old(dirs)@[j as int]).update(j as int, old(dirs)@[i as int]),
{
    let a = dirs[i];
    let b = dirs[j];
    dirs.set(i, b);
    dirs.set(j, a);
}

/// The four moves in a random order (Fisher-Yates).
pub fn shuffled_directions(rng: &mut ThreadRng) -> (dirs: Vec<(i32, i32)>)
    ensures
        is_ordering(dirs@),
{
    let mut dirs: Vec<(i32, i32)> = Vec::new();
    let mut k: usize = 0;
    while k < 4
        invariant
            k <= 4,
            dirs@.len() == k,
            forall|m: int| 0 <= m < k ==> #[trigger] dirs@[m] == direction_at(m),
        decreases 4 - k,
    {
        dirs.push(direction(k));
        k = k + 1;
    }
    let mut i: usize = 3;
    while i >= 1
        invariant
            i <= 3,
            dirs@.len() == 4,
            forall|m: int| 0 <= m < 4 ==> is_direction(#[trigger] dirs@[m]),
            forall|m1: int, m2: int| 0 <= m1 < 4 && 0 <= m2 < 4 && m1 != m2 ==> dirs@[m1] != dirs@[m2],
        decreases i,
    {
        let j = gen_range_inclusive(rng, 0, i);
        let ghost before = dirs@;
        swap_moves(&mut dirs, i, j);
        assert forall|m: int| 0 <= m < 4 implies is_direction(#[trigger] dirs@[m]) by {
            if m == i {
                assert(dirs@[m] == before[j as int]);
            } else if m == j {
                assert(dirs@[m] == before[i as int]);
            } else {
                assert(dirs@[m] == before[m]);
            }
        }
        assert forall|m1: int, m2: int| 0 <= m1 < 4 && 0 <= m2 < 4 && m1 != m2 implies dirs@[m1] != dirs@[m2] by {
            let o1 = if m1 == i { j as int } else if m1 == j { i as int } else { m1 };
            let o2 = if m2 == i { j as int } else if m2 == j { i as int } else { m2 };
            assert(dirs@[m1] == before[o1]);
            assert(dirs@[m2] == before[o2]);
        }
        if i == 1 {
            break;
        }
        i = i - 1;
    }
    proof {
        let d = dirs@;
        assert(is_direction(d[0]) && is_direction(d[1]) && is_direction(d[2]) && is_direction(d[3]));
        assert(d[0] != d[1] && d[0] != d[2] && d[0] != d[3] && d[1] != d[2] && d[1] != d[3] && d[2] != d[3]);
        assert forall|k: int| 0 <= k < 4 implies d.contains(#[trigger] direction_at(k)) by {
            if d[0] == direction_at(k) {
                assert(d[0] == direction_at(k));
            } else if d[1] == direction_at(k) {
                assert(d[1] == direction_at(k));
            } else if d[2] == direction_at(k) {
                assert(d[2] == direction_at(k));
            } else {
                assert(d[3] == direction_at(k));
            }
        }
    }
    dirs
}


/// The cell `q` can be entered: no obstacle stands there and none is known
/// to stand there.
pub open spec fn open_cell(app: &App, q: (usize, usize)) -> bool {
    app.map.tile(q.0 as int, q.1 as int) != MapTile::Obstacle && !app.known_obstacles@.contains(q)
}

/// The move `d` from `pos` leads to an open cell of the map.
pub open spec fn leads_open(app: &App, pos: (usize, usize), d: (i32, i32)) -> bool {
    match shifted(pos, d, app.map.width, app.map.height) {
        Some(q) => open_cell(app, q),
        None => false,
    }
}

/// The first of `dirs[0..n]` that leads to an open cell.
pub open spec fn first_open(app: &App, pos: (usize, usize), dirs: Seq<(i32, i32)>, n: int) -> Option<int>
    decreases n,
{
    if n <= 0 {
        None
    } else {
        match first_open(app, pos, dirs, n - 1) {
            Some(k) => Some(k),
            None => if leads_open(app, pos, dirs[n - 1]) {
                Some(n - 1)
            } else {
                None
            },
        }
    }
}

proof fn lemma_first_open_settles(app: &App, pos: (usize, usize), dirs: Seq<(i32, i32)>, k: int, n: int)
    requires
        0 <= k < n,
        first_open(app, pos, dirs, k + 1) == Some(k),
    ensures
        first_open(app, pos, dirs, n) == Some(k),
    decreases n,
{
    if n > k + 1 {
        lemma_first_open_settles(app, pos, dirs, k, n - 1);
    }
}

/// The report of an obstacle bumped into by the move `d`, unless the base
/// already knows it.
pub open spec fn bump_report(app: &App, pos: (usize, usize), d: (i32, i32)) -> Seq<RobotMessage> {
    match shifted(pos, d, app.map.width, app.map.height) {
        Some(q) => if app.map.tile(q.0 as int, q.1 as int) == MapTile::Obstacle && !app.known_obstacles@.contains(q) {
            seq![RobotMessage::ObstacleFound { pos: q }]
        } else {
            seq![]
        },
        None => seq![],
    }
}

/// The obstacle reports of the moves `dirs[0..n]`, in order.
pub open spec fn bump_reports(app: &App, pos: (usize, usize), dirs: Seq<(i32, i32)>, n: int) -> Seq<RobotMessage>
    decreases n,
{
    if n <= 0 {
        seq![]
    } else {
        bump_reports(app, pos, dirs, n - 1) + bump_report(app, pos, dirs[n - 1])
    }
}

/// The report of a resource found on `tile` at `q`.
pub open spec fn find_report(tile: MapTile, q: (usize, usize)) -> Seq<RobotMessage> {
    match tile {
        MapTile::Energy(_) => seq![RobotMessage::ResourceFound { pos: q, kind: ResourceKind::Energy }],
        MapTile::Crystal(_) => seq![RobotMessage::ResourceFound { pos: q, kind: ResourceKind::Crystal }],
        _ => seq![],
    }
}

/// Everything but the scout positions stays as it was.
pub open spec fn scout_frame(old: &App, new: &App) -> bool {
    &&& new.map == old.map
    &&& new.base == old.base
    &&& new.active == old.active
    &&& new.collected_energy == old.collected_energy
    &&& new.collected_crystals == old.collected_crystals
    &&& new.known_resources@ == old.known_resources@
    &&& new.known_obstacles@ == old.known_obstacles@
    &&& new.collectors@ == old.collectors@
    &&& new.claimed_resources@ == old.claimed_resources@
}

/// One step of a scout at `pos` with identity `id` trying the moves `dirs`
/// on `app`: it ends at `new_pos`, the scout positions become `new_scouts`,
/// and it sends `msgs`.
pub open spec fn scout_stepped(
    app: &App,
    pos: (usize, usize),
    id: usize,
    dirs: Seq<(i32, i32)>,
    new_pos: (usize, usize),
    new_scouts: Seq<(usize, usize)>,
    msgs: Seq<RobotMessage>,
) -> bool {
    match first_open(app, pos, dirs, dirs.len() as int) {
        Some(k) => {
            let q = shifted(pos, dirs[k], app.map.width, app.map.height).unwrap();
            &&& new_pos == q
            &&& msgs == bump_reports(app, pos, dirs, k) + find_report(app.map.tile(q.0 as int, q.1 as int), q)
            &&& new_scouts == if id < app.scouts@.len() {
                app.scouts@.update(id as int, q)
            } else {
                app.scouts@
            }
        },
        None => {
            &&& new_pos == pos
            &&& msgs == bump_reports(app, pos, dirs, dirs.len() as int)
            &&& new_scouts == app.scouts@
        },
    }
}

/// Each obstacle report names an obstacle of the map that the base does not
/// know yet.
pub open spec fn reports_unknown_obstacle(app: &App, m: RobotMessage) -> bool {
    m matches RobotMessage::ObstacleFound { pos: o } && app.map.tile(o.0 as int, o.1 as int) == MapTile::Obstacle
        && !app.known_obstacles@.contains(o)
}

proof fn lemma_bump_reports_are_obstacles(app: &App, pos: (usize, usize), dirs: Seq<(i32, i32)>, n: int)
    ensures
        forall|i: int| 0 <= i < bump_reports(app, pos, dirs, n).len()
            ==> reports_unknown_obstacle(app, #[trigger] bump_reports(app, pos, dirs, n)[i]),
    decreases n,
{
    if n > 0 {
        lemma_bump_reports_are_obstacles(app, pos, dirs, n - 1);
        let a = bump_reports(app, pos, dirs, n - 1);
        let b = bump_report(app, pos, dirs[n - 1]);
        assert forall|i: int| 0 <= i < (a + b).len() implies reports_unknown_obstacle(app, #[trigger] (a + b)[i]) by {
            if i >= a.len() {
                assert((a + b)[i] == b[i - a.len()]);
            }
        }
    }
}

/// What a scout reports: every report but the last names an obstacle of the
/// map it bumped into and the base does not know yet; when it moves onto a
/// deposit, its last report is that deposit, of the deposit's kind, at the
/// cell it moved to; when it moves onto a cell without a deposit, or does not
/// move, every report is of such an obstacle.
pub proof fn lemma_scout_reports_what_it_finds(
    app: &App,
    pos: (usize, usize),
    id: usize,
    dirs: Seq<(i32, i32)>,
    new_pos: (usize, usize),
    new_scouts: Seq<(usize, usize)>,
    msgs: Seq<RobotMessage>,
)
    requires
        scout_stepped(app, pos, id, dirs, new_pos, new_scouts, msgs),
    ensures
        forall|i: int| 0 <= i < msgs.len() - 1 ==> reports_unknown_obstacle(app, #[trigger] msgs[i]),
        first_open(app, pos, dirs, dirs.len() as int) is Some ==> {
            let t = app.map.tile(new_pos.0 as int, new_pos.1 as int);
            &&& t is Energy ==> msgs.len() > 0 && msgs.last() == RobotMessage::ResourceFound { pos: new_pos, kind: ResourceKind::Energy }
            &&& t is Crystal ==> msgs.len() > 0 && msgs.last() == RobotMessage::ResourceFound { pos: new_pos, kind: ResourceKind::Crystal }
            &&& !(t is Energy) && !(t is Crystal) ==> forall|i: int| 0 <= i < msgs.len() ==> reports_unknown_obstacle(app, #[trigger] msgs[i])
        },
        first_open(app, pos, dirs, dirs.len() as int) is None ==> {
            &&& new_pos == pos
            &&& forall|i: int| 0 <= i < msgs.len() ==> reports_unknown_obstacle(app, #[trigger] msgs[i])
        },
{
    match first_open(app, pos, dirs, dirs.len() as int) {
        Some(k) => {
            lemma_bump_reports_are_obstacles(app, pos, dirs, k);
            let a = bump_reports(app, pos, dirs, k);
            let t = app.map.tile(new_pos.0 as int, new_pos.1 as int);
            let b = find_report(t, new_pos);
            assert forall|i: int| 0 <= i < msgs.len() - 1 implies reports_unknown_obstacle(app, #[trigger] msgs[i]) by {
                assert(msgs[i] == a[i]);
            }
            if !(t is Energy) && !(t is Crystal) {
                assert(msgs =~= a);
            }
        },
        None => {
            lemma_bump_reports_are_obstacles(app, pos, dirs, dirs.len() as int);
        },
    }
}

impl Scout {
    pub fn new(id: usize, started_pos: (usize, usize)) -> (s: Scout)
        ensures
            s.id() == id,
            s.position() == started_pos,
    {
        Scout { id, pos: started_pos }
    }

    pub closed spec fn id(&self) -> usize {
        self.id
    }

    pub closed spec fn position(&self) -> (usize, usize) {
        self.pos
    }

    pub fn get_id(&self) -> (id: usize)
        ensures
            id == self.id(),
    {
        self.id
    }

    pub fn pos(&self) -> (pos: (usize, usize))
        ensures
            pos == self.position(),
    {
        self.pos
    }

    /// One tick of exploration: tries the moves of `directions` in turn,
    /// reports each unknown obstacle it bumps into, and takes the first move
    /// to an open cell, reporting the resource found there.
    pub fn step(&mut self, app: &mut App, directions: &Vec<(i32, i32)>) -> (msgs: Vec<RobotMessage>)
        requires
            old(app).map.wf(),
        ensures
            final(self).id() == old(self).id(),
            scout_frame(old(app), final(app)),
            final(self).position() == old(self).position() || {
                &&& old(app).map.walkable(final(self).position().0 as int, final(self).position().1 as int)
                &&& !old(app).known_obstacles@.contains(final(self).position())
            },
            (forall|i: int| 0 <= i < directions@.len() ==> is_direction(#[trigger] directions@[i]))
                && final(self).position() != old(self).position() ==> adjacent(old(self).position(), final(self).position()),
            scout_stepped(old(app), old(self).position(), old(self).id(), directions@, final(self).position(),
                final(app).scouts@, msgs@),
    {
        let mut msgs: Vec<RobotMessage> = Vec::new();
        let mut k: usize = 0;
        while k < directions.len()
            invariant
                app.map.wf(),
                *app == *old(app),
                self.pos == old(self).pos,
                self.id == old(self).id,
                k <= directions@.len(),
                first_open(old(app), old(self).position(), directions@, k as int) is None,
                msgs@ == bump_reports(old(app), old(self).position(), directions@, k as int),
            decreases directions@.len() - k,
        {
            let d = directions[k];
            match shift(self.pos, d, app.map.width, app.map.height) {
                None => {},
                Some(q) => {
                    let is_obstacle = matches!(app.map.tiles[q.1][q.0], MapTile::Obstacle);
                    let known = contains_pos(&app.known_obstacles, q);
                    if is_obstacle {
                        if !known {
                            msgs.push(RobotMessage::ObstacleFound { pos: q });
                        }
                    } else if !known && app.map.is_walkable(q.0, q.1) {
                        self.pos = q;
                        if self.id < app.scouts.len() {
                            app.scouts.set(self.id, q);
                        }
                        match app.map.tiles[q.1][q.0] {
                            MapTile::Energy(_) => {
                                msgs.push(RobotMessage::ResourceFound { pos: q, kind: ResourceKind::Energy });
                            },
                            MapTile::Crystal(_) => {
                                msgs.push(RobotMessage::ResourceFound { pos: q, kind: ResourceKind::Crystal });
                            },
                            _ => {},
                        }
                        proof {
                            assert(leads_open(old(app), old(self).position(), directions@[k as int]));
                            assert(first_open(old(app), old(self).position(), directions@, k + 1) == Some(k as int));
                            lemma_first_open_settles(old(app), old(self).position(), directions@, k as int, directions@.len() as int);
                        }
                        assert(msgs@ =~= bump_reports(old(app), old(self).position(), directions@, k as int)
                            + find_report(old(app).map.tile(q.0 as int, q.1 as int), q));
                        return msgs;
                    }
                },
            }
            assert(msgs@ =~= bump_reports(old(app), old(self).position(), directions@, k + 1));
            k = k + 1;
        }
        msgs
    }
}

} // verus!
