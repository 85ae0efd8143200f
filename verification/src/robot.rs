//! Robots that move over the map.

pub mod path;
pub mod collector;
pub mod scout;

pub use collector::Collector;

use rand::rngs::ThreadRng;
use vstd::prelude::*;

use crate::app::App;
use crate::map::MapTile;
use crate::messages::{ResourceKind, RobotMessage};
use crate::rng::gen_range_inclusive;
use path::{direction, is_direction, shift, shifted};

verus! {

/// The first scout design: a random walker that reports what lies on each
/// cell it steps on.
pub struct Scout {
    pos: (usize, usize),
}

/// What the walker reports about the tile at `q` it has just stepped on.
pub open spec fn walk_report(tile: MapTile, q: (usize, usize)) -> Option<RobotMessage> {
    match tile {
        MapTile::Energy(_) => Some(RobotMessage::ResourceFound { pos: q, kind: ResourceKind::Energy }),
        MapTile::Crystal(_) => Some(RobotMessage::ResourceFound { pos: q, kind: ResourceKind::Crystal }),
        _ => None,
    }
}

/// One step of the walker at `pos` trying the move `d` on `app`: it ends
/// at `new_pos` and sends `msg`.
pub open spec fn walked(app: &App, pos: (usize, usize), d: (i32, i32), new_pos: (usize, usize), msg: Option<RobotMessage>) -> bool {
    match shifted(pos, d, app.map.width, app.map.height) {
        Some(q) => if app.map.walkable(q.0 as int, q.1 as int) {
            &&& new_pos == q
            &&& msg == walk_report(app.map.tile(q.0 as int, q.1 as int), q)
        } else {
            &&& new_pos == pos
            &&& msg == Some(RobotMessage::ObstacleFound { pos: q })
        },
        None => {
            &&& new_pos == pos
            &&& msg is None
        },
    }
}

/// What the walker reports: stepping onto a deposit, that deposit with its
/// kind at the cell it stepped onto; stepping onto a cell without a
/// deposit, nothing; bumping into an obstacle of the map, that obstacle,
/// staying where it was; a move off the map, nothing, staying.
pub proof fn lemma_walker_reports_what_it_finds(
    app: &App,
    pos: (usize, usize),
    d: (i32, i32),
    new_pos: (usize, usize),
    msg: Option<RobotMessage>,
)
    requires
        walked(app, pos, d, new_pos, msg),
    ensures
        new_pos != pos ==> app.map.walkable(new_pos.0 as int, new_pos.1 as int),
        app.map.walkable(new_pos.0 as int, new_pos.1 as int) && shifted(pos, d, app.map.width, app.map.height) == Some(new_pos) ==> {
            let t = app.map.tile(new_pos.0 as int, new_pos.1 as int);
            &&& t is Energy ==> msg == Some(RobotMessage::ResourceFound { pos: new_pos, kind: ResourceKind::Energy })
            &&& t is Crystal ==> msg == Some(RobotMessage::ResourceFound { pos: new_pos, kind: ResourceKind::Crystal })
            &&& !(t is Energy) && !(t is Crystal) ==> msg is None
        },
        forall|q: (usize, usize)| #[trigger] shifted(pos, d, app.map.width, app.map.height) == Some(q)
            && app.map.tile(q.0 as int, q.1 as int) == MapTile::Obstacle
            ==> new_pos == pos && msg == Some(RobotMessage::ObstacleFound { pos: q }),
        shifted(pos, d, app.map.width, app.map.height) is None ==> new_pos == pos && msg is None,
{
}

/// One of the four moves, picked at random.
pub fn random_direction(rng: &mut ThreadRng) -> (d: (i32, i32))
    ensures
        is_direction(d),
{
    let k = gen_range_inclusive(rng, 0, 3);
    direction(k)
}

impl Scout {
    pub fn new(started_pos: (usize, usize)) -> (s: Scout)
        ensures
            s.position() == started_pos,
    {
        Scout { pos: started_pos }
    }

    pub closed spec fn position(&self) -> (usize, usize) {
        self.pos
    }

    pub fn pos(&self) -> (pos: (usize, usize))
        ensures
            pos == self.position(),
    {
        self.pos
    }

    /// Tries the move `d`: the walker steps when the target cell lies on the
    /// map and is walkable, and then reports the resource found there; when an
    /// obstacle stands there, it stays and reports the obstacle.
    pub fn step(&mut self, app: &App, d: (i32, i32)) -> (msg: Option<RobotMessage>)
        requires
            app.map.wf(),
        ensures
            walked(app, old(self).position(), d, final(self).position(), msg),
    {
        match shift(self.pos, d, app.map.width, app.map.height) {
            Some(new_pos) => {
                if app.map.is_walkable(new_pos.0, new_pos.1) {
                    self.pos = new_pos;
                    match app.map.tiles[new_pos.1][new_pos.0] {
                        MapTile::Energy(_) => Some(RobotMessage::ResourceFound { pos: new_pos, kind: ResourceKind::Energy }),
                        MapTile::Crystal(_) => Some(RobotMessage::ResourceFound { pos: new_pos, kind: ResourceKind::Crystal }),
                        _ => None,
                    }
                } else {
                    Some(RobotMessage::ObstacleFound { pos: new_pos })
                }
            },
            None => None,
        }
    }
}

} // verus!
