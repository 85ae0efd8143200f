use vstd::prelude::*;

use crate::app::App;
use crate::map::WorldMap;
use crate::messages::{ResourceKind, RobotMessage};

verus! {

/// The central base: where robots start and where resources are unloaded.
pub struct Base {
    pub pos: (usize, usize),
}

/// Whether some known resource lies at `pos`.
pub open spec fn resource_known_at(known: Seq<(usize, usize, ResourceKind)>, pos: (usize, usize)) -> bool {
    exists|i: int| 0 <= i < known.len() && (#[trigger] known[i]).0 == pos.0 && known[i].1 == pos.1
}

/// The world outside the lists that messages update stays as it was.
pub open spec fn same_world(a: &App, b: &App) -> bool {
    &&& a.map == b.map
    &&& a.base == b.base
    &&& a.active == b.active
    &&& a.scouts@ == b.scouts@
    &&& a.collectors@ == b.collectors@
    &&& a.claimed_resources@ == b.claimed_resources@
}

/// No total overflows when `message` is applied to `app`.
pub open spec fn message_fits(app: &App, message: RobotMessage) -> bool {
    match message {
        RobotMessage::ResourceCollected { amount, kind: ResourceKind::Energy, .. } =>
            app.collected_energy + amount <= u32::MAX,
        RobotMessage::ResourceCollected { amount, kind: ResourceKind::Crystal, .. } =>
            app.collected_crystals + amount <= u32::MAX,
        _ => true,
    }
}

/// The known resources after the base has taken in `message`: a found
/// resource is added unless one is already known at its position.
pub open spec fn known_after(known: Seq<(usize, usize, ResourceKind)>, message: RobotMessage) -> Seq<(usize, usize, ResourceKind)> {
    match message {
        RobotMessage::ResourceFound { pos, kind } => if resource_known_at(known, pos) {
            known
        } else {
            known.push((pos.0, pos.1, kind))
        },
        _ => known,
    }
}

/// The known obstacles after the base has taken in `message`: a found
/// obstacle is added unless it is already known.
pub open spec fn obstacles_after(obstacles: Seq<(usize, usize)>, message: RobotMessage) -> Seq<(usize, usize)> {
    match message {
        RobotMessage::ObstacleFound { pos } => if obstacles.contains(pos) {
            obstacles
        } else {
            obstacles.push(pos)
        },
        _ => obstacles,
    }
}

/// The state of `old` after the base has taken in `message`.
pub open spec fn handled(old: &App, new: &App, message: RobotMessage) -> bool {
    &&& same_world(old, new)
    &&& new.known_resources@ == known_after(old.known_resources@, message)
    &&& new.known_obstacles@ == obstacles_after(old.known_obstacles@, message)
    &&& match message {
        RobotMessage::ResourceCollected { amount, kind, .. } => {
            &&& new.collected_energy == old.collected_energy + if kind == ResourceKind::Energy {
                amount
            } else {
                0
            }
            &&& new.collected_crystals == old.collected_crystals + if kind == ResourceKind::Crystal {
                amount
            } else {
                0
            }
        },
        _ => {
            &&& new.collected_energy == old.collected_energy
            &&& new.collected_crystals == old.collected_crystals
        },
    }
}

/// No two known resources lie at the same position.
pub open spec fn resources_distinct(known: Seq<(usize, usize, ResourceKind)>) -> bool {
    forall|i: int, j: int| 0 <= i < j < known.len() ==> !(#[trigger] known[i].0 == #[trigger] known[j].0 && known[i].1 == known[j].1)
}

/// Whatever the message, the base never records two resources at the same
/// position.
pub proof fn lemma_resources_stay_distinct(known: Seq<(usize, usize, ResourceKind)>, message: RobotMessage)
    requires
        resources_distinct(known),
    ensures
        resources_distinct(known_after(known, message)),
{
    if let RobotMessage::ResourceFound { pos, kind } = message {
        if !resource_known_at(known, pos) {
            let n = known_after(known, message);
            assert forall|i: int, j: int| 0 <= i < j < n.len() implies !(#[trigger] n[i].0 == #[trigger] n[j].0 && n[i].1 == n[j].1) by {
                if j == known.len() {
                    assert(n[i] == known[i]);
                }
            }
        }
    }
}

/// Whatever the message, the base never records an obstacle twice.
pub proof fn lemma_obstacles_stay_distinct(obstacles: Seq<(usize, usize)>, message: RobotMessage)
    requires
        obstacles.no_duplicates(),
    ensures
        obstacles_after(obstacles, message).no_duplicates(),
{
    if let RobotMessage::ObstacleFound { pos } = message {
        if !obstacles.contains(pos) {
            let n = obstacles_after(obstacles, message);
            assert forall|i: int, j: int| 0 <= i < n.len() && 0 <= j < n.len() && i != j implies n[i] != n[j] by {
                if j == obstacles.len() {
                    assert(n[i] == obstacles[i]);
                } else if i == obstacles.len() {
                    assert(n[j] == obstacles[j]);
                }
            }
        }
    }
}

/// After a resource is reported found, a resource is known at its position:
/// the report is added, unless a resource was already known at exactly
/// that position, and nothing else changes in the list.
pub proof fn lemma_found_resource_is_known(old: &App, new: &App, pos: (usize, usize), kind: ResourceKind)
    requires
        handled(old, new, RobotMessage::ResourceFound { pos, kind }),
    ensures
        exists|i: int| 0 <= i < new.known_resources@.len() && (#[trigger] new.known_resources@[i]).0 == pos.0
            && new.known_resources@[i].1 == pos.1,
        new.known_resources@ == old.known_resources@ || new.known_resources@ == old.known_resources@.push((pos.0, pos.1, kind)),
        (exists|i: int| 0 <= i < old.known_resources@.len() && (#[trigger] old.known_resources@[i]).0 == pos.0
            && old.known_resources@[i].1 == pos.1) <==> new.known_resources@ == old.known_resources@,
{
    let k = old.known_resources@;
    let n = new.known_resources@;
    if resource_known_at(k, pos) {
        let i = choose|i: int| 0 <= i < k.len() && (#[trigger] k[i]).0 == pos.0 && k[i].1 == pos.1;
        assert(n[i] == k[i]);
    } else {
        assert(n[k.len() as int] == (pos.0, pos.1, kind));
        assert(n.len() == k.len() + 1);
    }
}

/// Reporting a discovery a second time changes nothing.
pub proof fn lemma_discovery_idempotent(first: &App, second: &App, third: &App, message: RobotMessage)
    requires
        message is ResourceFound || message is ObstacleFound,
        handled(first, second, message),
        handled(second, third, message),
    ensures
        third.known_resources@ == second.known_resources@,
        third.known_obstacles@ == second.known_obstacles@,
        third.collected_energy == second.collected_energy,
        third.collected_crystals == second.collected_crystals,
        same_world(second, third),
{
    match message {
        RobotMessage::ResourceFound { pos, kind } => {
            if !resource_known_at(first.known_resources@, pos) {
                let i = first.known_resources@.len() as int;
                assert(second.known_resources@[i] == (pos.0, pos.1, kind));
                assert(resource_known_at(second.known_resources@, pos));
            }
        },
        RobotMessage::ObstacleFound { pos } => {
            if !first.known_obstacles@.contains(pos) {
                let i = first.known_obstacles@.len() as int;
                assert(second.known_obstacles@[i] == pos);
            }
        },
        _ => {},
    }
}

/// Whether some known resource lies at `pos`.
fn knows_resource_at(known: &Vec<(usize, usize, ResourceKind)>, pos: (usize, usize)) -> (res: bool)
    ensures
        res == resource_known_at(known@, pos),
{
    let mut i: usize = 0;
    while i < known.len()
        invariant
            i <= known.len(),
            forall|j: int| 0 <= j < i ==> !((#[trigger] known@[j]).0 == pos.0 && known@[j].1 == pos.1),
        decreases known.len() - i,
    {
        if known[i].0 == pos.0 && known[i].1 == pos.1 {
            return true;
        }
        i = i + 1;
    }
    false
}

/// Whether `pos` is in `list`.
pub fn contains_pos(list: &Vec<(usize, usize)>, pos: (usize, usize)) -> (res: bool)
    ensures
        res == list@.contains(pos),
{
    let mut i: usize = 0;
    while i < list.len()
        invariant
            i <= list.len(),
            forall|j: int| 0 <= j < i ==> #[trigger] list@[j] != pos,
        decreases list.len() - i,
    {
        if list[i].0 == pos.0 && list[i].1 == pos.1 {
            assert(list@[i as int] == pos);
            return true;
        }
        i = i + 1;
    }
    false
}

impl Base {
    /// The base stands at the centre of the map.
    pub fn new(map: &WorldMap) -> (base: Base)
        ensures
            base.pos == (map.width / 2, map.height / 2),
    {
        Base { pos: (map.width / 2, map.height / 2) }
    }

    /// Communication centre: records discoveries (each position once) and
    /// adds collected units to the totals.
    pub fn handle_message(app: &mut App, message: RobotMessage)
        requires
            message_fits(old(app), message),
        ensures
            handled(old(app), final(app), message),
    {
        match message {
            RobotMessage::ResourceFound { pos, kind } => {
                let already_known = knows_resource_at(&app.known_resources, pos);
                if !already_known {
                    app.known_resources.push((pos.0, pos.1, kind));
                }
            },
            RobotMessage::ObstacleFound { pos } => {
                if !contains_pos(&app.known_obstacles, pos) {
                    app.known_obstacles.push(pos);
                }
            },
            RobotMessage::ResourceCollected { amount, kind, .. } => match kind {
                ResourceKind::Energy => app.collected_energy = app.collected_energy + amount,
                ResourceKind::Crystal => app.collected_crystals = app.collected_crystals + amount,
            },
            RobotMessage::GoCollect { .. } => {},
        }
    }
}

} // verus!
