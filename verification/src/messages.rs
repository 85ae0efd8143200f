use vstd::prelude::*;

verus! {

/// The two kinds of resources found on the map.
#[derive(Clone, Copy, Debug, PartialEq, Eq, Structural)]
pub enum ResourceKind {
    Energy,
    Crystal,
}

/// What a robot reports to the base.
#[derive(Clone, Copy, Debug, PartialEq, Eq)]
pub enum RobotMessage {
    ResourceFound { pos: (usize, usize), kind: ResourceKind },
    ObstacleFound { pos: (usize, usize) },
    ResourceCollected { pos: (usize, usize), amount: u32, kind: ResourceKind },
    GoCollect { pos: (usize, usize) },
}

} // verus!
