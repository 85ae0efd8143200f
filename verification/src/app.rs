use vstd::prelude::*;

use crate::base::Base;
use rand::rngs::ThreadRng;

use crate::map::{deposits_topped_up, generated, shaped, Terrain, WorldMap};
use crate::messages::ResourceKind;

verus! {

/// The whole shared state of the simulation.
pub struct App {
    pub map: WorldMap,
    pub base: Base,
    pub collected_energy: u32,
    pub collected_crystals: u32,
    pub known_resources: Vec<(usize, usize, ResourceKind)>,
    pub known_obstacles: Vec<(usize, usize)>,
    pub active: bool,
    pub scouts: Vec<(usize, usize)>,
    pub collectors: Vec<(usize, usize)>,
    pub claimed_resources: Vec<(usize, usize)>,
}


impl App {
    /// A freshly generated world: the map laid out from `terrain`, the base
    /// at its centre, nothing known or collected yet, no robot placed.
    pub fn new(width: usize, height: usize, terrain: &Vec<Vec<Terrain>>, rng: &mut ThreadRng) -> (app: App)
        requires
            width > 0,
            height > 0,
            width * height <= usize::MAX,
            shaped(terrain@, width, height),
        ensures
            app.map.wf(),
            app.map.width == width,
            app.map.height == height,
            forall|x: int, y: int| 0 <= x < width && 0 <= y < height ==> generated(
                terrain@[y]@[x], x, y, (width / 2) as int, (height / 2) as int, #[trigger] app.map.tile(x, y)),
            deposits_topped_up(terrain@, width, height, app.map.tiles@, false),
            deposits_topped_up(terrain@, width, height, app.map.tiles@, true),
            app.base.pos == (width / 2, height / 2),
            app.collected_energy == 0,
            app.collected_crystals == 0,
            app.known_resources@.len() == 0,
            app.known_obstacles@.len() == 0,
            app.active,
            app.scouts@.len() == 0,
            app.collectors@.len() == 0,
            app.claimed_resources@.len() == 0,
    {
        let map = WorldMap::new(width, height, terrain, rng);
        let base = Base::new(&map);
        App {
            map,
            base,
            collected_energy: 0,
            collected_crystals: 0,
            known_resources: Vec::new(),
            known_obstacles: Vec::new(),
            active: true,
            scouts: Vec::new(),
            collectors: Vec::new(),
            claimed_resources: Vec::new(),
        }
    }
}

} // verus!
