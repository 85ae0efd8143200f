use robot_sim::app::App;
use robot_sim::base::Base;
use robot_sim::map::{place_if_empty, MapTile, Terrain, WorldMap, RESOURCE_MAX, RESOURCE_MIN};
use robot_sim::messages::{ResourceKind, RobotMessage};
use robot_sim::robot::collector::{bfs, resource_remaining, take_one_unit, Collector, State};
use robot_sim::robot::path::{direction, shift};
use robot_sim::robot::scout::{shuffled_directions, swap_moves, Scout};
use robot_sim::ui::{cell_glyph, known_count, Shade};

/// Builds a map from rows of characters: '.' empty, 'O' obstacle,
/// 'E' energy (5 units), 'C' crystal (5 units), '#' base.
fn map_from(rows: &[&str]) -> WorldMap {
    let tiles: Vec<Vec<MapTile>> = rows
        .iter()
        .map(|r| {
            r.chars()
                .map(|c| match c {
                    'O' => MapTile::Obstacle,
                    'E' => MapTile::Energy(5),
                    'C' => MapTile::Crystal(5),
                    '#' => MapTile::Base,
                    _ => MapTile::Empty,
                })
                .collect()
        })
        .collect();
    let height = tiles.len();
    let width = tiles[0].len();
    WorldMap { tiles, width, height }
}

fn app_with(map: WorldMap, base: (usize, usize)) -> App {
    App {
        map,
        base: Base { pos: base },
        collected_energy: 0,
        collected_crystals: 0,
        known_resources: Vec::new(),
        known_obstacles: Vec::new(),
        active: true,
        scouts: Vec::new(),
        collectors: Vec::new(),
        claimed_resources: Vec::new(),
    }
}

fn is_route(map: &WorldMap, start: (usize, usize), goal: (usize, usize), path: &[(usize, usize)]) -> bool {
    let mut prev = start;
    for (i, &p) in path.iter().enumerate() {
        let dx = (p.0 as i64 - prev.0 as i64).abs();
        let dy = (p.1 as i64 - prev.1 as i64).abs();
        if dx + dy != 1 {
            return false;
        }
        let last = i + 1 == path.len();
        if !(map.is_walkable(p.0, p.1) || (last && p == goal)) {
            return false;
        }
        prev = p;
    }
    path.last().copied().unwrap_or(start) == goal
}

#[test]
fn base_sits_at_the_centre() {
    let map = map_from(&["....", "....", "....", "...."]);
    let base = Base::new(&map);
    assert_eq!(base.pos, (2, 2));
    let map = map_from(&[".....", "....."]);
    assert_eq!(Base::new(&map).pos, (2, 1));
}

#[test]
fn walkable_excludes_obstacles_and_outside() {
    let map = map_from(&[".O", "E#"]);
    assert!(map.is_walkable(0, 0));
    assert!(!map.is_walkable(1, 0));
    assert!(map.is_walkable(0, 1));
    assert!(map.is_walkable(1, 1));
    assert!(!map.is_walkable(2, 0));
    assert!(!map.is_walkable(0, 2));
    assert!(map.is_well_formed());
}

#[test]
fn resource_found_is_recorded_once() {
    let mut app = app_with(map_from(&["..."]), (1, 0));
    Base::handle_message(&mut app, RobotMessage::ResourceFound { pos: (2, 0), kind: ResourceKind::Energy });
    Base::handle_message(&mut app, RobotMessage::ResourceFound { pos: (2, 0), kind: ResourceKind::Crystal });
    Base::handle_message(&mut app, RobotMessage::ResourceFound { pos: (0, 0), kind: ResourceKind::Crystal });
    assert_eq!(app.known_resources, vec![(2, 0, ResourceKind::Energy), (0, 0, ResourceKind::Crystal)]);
}

#[test]
fn obstacle_found_is_recorded_once() {
    let mut app = app_with(map_from(&["..."]), (1, 0));
    Base::handle_message(&mut app, RobotMessage::ObstacleFound { pos: (2, 0) });
    Base::handle_message(&mut app, RobotMessage::ObstacleFound { pos: (2, 0) });
    assert_eq!(app.known_obstacles, vec![(2, 0)]);
    assert!(app.known_resources.is_empty());
}

#[test]
fn collected_units_add_up_by_kind() {
    let mut app = app_with(map_from(&["..."]), (1, 0));
    Base::handle_message(&mut app, RobotMessage::ResourceCollected { pos: (1, 0), amount: 1, kind: ResourceKind::Energy });
    Base::handle_message(&mut app, RobotMessage::ResourceCollected { pos: (1, 0), amount: 3, kind: ResourceKind::Energy });
    Base::handle_message(&mut app, RobotMessage::ResourceCollected { pos: (1, 0), amount: 2, kind: ResourceKind::Crystal });
    assert_eq!(app.collected_energy, 4);
    assert_eq!(app.collected_crystals, 2);
}

#[test]
fn go_collect_changes_nothing() {
    let mut app = app_with(map_from(&["..."]), (1, 0));
    Base::handle_message(&mut app, RobotMessage::GoCollect { pos: (0, 0) });
    assert!(app.known_resources.is_empty());
    assert!(app.known_obstacles.is_empty());
    assert_eq!(app.collected_energy, 0);
    assert_eq!(app.collected_crystals, 0);
}

#[test]
fn take_one_unit_counts_down() {
    assert_eq!(take_one_unit(&MapTile::Energy(3)), Some((MapTile::Energy(2), ResourceKind::Energy)));
    assert_eq!(take_one_unit(&MapTile::Crystal(2)), Some((MapTile::Crystal(1), ResourceKind::Crystal)));
    assert_eq!(take_one_unit(&MapTile::Energy(1)), Some((MapTile::Empty, ResourceKind::Energy)));
    assert_eq!(take_one_unit(&MapTile::Crystal(1)), Some((MapTile::Empty, ResourceKind::Crystal)));
    assert_eq!(take_one_unit(&MapTile::Energy(0)), None);
    assert_eq!(take_one_unit(&MapTile::Empty), None);
    assert_eq!(take_one_unit(&MapTile::Obstacle), None);
    assert_eq!(take_one_unit(&MapTile::Base), None);
}

#[test]
fn resource_remaining_matches_units() {
    assert!(resource_remaining(&MapTile::Energy(1)));
    assert!(resource_remaining(&MapTile::Crystal(7)));
    assert!(!resource_remaining(&MapTile::Crystal(0)));
    assert!(!resource_remaining(&MapTile::Empty));
    assert!(!resource_remaining(&MapTile::Base));
}

#[test]
fn bfs_same_cell_is_empty_route() {
    let app = app_with(map_from(&["...", "...", "..."]), (1, 1));
    assert_eq!(bfs(&app, (1, 1), (1, 1)), Some(vec![]));
}

#[test]
fn bfs_straight_line() {
    let app = app_with(map_from(&["....."]), (0, 0));
    assert_eq!(bfs(&app, (0, 0), (4, 0)), Some(vec![(1, 0), (2, 0), (3, 0), (4, 0)]));
}

#[test]
fn bfs_goes_around_a_wall() {
    let rows = ["....", ".OO.", ".O..", "...."];
    let app = app_with(map_from(&rows), (0, 0));
    let path = bfs(&app, (0, 0), (2, 2)).expect("a route exists");
    assert!(is_route(&app.map, (0, 0), (2, 2), &path));
    assert_eq!(path.len(), 6);
    assert!(path.iter().all(|p| app.map.is_walkable(p.0, p.1)));
}

#[test]
fn bfs_blocked_goal_is_none() {
    let rows = ["..O..", "..O..", "..O.."];
    let app = app_with(map_from(&rows), (0, 0));
    assert_eq!(bfs(&app, (0, 1), (4, 1)), None);
    assert_eq!(bfs(&app, (0, 1), (9, 9)), None);
}

#[test]
fn bfs_may_end_on_an_obstacle_goal() {
    let rows = ["..O"];
    let app = app_with(map_from(&rows), (0, 0));
    assert_eq!(bfs(&app, (0, 0), (2, 0)), Some(vec![(1, 0), (2, 0)]));
}

#[test]
fn bfs_prefers_down_then_up_then_right_then_left() {
    let app = app_with(map_from(&["...", "...", "..."]), (0, 0));
    assert_eq!(bfs(&app, (0, 0), (1, 1)), Some(vec![(0, 1), (1, 1)]));
}

#[test]
fn shift_stays_on_the_grid() {
    assert_eq!(shift((0, 0), (-1, 0), 3, 3), None);
    assert_eq!(shift((0, 0), (0, -1), 3, 3), None);
    assert_eq!(shift((2, 2), (1, 0), 3, 3), None);
    assert_eq!(shift((2, 2), (0, 1), 3, 3), None);
    assert_eq!(shift((1, 1), (1, 0), 3, 3), Some((2, 1)));
    assert_eq!(shift((1, 1), (0, -1), 3, 3), Some((1, 0)));
    assert_eq!(direction(0), (0, 1));
    assert_eq!(direction(3), (-1, 0));
}

#[test]
fn shuffled_directions_is_a_permutation() {
    let mut rng = rand::thread_rng();
    for _ in 0..50 {
        let mut dirs = shuffled_directions(&mut rng);
        assert_eq!(dirs.len(), 4);
        dirs.sort();
        assert_eq!(dirs, vec![(-1, 0), (0, -1), (0, 1), (1, 0)]);
    }
}

#[test]
fn scout_reports_obstacles_and_takes_first_open_move() {
    let rows = [".O.", "CE.", "..."];
    let mut app = app_with(map_from(&rows), (1, 1));
    app.scouts = vec![(1, 1)];
    app.known_obstacles = vec![];
    let mut scout = Scout::new(0, (1, 1));
    // up is an obstacle, left holds crystal
    let dirs = vec![(0, -1), (-1, 0), (1, 0), (0, 1)];
    let msgs = scout.step(&mut app, &dirs);
    assert_eq!(
        msgs,
        vec![
            RobotMessage::ObstacleFound { pos: (1, 0) },
            RobotMessage::ResourceFound { pos: (0, 1), kind: ResourceKind::Crystal },
        ]
    );
    assert_eq!(scout.pos(), (0, 1));
    assert_eq!(app.scouts, vec![(0, 1)]);
}

#[test]
fn scout_skips_known_obstacles_without_reporting() {
    let rows = ["OO.", "O.O", ".O."];
    let mut app = app_with(map_from(&rows), (1, 1));
    app.known_obstacles = vec![(1, 0), (0, 1), (2, 1), (1, 2)];
    let mut scout = Scout::new(3, (1, 1));
    let msgs = scout.step(&mut app, &vec![(0, 1), (0, -1), (1, 0), (-1, 0)]);
    assert!(msgs.is_empty());
    assert_eq!(scout.pos(), (1, 1));
    assert_eq!(scout.get_id(), 3);
}

#[test]
fn scout_at_the_edge_stays_on_the_map() {
    let mut app = app_with(map_from(&["E"]), (0, 0));
    let mut scout = Scout::new(0, (0, 0));
    let msgs = scout.step(&mut app, &vec![(0, 1), (0, -1), (1, 0), (-1, 0)]);
    assert!(msgs.is_empty());
    assert_eq!(scout.pos(), (0, 0));
}

#[test]
fn wanderer_reports_what_it_steps_on() {
    let app = app_with(map_from(&[".E", "O."]), (0, 0));
    let mut walker = robot_sim::robot::Scout::new((0, 0));
    assert_eq!(walker.step(&app, (0, 1)), Some(RobotMessage::ObstacleFound { pos: (0, 1) }));
    assert_eq!(walker.pos(), (0, 0));
    assert_eq!(walker.step(&app, (-1, 0)), None);
    assert_eq!(walker.pos(), (0, 0));
    assert_eq!(
        walker.step(&app, (1, 0)),
        Some(RobotMessage::ResourceFound { pos: (1, 0), kind: ResourceKind::Energy })
    );
    assert_eq!(walker.pos(), (1, 0));
    assert_eq!(walker.step(&app, (1, 0)), None);
    let mut rng = rand::thread_rng();
    let d = robot_sim::robot::random_direction(&mut rng);
    assert!([(0, 1), (0, -1), (1, 0), (-1, 0)].contains(&d));
}

#[test]
fn collector_fetches_and_delivers_one_unit() {
    // base at (0,0), energy with 2 units at (2,0)
    let mut map = map_from(&["#.."]);
    map.tiles[0][2] = MapTile::Energy(2);
    let mut app = app_with(map, (0, 0));
    app.collectors = vec![(0, 0)];
    app.known_resources = vec![(2, 0, ResourceKind::Energy)];
    let mut c = Collector::new(0, (0, 0));
    let mut state = State::Idle;
    assert!(c.can_step(&state, &app));

    let (s, msg) = c.step(state, &mut app);
    state = s;
    assert!(msg.is_none());
    assert_eq!(app.claimed_resources, vec![(2, 0)]);
    assert!(matches!(&state, State::GoingTo { target: (2, 0), kind: ResourceKind::Energy, path } if path == &vec![(1, 0), (2, 0)]));

    let (s, msg) = c.step(state, &mut app);
    state = s;
    assert!(msg.is_none());
    assert_eq!(c.pos(), (1, 0));
    assert_eq!(app.collectors, vec![(1, 0)]);

    let (s, msg) = c.step(state, &mut app);
    state = s;
    assert!(msg.is_none());
    assert_eq!(c.pos(), (2, 0));
    assert_eq!(app.map.tiles[0][2], MapTile::Energy(1));
    assert!(matches!(&state, State::Returning { target: (2, 0), kind: ResourceKind::Energy, path } if path == &vec![(1, 0), (0, 0)]));

    let (s, msg) = c.step(state, &mut app);
    state = s;
    assert!(msg.is_none());
    let (s, msg) = c.step(state, &mut app);
    state = s;
    assert_eq!(msg, Some(RobotMessage::ResourceCollected { pos: (0, 0), amount: 1, kind: ResourceKind::Energy }));
    assert!(matches!(&state, State::GoingTo { target: (2, 0), .. }));
    assert_eq!(app.claimed_resources, vec![(2, 0)]);

    // second and last unit
    for _ in 0..2 {
        let (s, _) = c.step(state, &mut app);
        state = s;
    }
    assert_eq!(app.map.tiles[0][2], MapTile::Empty);
    assert!(app.known_resources.is_empty());
    assert!(matches!(&state, State::Returning { .. }));
    for _ in 0..1 {
        let (s, m) = c.step(state, &mut app);
        state = s;
        assert!(m.is_none());
    }
    let (s, msg) = c.step(state, &mut app);
    state = s;
    assert_eq!(msg, Some(RobotMessage::ResourceCollected { pos: (0, 0), amount: 1, kind: ResourceKind::Energy }));
    assert!(matches!(state, State::Idle));
    assert!(app.claimed_resources.is_empty());
}

#[test]
fn collector_ignores_claimed_and_unreachable_resources() {
    let rows = ["#.O.", "..O.", "..O."];
    let mut map = map_from(&rows);
    map.tiles[0][3] = MapTile::Crystal(4);
    map.tiles[2][0] = MapTile::Energy(4);
    let mut app = app_with(map, (0, 0));
    app.known_resources = vec![(2, 0, ResourceKind::Energy), (3, 0, ResourceKind::Crystal)];
    app.claimed_resources = vec![(2, 0)];
    let mut c = Collector::new(5, (0, 0));
    let (state, msg) = c.step(State::Idle, &mut app);
    assert!(msg.is_none());
    // (3,0) is walled off: stays idle, claims nothing more
    assert!(matches!(state, State::Idle));
    assert_eq!(app.claimed_resources, vec![(2, 0)]);
    assert_eq!(c.get_id(), 5);
}

#[test]
fn collector_gives_up_an_exhausted_target() {
    let mut app = app_with(map_from(&["#."]), (0, 0));
    app.claimed_resources = vec![(1, 0)];
    app.known_resources = vec![(1, 0, ResourceKind::Crystal)];
    let mut c = Collector::new(0, (0, 0));
    let state = State::GoingTo { target: (1, 0), kind: ResourceKind::Crystal, path: vec![(1, 0)] };
    let (state, msg) = c.step(state, &mut app);
    assert!(msg.is_none());
    assert!(matches!(state, State::Idle));
    assert!(app.claimed_resources.is_empty());
    assert!(app.known_resources.is_empty());
    assert_eq!(c.pos(), (1, 0));
}

#[test]
fn collector_waits_when_blocked() {
    let mut app = app_with(map_from(&["#O."]), (0, 0));
    let mut c = Collector::new(0, (0, 0));
    let state = State::GoingTo { target: (2, 0), kind: ResourceKind::Energy, path: vec![(1, 0), (2, 0)] };
    let (state, _) = c.step(state, &mut app);
    assert_eq!(c.pos(), (0, 0));
    assert!(matches!(&state, State::GoingTo { path, .. } if path.len() == 2));
}

#[test]
fn can_step_rejects_a_broken_path() {
    let app = app_with(map_from(&["...", "...", "..."]), (0, 0));
    let c = Collector::new(0, (0, 0));
    let bad = State::GoingTo { target: (2, 2), kind: ResourceKind::Energy, path: vec![(2, 2)] };
    assert!(!c.can_step(&bad, &app));
    let good = State::GoingTo { target: (2, 2), kind: ResourceKind::Energy, path: vec![(1, 0), (2, 0), (2, 1), (2, 2)] };
    assert!(c.can_step(&good, &app));
    let off = Collector::new(0, (7, 0));
    assert!(!off.can_step(&State::Idle, &app));
}

#[test]
fn generated_map_keeps_base_zone_clear() {
    let mut rng = rand::thread_rng();
    let width = 12;
    let height = 10;
    let terrain = vec![vec![Terrain::Rock; width]; height];
    let app = App::new(width, height, &terrain, &mut rng);
    assert_eq!(app.base.pos, (6, 5));
    assert_eq!(app.map.tiles[5][6], MapTile::Base);
    for y in 0..height {
        for x in 0..width {
            let in_zone = (x as i64 - 6).abs() <= 2 && (y as i64 - 5).abs() <= 2;
            let t = app.map.tiles[y][x];
            if x == 6 && y == 5 {
                continue;
            }
            if in_zone {
                assert_ne!(t, MapTile::Obstacle);
            } else {
                assert_eq!(t, MapTile::Obstacle);
            }
        }
    }
    assert!(app.active);
    assert_eq!(app.collected_energy, 0);
    assert!(app.known_resources.is_empty());
}

#[test]
fn generated_map_tops_up_deposits_with_fresh_amounts() {
    let mut rng = rand::thread_rng();
    let width = 30;
    let height = 20;
    let mut terrain = vec![vec![Terrain::Open; width]; height];
    terrain[0][0] = Terrain::EnergySite;
    terrain[19][29] = Terrain::CrystalSite;
    terrain[0][29] = Terrain::Rock;
    let map = WorldMap::new(width, height, &terrain, &mut rng);
    assert!(map.is_well_formed());
    assert!(matches!(map.tiles[0][0], MapTile::Energy(_)));
    assert!(matches!(map.tiles[19][29], MapTile::Crystal(_)));
    assert_eq!(map.tiles[0][29], MapTile::Obstacle);
    let mut energy = 0;
    let mut crystal = 0;
    for row in &map.tiles {
        for t in row {
            match *t {
                MapTile::Energy(n) => {
                    energy += 1;
                    assert!((RESOURCE_MIN..=RESOURCE_MAX).contains(&n));
                }
                MapTile::Crystal(n) => {
                    crystal += 1;
                    assert!((RESOURCE_MIN..=RESOURCE_MAX).contains(&n));
                }
                _ => {}
            }
        }
    }
    // 600 cells / 60 = 10 deposits of each kind wanted; open cells abound
    assert_eq!(energy, 10);
    assert_eq!(crystal, 10);
}

#[test]
fn glyphs_follow_the_legend() {
    let mut app = app_with(map_from(&[".OEC#"]), (4, 0));
    assert_eq!(cell_glyph(&app, 0, 0), ('.', Shade::DarkGray));
    assert_eq!(cell_glyph(&app, 1, 0), ('O', Shade::LightCyan));
    assert_eq!(cell_glyph(&app, 2, 0), ('E', Shade::Green));
    assert_eq!(cell_glyph(&app, 3, 0), ('C', Shade::LightMagenta));
    assert_eq!(cell_glyph(&app, 4, 0), ('#', Shade::LightGreen));
    app.scouts = vec![(2, 0), (3, 0)];
    app.collectors = vec![(3, 0)];
    assert_eq!(cell_glyph(&app, 2, 0), ('x', Shade::Red));
    assert_eq!(cell_glyph(&app, 3, 0), ('o', Shade::Magenta));
}

#[test]
fn known_sites_are_counted_by_kind() {
    let mut app = app_with(map_from(&["..."]), (0, 0));
    app.known_resources = vec![
        (0, 0, ResourceKind::Energy),
        (1, 0, ResourceKind::Crystal),
        (2, 0, ResourceKind::Energy),
    ];
    assert_eq!(known_count(&app, ResourceKind::Energy), 2);
    assert_eq!(known_count(&app, ResourceKind::Crystal), 1);
}

#[test]
fn two_collectors_never_share_a_target() {
    let mut map = map_from(&["#...."]);
    map.tiles[0][4] = MapTile::Energy(3);
    let mut app = app_with(map, (0, 0));
    app.collectors = vec![(0, 0), (0, 0)];
    app.known_resources = vec![(4, 0, ResourceKind::Energy)];
    let mut first = Collector::new(0, (0, 0));
    let mut second = Collector::new(1, (0, 0));
    let (s1, _) = first.step(State::Idle, &mut app);
    let (s2, _) = second.step(State::Idle, &mut app);
    assert!(matches!(s1, State::GoingTo { target: (4, 0), .. }));
    assert!(matches!(s2, State::Idle));
    assert_eq!(app.claimed_resources, vec![(4, 0)]);
}

fn units_on(map: &WorldMap) -> u64 {
    map.tiles
        .iter()
        .flatten()
        .map(|t| match *t {
            MapTile::Energy(n) | MapTile::Crystal(n) => n as u64,
            _ => 0,
        })
        .sum()
}

#[test]
fn units_are_conserved_from_deposit_to_base() {
    let mut map = map_from(&["#..", "...", ".O."]);
    map.tiles[2][2] = MapTile::Crystal(3);
    let mut app = app_with(map, (0, 0));
    app.collectors = vec![(0, 0)];
    app.known_resources = vec![(2, 2, ResourceKind::Crystal)];
    let mut c = Collector::new(0, (0, 0));
    let mut state = State::Idle;
    let total = units_on(&app.map);
    for _ in 0..60 {
        let (next, msg) = c.step(state, &mut app);
        state = next;
        if let Some(m) = msg {
            Base::handle_message(&mut app, m);
        }
        let carried = if matches!(state, State::Returning { .. }) { 1 } else { 0 };
        assert_eq!(units_on(&app.map) + carried + app.collected_crystals as u64, total);
    }
    assert_eq!(app.collected_crystals, 3);
    assert!(matches!(state, State::Idle));
    assert!(app.known_resources.is_empty());
}

#[test]
fn bfs_finds_a_shortest_route_among_several() {
    let rows = [
        ".....",
        ".OOO.",
        ".O...",
        ".O.O.",
        "...O.",
    ];
    let app = app_with(map_from(&rows), (0, 0));
    let path = bfs(&app, (0, 0), (2, 2)).expect("reachable");
    assert!(is_route(&app.map, (0, 0), (2, 2), &path));
    // down to (0,4), right to (2,4), up to (2,2): 8 moves; round the top: 8 moves too
    assert_eq!(path.len(), 8);
    let path = bfs(&app, (0, 0), (4, 4)).expect("reachable");
    assert_eq!(path.len(), 8);
}

#[test]
fn generation_tops_up_no_more_than_wanted() {
    let mut rng = rand::thread_rng();
    let width = 12;
    let height = 10;
    // 120 cells: 2 deposits of each kind wanted; 5 energy sites given
    let mut terrain = vec![vec![Terrain::Open; width]; height];
    for x in 0..5 {
        terrain[0][x] = Terrain::EnergySite;
    }
    let map = WorldMap::new(width, height, &terrain, &mut rng);
    let energy = map.tiles.iter().flatten().filter(|t| matches!(t, MapTile::Energy(_))).count();
    let crystal = map.tiles.iter().flatten().filter(|t| matches!(t, MapTile::Crystal(_))).count();
    assert_eq!(energy, 5);
    assert_eq!(crystal, 2);
}

#[test]
fn random_choices_spread_over_their_range() {
    let mut rng = rand::thread_rng();
    let mut seen = std::collections::HashSet::new();
    for _ in 0..400 {
        seen.insert(robot_sim::robot::random_direction(&mut rng));
    }
    assert_eq!(seen.len(), 4);
    let mut firsts = std::collections::HashSet::new();
    for _ in 0..400 {
        firsts.insert(shuffled_directions(&mut rng)[0]);
    }
    assert_eq!(firsts.len(), 4);
    let terrain = vec![vec![Terrain::EnergySite; 30]; 20];
    let map = WorldMap::new(30, 20, &terrain, &mut rng);
    let sizes: std::collections::HashSet<u32> = map
        .tiles
        .iter()
        .flatten()
        .filter_map(|t| match *t {
            MapTile::Energy(n) => Some(n),
            _ => None,
        })
        .collect();
    assert!(sizes.len() > 1);
    assert!(sizes.iter().all(|n| (RESOURCE_MIN..=RESOURCE_MAX).contains(n)));
}

#[test]
fn top_up_on_an_empty_grid_always_places() {
    let mut rng = rand::thread_rng();
    // 3 x 20 = 60 cells: one deposit of each kind wanted, none from the relief
    let terrain = vec![vec![Terrain::Open; 20]; 3];
    for _ in 0..20 {
        let map = WorldMap::new(20, 3, &terrain, &mut rng);
        let energy = map.tiles.iter().flatten().filter(|t| matches!(t, MapTile::Energy(_))).count();
        let crystal = map.tiles.iter().flatten().filter(|t| matches!(t, MapTile::Crystal(_))).count();
        assert_eq!(energy, 1);
        assert_eq!(crystal, 1);
    }
}

#[test]
fn collector_keeps_its_unit_when_the_base_is_walled_off() {
    // base at (0,0), wall at (1,0), energy at (2,0) reached from (2,0) itself
    let mut map = map_from(&["#O."]);
    map.tiles[0][2] = MapTile::Energy(2);
    let mut app = app_with(map, (0, 0));
    app.known_resources = vec![(2, 0, ResourceKind::Energy)];
    app.claimed_resources = vec![(2, 0)];
    let mut c = Collector::new(0, (2, 0));
    let state = State::GoingTo { target: (2, 0), kind: ResourceKind::Energy, path: vec![] };
    let (state, msg) = c.step(state, &mut app);
    assert!(msg.is_none());
    assert_eq!(app.map.tiles[0][2], MapTile::Energy(1));
    assert!(matches!(&state, State::Returning { path, .. } if path.is_empty()));
    let (state, msg) = c.step(state, &mut app);
    assert!(msg.is_none());
    assert!(matches!(&state, State::Returning { target: (2, 0), kind: ResourceKind::Energy, path } if path.is_empty()));
    assert_eq!(c.pos(), (2, 0));
    // the wall is gone: the next step finds the way home
    app.map.tiles[0][1] = MapTile::Empty;
    let (state, msg) = c.step(state, &mut app);
    assert!(msg.is_none());
    assert!(matches!(&state, State::Returning { path, .. } if path == &vec![(1, 0), (0, 0)]));
}

#[test]
fn place_if_empty_only_fills_empty_tiles() {
    let mut tiles = vec![vec![MapTile::Empty, MapTile::Obstacle]];
    assert!(!place_if_empty(&mut tiles, 1, 0, 60, true));
    assert_eq!(tiles, vec![vec![MapTile::Empty, MapTile::Obstacle]]);
    assert!(place_if_empty(&mut tiles, 0, 0, 60, true));
    assert_eq!(tiles, vec![vec![MapTile::Crystal(60), MapTile::Obstacle]]);
    assert!(!place_if_empty(&mut tiles, 0, 0, 70, false));
    assert_eq!(tiles[0][0], MapTile::Crystal(60));
}

#[test]
fn swap_moves_exchanges_two_entries() {
    let mut dirs = vec![(0, 1), (0, -1), (1, 0), (-1, 0)];
    swap_moves(&mut dirs, 0, 3);
    assert_eq!(dirs, vec![(-1, 0), (0, -1), (1, 0), (0, 1)]);
    swap_moves(&mut dirs, 2, 2);
    assert_eq!(dirs, vec![(-1, 0), (0, -1), (1, 0), (0, 1)]);
}

#[test]
fn off_map_cells_are_not_walkable_even_on_a_ragged_map() {
    let map = WorldMap { tiles: vec![vec![MapTile::Empty]], width: 3, height: 2 };
    assert!(!map.is_walkable(3, 0));
    assert!(!map.is_walkable(0, 2));
    assert!(map.is_walkable(0, 0));
    let app = app_with(map, (0, 0));
    assert_eq!(bfs(&app, (1, 1), (1, 1)), Some(vec![]));
}
