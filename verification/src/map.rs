use rand::rngs::ThreadRng;
use vstd::prelude::*;

use crate::rng::gen_range_inclusive;

verus! {

/// Fewest units a deposit starts with.
pub const RESOURCE_MIN: u32 = 50;
/// Most units a deposit starts with.
pub const RESOURCE_MAX: u32 = 200;
/// One deposit of each kind is wanted per this many cells of the map.
pub const MIN_RESOURCES_PER_KIND_DIVISOR: usize = 60;
/// Random cells tried when a deposit is added to reach that number.
pub const PLACE_RESOURCE_MAX_ATTEMPTS: u32 = 200;
/// Cells around the base, in each direction, that are cleared.
pub const BASE_SAFE_RADIUS: usize = 2;

/// What the relief of a cell calls for, before the base is laid out.
#[derive(Clone, Copy, Debug, PartialEq, Eq, Structural)]
pub enum Terrain {
    Open,
    Rock,
    EnergySite,
    CrystalSite,
}

/// One cell of the map.
#[derive(Clone, Copy, Debug, PartialEq, Eq, Structural)]
pub enum MapTile {
    Empty,
    Obstacle,
    Energy(u32),
    Crystal(u32),
    Base,
}

/// A rectangular grid of tiles, stored row by row: `tiles[y][x]`.
pub struct WorldMap {
    pub tiles: Vec<Vec<MapTile>>,
    pub width: usize,
    pub height: usize,
}

impl WorldMap {
    /// `tiles` holds `height` rows of `width` tiles each.
    pub open spec fn wf(&self) -> bool {
        &&& self.tiles@.len() == self.height
        &&& forall|y: int| 0 <= y < self.height ==> (#[trigger] self.tiles@[y])@.len() == self.width
    }

    /// The tile at column `x`, row `y`.
    pub open spec fn tile(&self, x: int, y: int) -> MapTile {
        self.tiles@[y]@[x]
    }

    pub open spec fn in_bounds(&self, x: int, y: int) -> bool {
        0 <= x < self.width && 0 <= y < self.height
    }

    /// A robot may stand on every tile of the map but an obstacle.
    pub open spec fn walkable(&self, x: int, y: int) -> bool {
        self.in_bounds(x, y) && self.tile(x, y) != MapTile::Obstacle
    }

    /// The tiles, row by row; `width` and `height` are the dimensions that
    /// `wf` ties them to.
    pub open spec fn grid(&self) -> Seq<Seq<MapTile>> {
        self.tiles@.map_values(|row: Vec<MapTile>| row@)
    }

    /// Puts `t` at column `x`, row `y`.
    pub fn set_tile(&mut self, x: usize, y: usize, t: MapTile)
        requires
            old(self).wf(),
            x < old(self).width,
            y < old(self).height,
        ensures
            final(self).wf(),
            final(self).width == old(self).width,
            final(self).height == old(self).height,
            final(self).grid() == old(self).grid().update(y as int, old(self).grid()[y as int].update(x as int, t)),
            forall|i: int, j: int| old(self).in_bounds(i, j) ==> #[trigger] final(self).tile(i, j) == if i == x && j == y {
                t
            } else {
                old(self).tile(i, j)
            },
    {
        self.tiles[y].set(x, t);
        assert forall|j: int| 0 <= j < self.height implies (#[trigger] self.tiles@[j])@.len() == self.width by {
            if j != y {
                assert(self.tiles@[j] == old(self).tiles@[j]);
            }
        }
        assert(self.grid() =~~= old(self).grid().update(y as int, old(self).grid()[y as int].update(x as int, t)));
    }

    /// Whether every row holds `width` tiles and there are `height` rows.
    pub fn is_well_formed(&self) -> (res: bool)
        ensures
            res == self.wf(),
    {
        if self.tiles.len() != self.height {
            return false;
        }
        let mut y: usize = 0;
        while y < self.tiles.len()
            invariant
                y <= self.tiles@.len(),
                self.tiles@.len() == self.height,
                forall|j: int| 0 <= j < y ==> (#[trigger] self.tiles@[j])@.len() == self.width,
            decreases self.tiles@.len() - y,
        {
            if self.tiles[y].len() != self.width {
                return false;
            }
            y = y + 1;
        }
        true
    }

    pub fn is_walkable(&self, x: usize, y: usize) -> (res: bool)
        requires
            x < self.width && y < self.height ==> y < self.tiles@.len() && x < self.tiles@[y as int]@.len(),
        ensures
            res == self.walkable(x as int, y as int),
    {
        if x >= self.width || y >= self.height {
            return false;
        }
        !matches!(self.tiles[y][x], MapTile::Obstacle)
    }
}


/// `tiles` holds `height` rows of `width` tiles each.
pub open spec fn shaped<T>(tiles: Seq<Vec<T>>, width: usize, height: usize) -> bool {
    &&& tiles.len() == height
    &&& forall|y: int| 0 <= y < height ==> (#[trigger] tiles[y])@.len() == width
}

/// A deposit whose size lies within the bounds a new deposit gets.
pub open spec fn fresh_deposit(t: MapTile) -> bool {
    match t {
        MapTile::Energy(n) => RESOURCE_MIN <= n <= RESOURCE_MAX,
        MapTile::Crystal(n) => RESOURCE_MIN <= n <= RESOURCE_MAX,
        _ => false,
    }
}

/// A tile is either left as it was or, being empty, receives a new deposit.
pub open spec fn kept_or_filled(before: MapTile, after: MapTile) -> bool {
    after == before || (before == MapTile::Empty && fresh_deposit(after))
}

/// Every tile of `after` is kept or filled from the same tile of `before`.
pub open spec fn grid_kept_or_filled(before: Seq<Vec<MapTile>>, after: Seq<Vec<MapTile>>, width: usize, height: usize) -> bool {
    &&& shaped(before, width, height)
    &&& shaped(after, width, height)
    &&& forall|x: int, y: int| 0 <= x < width && 0 <= y < height ==> kept_or_filled(before[y]@[x], #[trigger] after[y]@[x])
}

/// The cell lies within the cleared square around the base at `(bx, by)`.
pub open spec fn in_safe_zone(x: int, y: int, bx: int, by: int) -> bool {
    bx - BASE_SAFE_RADIUS <= x <= bx + BASE_SAFE_RADIUS && by - BASE_SAFE_RADIUS <= y <= by + BASE_SAFE_RADIUS
}

/// The tile a terrain cell calls for, the size of a deposit left open.
pub open spec fn matches_terrain(t: Terrain, tile: MapTile) -> bool {
    match t {
        Terrain::Open => tile == MapTile::Empty,
        Terrain::Rock => tile == MapTile::Obstacle,
        Terrain::EnergySite => tile matches MapTile::Energy(n) && RESOURCE_MIN <= n <= RESOURCE_MAX,
        Terrain::CrystalSite => tile matches MapTile::Crystal(n) && RESOURCE_MIN <= n <= RESOURCE_MAX,
    }
}

/// Number of tiles of `row` that hold a deposit of the given kind (crystal
/// or energy).
pub open spec fn row_deposits(row: Seq<MapTile>, crystal: bool) -> nat
    decreases row.len(),
{
    if row.len() == 0 {
        0
    } else {
        row_deposits(row.drop_last(), crystal) + if is_deposit_of(row.last(), crystal) {
            1nat
        } else {
            0nat
        }
    }
}

pub open spec fn is_deposit_of(t: MapTile, crystal: bool) -> bool {
    if crystal {
        t is Crystal
    } else {
        t is Energy
    }
}

/// Number of tiles of the grid that hold a deposit of the given kind.
pub open spec fn grid_deposits(tiles: Seq<Vec<MapTile>>, crystal: bool) -> nat
    decreases tiles.len(),
{
    if tiles.len() == 0 {
        0
    } else {
        grid_deposits(tiles.drop_last(), crystal) + row_deposits(tiles.last()@, crystal)
    }
}

/// Counts the deposits of one kind on the grid.
fn count_deposits(tiles: &Vec<Vec<MapTile>>, crystal: bool) -> (n: usize)
    requires
        grid_deposits(tiles@, crystal) <= usize::MAX,
    ensures
        n == grid_deposits(tiles@, crystal),
{
    let mut total: usize = 0;
    let mut y: usize = 0;
    while y < tiles.len()
        invariant
            y <= tiles@.len(),
            total == grid_deposits(tiles@.take(y as int), crystal),
            grid_deposits(tiles@, crystal) <= usize::MAX,
        decreases tiles@.len() - y,
    {
        let row = &tiles[y];
        let mut x: usize = 0;
        let mut in_row: usize = 0;
        while x < row.len()
            invariant
                x <= row@.len(),
                in_row == row_deposits(row@.take(x as int), crystal),
                in_row <= x,
            decreases row@.len() - x,
        {
            proof {
                assert(row@.take(x + 1).drop_last() =~= row@.take(x as int));
            }
            let hit = if crystal {
                matches!(row[x], MapTile::Crystal(_))
            } else {
                matches!(row[x], MapTile::Energy(_))
            };
            if hit {
                in_row = in_row + 1;
            }
            x = x + 1;
        }
        proof {
            assert(row@.take(row@.len() as int) =~= row@);
            assert(tiles@.take(y + 1).drop_last() =~= tiles@.take(y as int));
            lemma_grid_deposits_prefix(tiles@, crystal, y + 1);
        }
        total = total + in_row;
        y = y + 1;
    }
    assert(tiles@.take(tiles@.len() as int) =~= tiles@);
    total
}

/// Counting over a prefix of the rows gives no more than over all of them.
proof fn lemma_grid_deposits_prefix(tiles: Seq<Vec<MapTile>>, crystal: bool, k: int)
    requires
        0 <= k <= tiles.len(),
    ensures
        grid_deposits(tiles.take(k), crystal) <= grid_deposits(tiles, crystal),
    decreases tiles.len(),
{
    if k < tiles.len() {
        assert(tiles.drop_last().take(k) =~= tiles.take(k));
        lemma_grid_deposits_prefix(tiles.drop_last(), crystal, k);
    } else {
        assert(tiles.take(k) =~= tiles);
    }
}

proof fn lemma_row_deposits_bound(row: Seq<MapTile>, crystal: bool)
    ensures
        row_deposits(row, crystal) <= row.len(),
    decreases row.len(),
{
    if row.len() > 0 {
        lemma_row_deposits_bound(row.drop_last(), crystal);
    }
}

/// A grid of `height` rows of `width` tiles holds at most `height * width` deposits.
proof fn lemma_grid_deposits_bound(tiles: Seq<Vec<MapTile>>, crystal: bool, width: usize)
    requires
        forall|y: int| 0 <= y < tiles.len() ==> (#[trigger] tiles[y])@.len() == width,
    ensures
        grid_deposits(tiles, crystal) <= tiles.len() * width,
    decreases tiles.len(),
{
    if tiles.len() > 0 {
        let n = tiles.len() as int;
        lemma_grid_deposits_bound(tiles.drop_last(), crystal, width);
        lemma_row_deposits_bound(tiles.last()@, crystal);
        assert((n - 1) * width + width == n * width) by (nonlinear_arith);
    }
}

/// The deposits of one kind that generation leaves: at least the sites of
/// the relief outside the cleared square, and at most as many as wanted
/// (one per `MIN_RESOURCES_PER_KIND_DIVISOR` cells) unless the sites alone
/// are more.
pub open spec fn deposits_topped_up(terrain: Seq<Vec<Terrain>>, width: usize, height: usize, tiles: Seq<Vec<MapTile>>, crystal: bool) -> bool {
    let sites = terrain_sites(terrain, (width / 2) as int, (height / 2) as int, crystal);
    let wanted = (width * height) / MIN_RESOURCES_PER_KIND_DIVISOR as int;
    &&& sites <= grid_deposits(tiles, crystal)
    &&& grid_deposits(tiles, crystal) <= if sites < wanted { wanted } else { sites as int }
}

/// The tile that generation puts at `(x, y)`: the base at the centre, no
/// obstacle in the cleared square around it, elsewhere what the terrain
/// calls for; empty cells may have received a fresh deposit.
pub open spec fn generated(terrain: Terrain, x: int, y: int, bx: int, by: int, tile: MapTile) -> bool {
    if x == bx && y == by {
        tile == MapTile::Base
    } else if in_safe_zone(x, y, bx, by) {
        tile == MapTile::Empty || fresh_deposit(tile)
    } else if terrain == Terrain::Open {
        tile == MapTile::Empty || fresh_deposit(tile)
    } else {
        matches_terrain(terrain, tile)
    }
}

proof fn lemma_row_deposits_update(row: Seq<MapTile>, x: int, t: MapTile, crystal: bool)
    requires
        0 <= x < row.len(),
    ensures
        row_deposits(row.update(x, t), crystal) + (if is_deposit_of(row[x], crystal) { 1int } else { 0int })
            == row_deposits(row, crystal) + (if is_deposit_of(t, crystal) { 1int } else { 0int }),
    decreases row.len(),
{
    if x == row.len() - 1 {
        assert(row.update(x, t).drop_last() =~= row.drop_last());
    } else {
        lemma_row_deposits_update(row.drop_last(), x, t, crystal);
        assert(row.update(x, t).drop_last() =~= row.drop_last().update(x, t));
    }
}

proof fn lemma_grid_deposits_same(g1: Seq<Vec<MapTile>>, g2: Seq<Vec<MapTile>>, crystal: bool)
    requires
        g1.len() == g2.len(),
        forall|j: int| 0 <= j < g1.len() ==> (#[trigger] g1[j])@ == g2[j]@,
    ensures
        grid_deposits(g1, crystal) == grid_deposits(g2, crystal),
    decreases g1.len(),
{
    if g1.len() > 0 {
        lemma_grid_deposits_same(g1.drop_last(), g2.drop_last(), crystal);
    }
}

/// Changing one tile of a grid changes its deposit count by what the old and
/// the new tile hold.
proof fn lemma_grid_deposits_update(g1: Seq<Vec<MapTile>>, g2: Seq<Vec<MapTile>>, x: int, y: int, t: MapTile, crystal: bool)
    requires
        g1.len() == g2.len(),
        0 <= y < g1.len(),
        0 <= x < g1[y]@.len(),
        g2[y]@ == g1[y]@.update(x, t),
        forall|j: int| 0 <= j < g1.len() && j != y ==> (#[trigger] g1[j])@ == g2[j]@,
    ensures
        grid_deposits(g2, crystal) + (if is_deposit_of(g1[y]@[x], crystal) { 1int } else { 0int })
            == grid_deposits(g1, crystal) + (if is_deposit_of(t, crystal) { 1int } else { 0int }),
    decreases g1.len(),
{
    if y == g1.len() - 1 {
        lemma_grid_deposits_same(g1.drop_last(), g2.drop_last(), crystal);
        lemma_row_deposits_update(g1[y]@, x, t, crystal);
    } else {
        lemma_grid_deposits_update(g1.drop_last(), g2.drop_last(), x, y, t, crystal);
    }
}

pub open spec fn is_site_of(t: Terrain, crystal: bool) -> bool {
    if crystal {
        t == Terrain::CrystalSite
    } else {
        t == Terrain::EnergySite
    }
}

/// Deposit sites of one kind in row `y` of the relief, outside the cleared
/// square around the base at `(bx, by)`.
pub open spec fn row_sites(row: Seq<Terrain>, y: int, bx: int, by: int, crystal: bool) -> nat
    decreases row.len(),
{
    if row.len() == 0 {
        0
    } else {
        row_sites(row.drop_last(), y, bx, by, crystal) + if is_site_of(row.last(), crystal)
            && !in_safe_zone(row.len() - 1, y, bx, by) {
            1nat
        } else {
            0nat
        }
    }
}

/// Deposit sites of one kind in the relief, outside the cleared square.
pub open spec fn terrain_sites(terrain: Seq<Vec<Terrain>>, bx: int, by: int, crystal: bool) -> nat
    decreases terrain.len(),
{
    if terrain.len() == 0 {
        0
    } else {
        terrain_sites(terrain.drop_last(), bx, by, crystal) + row_sites(terrain.last()@, terrain.len() - 1, bx, by, crystal)
    }
}

proof fn lemma_row_sites_count(tr: Seq<Terrain>, r: Seq<MapTile>, y: int, bx: int, by: int, crystal: bool)
    requires
        tr.len() == r.len(),
        forall|x: int| 0 <= x < r.len() ==> (is_deposit_of(#[trigger] r[x], crystal) <==> (is_site_of(tr[x], crystal) && !in_safe_zone(x, y, bx, by))),
    ensures
        row_deposits(r, crystal) == row_sites(tr, y, bx, by, crystal),
    decreases r.len(),
{
    if r.len() > 0 {
        let n = r.len() - 1;
        assert(is_deposit_of(r[n], crystal) <==> (is_site_of(tr[n], crystal) && !in_safe_zone(n, y, bx, by)));
        lemma_row_sites_count(tr.drop_last(), r.drop_last(), y, bx, by, crystal);
    }
}

/// The deposits of a grid are the sites of the relief when they match cell
/// by cell.
proof fn lemma_sites_count(terrain: Seq<Vec<Terrain>>, g: Seq<Vec<MapTile>>, width: usize, bx: int, by: int, crystal: bool)
    requires
        terrain.len() == g.len(),
        forall|y: int| 0 <= y < g.len() ==> (#[trigger] g[y])@.len() == width && terrain[y]@.len() == width,
        forall|x: int, y: int| 0 <= x < width && 0 <= y < g.len() ==> (is_deposit_of(#[trigger] g[y]@[x], crystal)
            <==> (is_site_of(terrain[y]@[x], crystal) && !in_safe_zone(x, y, bx, by))),
    ensures
        grid_deposits(g, crystal) == terrain_sites(terrain, bx, by, crystal),
    decreases g.len(),
{
    if g.len() > 0 {
        let n = g.len() - 1;
        assert forall|x: int| 0 <= x < g[n]@.len() implies (is_deposit_of(#[trigger] g[n]@[x], crystal)
            <==> (is_site_of(terrain[n]@[x], crystal) && !in_safe_zone(x, n, bx, by))) by {}
        lemma_row_sites_count(terrain[n]@, g[n]@, n, bx, by, crystal);
        lemma_sites_count(terrain.drop_last(), g.drop_last(), width, bx, by, crystal);
    }
}

/// Every tile of the grid is empty.
pub open spec fn all_empty(tiles: Seq<Vec<MapTile>>, width: usize, height: usize) -> bool {
    forall|x: int, y: int| 0 <= x < width && 0 <= y < height ==> #[trigger] tiles[y]@[x] == MapTile::Empty
}

/// `after` is `before` with the empty tile at column `x`, row `y` of the
/// `width` by `height` area given a deposit of `amount` units of the kind
/// (crystal or energy), a size a new deposit can have.
pub open spec fn placed_one_at(
    before: Seq<Vec<MapTile>>,
    after: Seq<Vec<MapTile>>,
    width: usize,
    height: usize,
    crystal: bool,
    x: int,
    y: int,
    amount: u32,
) -> bool {
    &&& 0 <= x < width
    &&& 0 <= y < height
    &&& before[y]@[x] == MapTile::Empty
    &&& RESOURCE_MIN <= amount <= RESOURCE_MAX
    &&& one_set(before, after, x, y, deposit(amount, crystal))
}

/// `after` is `before` with one empty tile of the area given a fresh deposit
/// of the kind, every other tile kept.
pub open spec fn placed_one(
    before: Seq<Vec<MapTile>>,
    after: Seq<Vec<MapTile>>,
    width: usize,
    height: usize,
    crystal: bool,
) -> bool {
    exists|x: int, y: int, amount: u32| #[trigger] placed_one_at(before, after, width, height, crystal, x, y, amount)
}

/// A fresh deposit size.
fn random_amount(rng: &mut ThreadRng) -> (n: u32)
    ensures
        RESOURCE_MIN <= n <= RESOURCE_MAX,
{
    let n = gen_range_inclusive(rng, RESOURCE_MIN as usize, RESOURCE_MAX as usize);
    n as u32
}

impl WorldMap {
    /// Lays out a map from the relief: deposits get random sizes, the square
    /// around the central base is cleared, and random deposits are added
    /// until each kind has about one per `MIN_RESOURCES_PER_KIND_DIVISOR`
    /// cells.
    pub fn new(width: usize, height: usize, terrain: &Vec<Vec<Terrain>>, rng: &mut ThreadRng) -> (map: WorldMap)
        requires
            width > 0,
            height > 0,
            width * height <= usize::MAX,
            shaped(terrain@, width, height),
        ensures
            map.wf(),
            map.width == width,
            map.height == height,
            forall|x: int, y: int| 0 <= x < width && 0 <= y < height ==> generated(
                terrain@[y]@[x], x, y, (width / 2) as int, (height / 2) as int, #[trigger] map.tile(x, y)),
            deposits_topped_up(terrain@, width, height, map.tiles@, false),
            deposits_topped_up(terrain@, width, height, map.tiles@, true),
    {
        let mut tiles: Vec<Vec<MapTile>> = Vec::new();
        let mut y: usize = 0;
        while y < height
            invariant
                y <= height,
                shaped(terrain@, width, height),
                tiles@.len() == y,
                forall|j: int| 0 <= j < y ==> (#[trigger] tiles@[j])@.len() == width,
                forall|i: int, j: int| 0 <= i < width && 0 <= j < y ==> matches_terrain(terrain@[j]@[i], #[trigger] tiles@[j]@[i]),
            decreases height - y,
        {
            let mut row: Vec<MapTile> = Vec::new();
            let mut x: usize = 0;
            while x < width
                invariant
                    x <= width,
                    y < height,
                    shaped(terrain@, width, height),
                    row@.len() == x,
                    forall|i: int| 0 <= i < x ==> matches_terrain(terrain@[y as int]@[i], #[trigger] row@[i]),
                decreases width - x,
            {
                let tile = match terrain[y][x] {
                    Terrain::Open => MapTile::Empty,
                    Terrain::Rock => MapTile::Obstacle,
                    Terrain::EnergySite => MapTile::Energy(random_amount(rng)),
                    Terrain::CrystalSite => MapTile::Crystal(random_amount(rng)),
                };
                row.push(tile);
                x = x + 1;
            }
            tiles.push(row);
            y = y + 1;
        }
        let base_x = width / 2;
        let base_y = height / 2;
        let y_lo = if base_y >= BASE_SAFE_RADIUS { base_y - BASE_SAFE_RADIUS } else { 0 };
        let y_hi = if base_y + BASE_SAFE_RADIUS < height { base_y + BASE_SAFE_RADIUS } else { height - 1 };
        let x_lo = if base_x >= BASE_SAFE_RADIUS { base_x - BASE_SAFE_RADIUS } else { 0 };
        let x_hi = if base_x + BASE_SAFE_RADIUS < width { base_x + BASE_SAFE_RADIUS } else { width - 1 };
        let ghost laid = tiles@;
        let mut cy = y_lo;
        while cy <= y_hi
            invariant
                y_lo <= cy <= y_hi + 1,
                y_hi < height,
                x_lo <= x_hi < width,
                shaped(tiles@, width, height),
                shaped(laid, width, height),
                forall|i: int, j: int| 0 <= i < width && 0 <= j < height ==> #[trigger] tiles@[j]@[i] == if y_lo <= j < cy && x_lo <= i <= x_hi {
                    MapTile::Empty
                } else {
                    laid[j]@[i]
                },
            decreases y_hi + 1 - cy,
        {
            let mut cx = x_lo;
            while cx <= x_hi
                invariant
                    y_lo <= cy <= y_hi,
                    y_hi < height,
                    x_lo <= cx <= x_hi + 1,
                    x_hi < width,
                    shaped(tiles@, width, height),
                    shaped(laid, width, height),
                    forall|i: int, j: int| 0 <= i < width && 0 <= j < height ==> #[trigger] tiles@[j]@[i] == if (y_lo <= j < cy && x_lo <= i <= x_hi) || (j == cy && x_lo <= i < cx) {
                        MapTile::Empty
                    } else {
                        laid[j]@[i]
                    },
                decreases x_hi + 1 - cx,
            {
                let ghost before = tiles@;
                tiles[cy].set(cx, MapTile::Empty);
                assert forall|j: int| 0 <= j < height implies (#[trigger] tiles@[j])@.len() == width by {
                    if j != cy {
                        assert(tiles@[j] == before[j]);
                    }
                }
                assert forall|i: int, j: int| 0 <= i < width && 0 <= j < height implies #[trigger] tiles@[j]@[i] == if (y_lo <= j < cy && x_lo <= i <= x_hi) || (j == cy && x_lo <= i < cx + 1) {
                        MapTile::Empty
                    } else {
                        laid[j]@[i]
                    } by {
                    if j != cy {
                        assert(tiles@[j] == before[j]);
                    }
                }
                cx = cx + 1;
            }
            cy = cy + 1;
        }
        let ghost cleared = tiles@;
        tiles[base_y].set(base_x, MapTile::Base);
        assert forall|j: int| 0 <= j < height implies (#[trigger] tiles@[j])@.len() == width by {
            if j != base_y {
                assert(tiles@[j] == cleared[j]);
            }
        }
        let ghost start = tiles@;
        assert forall|i: int, j: int| 0 <= i < width && 0 <= j < height implies generated(
            terrain@[j]@[i], i, j, base_x as int, base_y as int, #[trigger] start[j]@[i]) by {
            if j != base_y {
                assert(start[j] == cleared[j]);
            }
            assert(matches_terrain(terrain@[j]@[i], laid[j]@[i]));
        }

        proof {
            assert forall|x: int, y: int| 0 <= x < width && 0 <= y < height implies (is_deposit_of(#[trigger] start[y]@[x], false)
                <==> (is_site_of(terrain@[y]@[x], false) && !in_safe_zone(x, y, base_x as int, base_y as int))) by {
                if y != base_y {
                    assert(start[y] == cleared[y]);
                }
                assert(matches_terrain(terrain@[y]@[x], laid[y]@[x]));
            }
            assert forall|x: int, y: int| 0 <= x < width && 0 <= y < height implies (is_deposit_of(#[trigger] start[y]@[x], true)
                <==> (is_site_of(terrain@[y]@[x], true) && !in_safe_zone(x, y, base_x as int, base_y as int))) by {
                if y != base_y {
                    assert(start[y] == cleared[y]);
                }
                assert(matches_terrain(terrain@[y]@[x], laid[y]@[x]));
            }
            lemma_sites_count(terrain@, start, width, base_x as int, base_y as int, false);
            lemma_sites_count(terrain@, start, width, base_x as int, base_y as int, true);
            lemma_grid_deposits_bound(tiles@, false, width);
            lemma_grid_deposits_bound(tiles@, true, width);
            assert(height * width == width * height) by (nonlinear_arith);
        }
        let energy_count = count_deposits(&tiles, false);
        let crystal_count = count_deposits(&tiles, true);
        let target_per_kind = (width * height) / MIN_RESOURCES_PER_KIND_DIVISOR;

        let mut i = energy_count;
        while i < target_per_kind
            invariant
                width > 0,
                height > 0,
                grid_kept_or_filled(start, tiles@, width, height),
                energy_count <= i,
                i <= target_per_kind || i == energy_count,
                grid_deposits(start, false) == energy_count,
                grid_deposits(start, true) == crystal_count,
                energy_count <= grid_deposits(tiles@, false) <= i,
                grid_deposits(tiles@, true) == crystal_count,
            decreases target_per_kind - i,
        {
            let ghost before = tiles@;
            Self::place_resource_randomly(&mut tiles, width, height, rng, false);
            proof {
                lemma_placed_kept(before, tiles@, width, height, false);
            }
            i = i + 1;
        }
        let ghost energy_final = grid_deposits(tiles@, false);
        assert(energy_count <= energy_final <= if energy_count < target_per_kind { target_per_kind } else { energy_count });
        let mut i = crystal_count;
        while i < target_per_kind
            invariant
                width > 0,
                height > 0,
                grid_kept_or_filled(start, tiles@, width, height),
                crystal_count <= i,
                i <= target_per_kind || i == crystal_count,
                grid_deposits(start, true) == crystal_count,
                crystal_count <= grid_deposits(tiles@, true) <= i,
                grid_deposits(tiles@, false) == energy_final,
            decreases target_per_kind - i,
        {
            let ghost before = tiles@;
            Self::place_resource_randomly(&mut tiles, width, height, rng, true);
            proof {
                lemma_placed_kept(before, tiles@, width, height, true);
            }
            i = i + 1;
        }
        let map = WorldMap { tiles, width, height };
        assert forall|x: int, y: int| 0 <= x < width && 0 <= y < height implies generated(
            terrain@[y]@[x], x, y, (width / 2) as int, (height / 2) as int, #[trigger] map.tile(x, y)) by {
            assert(kept_or_filled(start[y]@[x], map.tiles@[y]@[x]));
            assert(generated(terrain@[y]@[x], x, y, base_x as int, base_y as int, start[y]@[x]));
        }
        map
    }

    /// Tries up to `PLACE_RESOURCE_MAX_ATTEMPTS` random cells of the
    /// `width` by `height` area and puts a fresh deposit of the given kind on
    /// the first empty one.
    fn place_resource_randomly(
        tiles: &mut Vec<Vec<MapTile>>,
        width: usize,
        height: usize,
        rng: &mut ThreadRng,
        is_crystal: bool,
    )
        requires
            covers(old(tiles)@, width, height),
            width > 0,
            height > 0,
        ensures
            final(tiles)@ == old(tiles)@ || placed_one(old(tiles)@, final(tiles)@, width, height, is_crystal),
            all_empty(old(tiles)@, width, height) ==> placed_one(old(tiles)@, final(tiles)@, width, height, is_crystal),
            grid_deposits(old(tiles)@, is_crystal) <= grid_deposits(final(tiles)@, is_crystal) <= grid_deposits(old(tiles)@, is_crystal) + 1,
            grid_deposits(final(tiles)@, !is_crystal) == grid_deposits(old(tiles)@, !is_crystal),
    {
        let mut attempt: u32 = 0;
        while attempt < PLACE_RESOURCE_MAX_ATTEMPTS
            invariant
                tiles@ == old(tiles)@,
                all_empty(old(tiles)@, width, height) ==> attempt == 0,
                covers(tiles@, width, height),
                width > 0,
                height > 0,
            decreases PLACE_RESOURCE_MAX_ATTEMPTS - attempt,
        {
            let x = gen_range_inclusive(rng, 0, width - 1);
            let y = gen_range_inclusive(rng, 0, height - 1);
            let amount = random_amount(rng);
            if place_if_empty(tiles, x, y, amount, is_crystal) {
                proof {
                    let t = deposit(amount, is_crystal);
                    lemma_grid_deposits_update(old(tiles)@, tiles@, x as int, y as int, t, is_crystal);
                    lemma_grid_deposits_update(old(tiles)@, tiles@, x as int, y as int, t, !is_crystal);
                    assert(placed_one_at(old(tiles)@, tiles@, width, height, is_crystal, x as int, y as int, amount));
                }
                return;
            }
            attempt = attempt + 1;
        }
    }
}

/// A deposit of `amount` units of the given kind.
pub open spec fn deposit(amount: u32, crystal: bool) -> MapTile {
    if crystal {
        MapTile::Crystal(amount)
    } else {
        MapTile::Energy(amount)
    }
}

/// `after` is `before` with the tile at column `x`, row `y` set to `t`.
pub open spec fn one_set(before: Seq<Vec<MapTile>>, after: Seq<Vec<MapTile>>, x: int, y: int, t: MapTile) -> bool {
    &&& after.len() == before.len()
    &&& 0 <= y < before.len()
    &&& after[y]@ == before[y]@.update(x, t)
    &&& forall|j: int| 0 <= j < before.len() && j != y ==> (#[trigger] after[j])@ == before[j]@
}

/// `tiles` holds at least `height` rows of at least `width` tiles each.
pub open spec fn covers(tiles: Seq<Vec<MapTile>>, width: usize, height: usize) -> bool {
    &&& tiles.len() >= height
    &&& forall|y: int| 0 <= y < height ==> (#[trigger] tiles[y])@.len() >= width
}

/// Puts a deposit of `amount` units of the given kind at column `x`, row
/// `y` when that tile is empty; tells whether it did.
pub fn place_if_empty(tiles: &mut Vec<Vec<MapTile>>, x: usize, y: usize, amount: u32, is_crystal: bool) -> (placed: bool)
    requires
        y < old(tiles)@.len(),
        x < old(tiles)@[y as int]@.len(),
    ensures
        placed == (old(tiles)@[y as int]@[x as int] == MapTile::Empty),
        placed ==> one_set(old(tiles)@, final(tiles)@, x as int, y as int, deposit(amount, is_crystal)),
        !placed ==> final(tiles)@ == old(tiles)@,
{
    if matches!(tiles[y][x], MapTile::Empty) {
        let t = if is_crystal {
            MapTile::Crystal(amount)
        } else {
            MapTile::Energy(amount)
        };
        tiles[y].set(x, t);
        true
    } else {
        false
    }
}

/// Shape and tiles of `after` follow from `before` as a placement allows.
proof fn lemma_placed_kept(before: Seq<Vec<MapTile>>, after: Seq<Vec<MapTile>>, width: usize, height: usize, crystal: bool)
    requires
        shaped(before, width, height),
        after == before || placed_one(before, after, width, height, crystal),
    ensures
        grid_kept_or_filled(before, after, width, height),
{
    if after != before {
        let (x, y, amount) = choose|x: int, y: int, amount: u32| placed_one_at(before, after, width, height, crystal, x, y, amount);
        assert forall|j: int| 0 <= j < height implies (#[trigger] after[j])@.len() == width by {
            if j != y {
                assert(after[j]@ == before[j]@);
            }
        }
        assert forall|i: int, j: int| 0 <= i < width && 0 <= j < height implies kept_or_filled(before[j]@[i], #[trigger] after[j]@[i]) by {
            if j != y {
                assert(after[j]@ == before[j]@);
            }
        }
    }
}

} // verus!
