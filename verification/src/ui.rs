//! What the terminal shows of the world, computed apart from the drawing.

use vstd::prelude::*;

use crate::app::App;
use crate::base::contains_pos;
use crate::map::MapTile;
use crate::messages::ResourceKind;

verus! {

/// The colours of the display.
#[derive(Clone, Copy, Debug, PartialEq, Eq, Structural)]
pub enum Shade {
    DarkGray,
    LightCyan,
    Green,
    LightMagenta,
    LightGreen,
    Red,
    Magenta,
}

/// Symbol and colour of a tile with no robot on it.
pub open spec fn tile_glyph(tile: MapTile) -> (char, Shade) {
    match tile {
        MapTile::Empty => ('.', Shade::DarkGray),
        MapTile::Obstacle => ('O', Shade::LightCyan),
        MapTile::Energy(_) => ('E', Shade::Green),
        MapTile::Crystal(_) => ('C', Shade::LightMagenta),
        MapTile::Base => ('#', Shade::LightGreen),
    }
}

/// Symbol and colour of a cell: a collector hides a scout, which hides the
/// tile.
pub open spec fn glyph_at(app: &App, x: usize, y: usize) -> (char, Shade) {
    if app.collectors@.contains((x, y)) {
        ('o', Shade::Magenta)
    } else if app.scouts@.contains((x, y)) {
        ('x', Shade::Red)
    } else {
        tile_glyph(app.map.tile(x as int, y as int))
    }
}

/// What a cell shows: every collector, wherever it stands in the list, is
/// drawn as a magenta `o`; every scout not sharing its cell with a
/// collector as a red `x`; a cell without robots shows its tile: `.` empty
/// in dark gray, `O` obstacle in light cyan, `E` energy in green, `C`
/// crystal in light magenta, `#` base in light green.
pub proof fn lemma_glyph_shows_robots_then_tiles(app: &App, x: usize, y: usize)
    ensures
        forall|i: int| 0 <= i < app.collectors@.len() && #[trigger] app.collectors@[i] == (x, y)
            ==> glyph_at(app, x, y) == ('o', Shade::Magenta),
        forall|i: int| 0 <= i < app.scouts@.len() && #[trigger] app.scouts@[i] == (x, y)
            && (forall|j: int| 0 <= j < app.collectors@.len() ==> app.collectors@[j] != (x, y))
            ==> glyph_at(app, x, y) == ('x', Shade::Red),
        (forall|j: int| 0 <= j < app.collectors@.len() ==> app.collectors@[j] != (x, y))
            && (forall|j: int| 0 <= j < app.scouts@.len() ==> app.scouts@[j] != (x, y)) ==> {
            let t = app.map.tile(x as int, y as int);
            &&& t == MapTile::Empty ==> glyph_at(app, x, y) == ('.', Shade::DarkGray)
            &&& t == MapTile::Obstacle ==> glyph_at(app, x, y) == ('O', Shade::LightCyan)
            &&& t is Energy ==> glyph_at(app, x, y) == ('E', Shade::Green)
            &&& t is Crystal ==> glyph_at(app, x, y) == ('C', Shade::LightMagenta)
            &&& t == MapTile::Base ==> glyph_at(app, x, y) == ('#', Shade::LightGreen)
        },
{
    assert forall|i: int| 0 <= i < app.collectors@.len() && #[trigger] app.collectors@[i] == (x, y)
        implies glyph_at(app, x, y) == ('o', Shade::Magenta) by {
        assert(app.collectors@.contains((x, y)));
    }
    assert forall|i: int| 0 <= i < app.scouts@.len() && #[trigger] app.scouts@[i] == (x, y)
        && (forall|j: int| 0 <= j < app.collectors@.len() ==> app.collectors@[j] != (x, y))
        implies glyph_at(app, x, y) == ('x', Shade::Red) by {
        assert(app.scouts@.contains((x, y)));
    }
}

/// Symbol and colour to draw at column `x`, row `y`.
pub fn cell_glyph(app: &App, x: usize, y: usize) -> (g: (char, Shade))
    requires
        app.map.wf(),
        x < app.map.width,
        y < app.map.height,
    ensures
        g == glyph_at(app, x, y),
{
    if contains_pos(&app.collectors, (x, y)) {
        ('o', Shade::Magenta)
    } else if contains_pos(&app.scouts, (x, y)) {
        ('x', Shade::Red)
    } else {
        match app.map.tiles[y][x] {
            MapTile::Empty => ('.', Shade::DarkGray),
            MapTile::Obstacle => ('O', Shade::LightCyan),
            MapTile::Energy(_) => ('E', Shade::Green),
            MapTile::Crystal(_) => ('C', Shade::LightMagenta),
            MapTile::Base => ('#', Shade::LightGreen),
        }
    }
}

/// The known resource is of `kind`.
pub open spec fn of_kind(kind: ResourceKind) -> spec_fn((usize, usize, ResourceKind)) -> bool {
    |r: (usize, usize, ResourceKind)| r.2 == kind
}

/// How many known resource sites are of `kind`.
pub fn known_count(app: &App, kind: ResourceKind) -> (n: usize)
    ensures
        n == app.known_resources@.filter(of_kind(kind)).len(),
{
    let ghost all = app.known_resources@;
    let mut n: usize = 0;
    let mut i: usize = 0;
    while i < app.known_resources.len()
        invariant
            all == app.known_resources@,
            i <= all.len(),
            n == all.take(i as int).filter(of_kind(kind)).len(),
            n <= i,
        decreases all.len() - i,
    {
        let r = app.known_resources[i];
        proof {
            assert(all.take(i + 1) =~= all.take(i as int).push(r));
            all.take(i as int).lemma_filter_push(r, of_kind(kind));
        }
        if r.2 == kind {
            n = n + 1;
        }
        i = i + 1;
    }
    assert(all.take(all.len() as int) =~= all);
    n
}

} // verus!
