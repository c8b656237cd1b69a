//! The tile-grid world model: a fixed 64x64 dense array of tiles.
//!
//! Exactly one stockpile tile exists and never changes kind; tree tiles may
//! be depleted to ground by chopping but are never created at runtime.

use vstd::prelude::*;
use crate::config::{MAP_H, MAP_W, STOCKPILE_X, STOCKPILE_Y};

verus! {

/// The kind of one grid cell.
#[derive(Clone, Copy, Debug, PartialEq, Eq, Structural)]
pub enum Tile {
    Ground,
    Tree,
    Stockpile,
}

/// The world: a dense row-major array of `MAP_W * MAP_H` tiles.
pub struct WorldMap {
    pub tiles: Vec<Tile>,
}

/// A coordinate lies on the grid.
pub open spec fn in_bounds_spec(x: int, y: int) -> bool {
    0 <= x < MAP_W as int && 0 <= y < MAP_H as int
}

/// Row-major index of a coordinate.
pub open spec fn spec_idx(x: int, y: int) -> int {
    y * (MAP_W as int) + x
}

/// The tile stored at a coordinate in a row-major tile sequence.
pub open spec fn tile_at(tiles: Seq<Tile>, x: int, y: int) -> Tile {
    tiles[spec_idx(x, y)]
}

/// Distinct in-bounds coordinates get distinct row-major indexes.
pub proof fn lemma_spec_idx_injective(x1: int, y1: int, x2: int, y2: int)
    requires
        in_bounds_spec(x1, y1),
        in_bounds_spec(x2, y2),
        spec_idx(x1, y1) == spec_idx(x2, y2),
    ensures
        x1 == x2 && y1 == y2,
{
}

/// A well-formed world holds exactly one tile per grid cell.
pub open spec fn map_wf(m: WorldMap) -> bool {
    m.tiles@.len() == (MAP_W as int) * (MAP_H as int)
}

/// Whether a coordinate lies on the grid.
pub fn in_bounds(x: i32, y: i32) -> (r: bool)
    ensures
        r == in_bounds_spec(x as int, y as int),
{
    0 <= x && x < MAP_W && 0 <= y && y < MAP_H
}

/// Row-major index of an in-bounds coordinate.
fn idx(x: i32, y: i32) -> (i: usize)
    requires
        in_bounds_spec(x as int, y as int),
    ensures
        i == spec_idx(x as int, y as int),
{
    (y * MAP_W + x) as usize
}

/// Read the tile at an in-bounds coordinate.
pub fn get(map: &WorldMap, x: i32, y: i32) -> (t: Tile)
    requires
        map_wf(*map),
        in_bounds_spec(x as int, y as int),
    ensures
        t == tile_at(map.tiles@, x as int, y as int),
{
    let i = idx(x, y);
    map.tiles[i]
}

/// Overwrite the tile at an in-bounds coordinate.
pub fn set(map: &mut WorldMap, x: i32, y: i32, tile: Tile)
    requires
        map_wf(*old(map)),
        in_bounds_spec(x as int, y as int),
    ensures
        map_wf(*final(map)),
        final(map).tiles@ == old(map).tiles@.update(spec_idx(x as int, y as int), tile),
{
    let i = idx(x, y);
    map.tiles.set(i, tile);
}

/// The band of the grid initially covered with trees: a tall strip on the
/// left and two wide strips along the bottom and top rows of the grid.
pub open spec fn tree_region(x: int, y: int) -> bool {
    ||| (0 <= x < 18 && 0 <= y < 48)
    ||| (0 <= x < 58 && 0 <= y < 18)
    ||| (0 <= x < 58 && 46 <= y < MAP_H as int)
}

/// The tile each grid cell holds at simulation start.
pub open spec fn initial_tile(x: int, y: int) -> Tile {
    if x == STOCKPILE_X as int && y == STOCKPILE_Y as int {
        Tile::Stockpile
    } else if tree_region(x, y) {
        Tile::Tree
    } else {
        Tile::Ground
    }
}

/// Build the starting world: tree regions plus the single stockpile tile.
pub fn build_world() -> (m: WorldMap)
    ensures
        map_wf(m),
        forall|x: int, y: int|
            in_bounds_spec(x, y) ==> tile_at(m.tiles@, x, y) == initial_tile(x, y),
        forall|x: int, y: int|
            in_bounds_spec(x, y) ==> (tile_at(m.tiles@, x, y) == Tile::Stockpile <==> (x
                == STOCKPILE_X as int && y == STOCKPILE_Y as int)),
{
    let mut tiles: Vec<Tile> = Vec::new();
    let mut y: i32 = 0;
    while y < MAP_H
        invariant
            0 <= y <= MAP_H,
            tiles@.len() == y * (MAP_W as int),
            forall|xi: int, yi: int|
                0 <= xi < MAP_W as int && 0 <= yi < y ==> tile_at(tiles@, xi, yi)
                    == initial_tile(xi, yi),
        decreases MAP_H - y,
    {
        let mut x: i32 = 0;
        while x < MAP_W
            invariant
                0 <= y < MAP_H,
                0 <= x <= MAP_W,
                tiles@.len() == y * (MAP_W as int) + x,
                forall|xi: int, yi: int|
                    0 <= xi < MAP_W as int && 0 <= yi < y ==> tile_at(tiles@, xi, yi)
                        == initial_tile(xi, yi),
                forall|xi: int| 0 <= xi < x ==> tile_at(tiles@, xi, y as int) == initial_tile(
                    xi,
                    y as int,
                ),
            decreases MAP_W - x,
        {
            let in_left_strip = x < 18 && y < 48;
            let in_bottom_strip = x < 58 && y < 18;
            let in_top_strip = x < 58 && 46 <= y;
            let t = if x == STOCKPILE_X && y == STOCKPILE_Y {
                Tile::Stockpile
            } else if in_left_strip || in_bottom_strip || in_top_strip {
                Tile::Tree
            } else {
                Tile::Ground
            };
            tiles.push(t);
            x = x + 1;
        }
        y = y + 1;
    }
    proof {
        assert forall|xi: int, yi: int| in_bounds_spec(xi, yi) implies (tile_at(tiles@, xi, yi)
            == Tile::Stockpile <==> (xi == STOCKPILE_X as int && yi
            == STOCKPILE_Y as int)) by {
            assert(tile_at(tiles@, xi, yi) == initial_tile(xi, yi));
        }
    }
    WorldMap { tiles }
}

} // verus!
