//! The per-pawn task state machine: movement, tree search and the five
//! task handlers that each produce the pawn's next task for one tick.

use vstd::prelude::*;
use crate::colony::Colony;
use crate::config::{CHOP_TICKS, MAP_H, MAP_W, STOCKPILE_X, STOCKPILE_Y};
use crate::pawn::{Coord, Inventory, Pawn, Task};
use crate::reservations::{holder, release_spec, spec_key, Reservations};
use crate::world::{in_bounds_spec, map_wf, spec_idx, tile_at, Tile, WorldMap};

verus! {

/// Distance between two points on one axis.
pub open spec fn dist1(a: int, b: int) -> int {
    if a <= b {
        b - a
    } else {
        a - b
    }
}

/// Manhattan distance `|dx| + |dy|` between two coordinates.
pub open spec fn manhattan(x1: int, y1: int, x2: int, y2: int) -> int {
    dist1(x1, x2) + dist1(y1, y2)
}

/// One greedy step toward a target: the x axis is aligned first, then the y
/// axis; a pawn already at the target stays put.  Movement is never diagonal.
pub open spec fn step_spec(x: int, y: int, tx: int, ty: int) -> (int, int) {
    if x < tx {
        (x + 1, y)
    } else if x > tx {
        (x - 1, y)
    } else if y < ty {
        (x, y + 1)
    } else if y > ty {
        (x, y - 1)
    } else {
        (x, y)
    }
}

/// Move the pawn one greedy step toward `target`.  Each step shortens the
/// Manhattan distance to the target by exactly one until it reaches zero.
pub fn step_towards(pawn: &mut Pawn, target: Coord)
    requires
        in_bounds_spec(old(pawn).x as int, old(pawn).y as int),
        in_bounds_spec(target.x as int, target.y as int),
    ensures
        final(pawn).id == old(pawn).id,
        (final(pawn).x as int, final(pawn).y as int) == step_spec(
            old(pawn).x as int,
            old(pawn).y as int,
            target.x as int,
            target.y as int,
        ),
        in_bounds_spec(final(pawn).x as int, final(pawn).y as int),
        manhattan(final(pawn).x as int, final(pawn).y as int, target.x as int, target.y as int)
            == if old(pawn).x == target.x && old(pawn).y == target.y {
            0int
        } else {
            manhattan(old(pawn).x as int, old(pawn).y as int, target.x as int, target.y as int) - 1
        },
{
    if pawn.x < target.x {
        pawn.x = pawn.x + 1;
    } else if pawn.x > target.x {
        pawn.x = pawn.x - 1;
    } else if pawn.y < target.y {
        pawn.y = pawn.y + 1;
    } else if pawn.y > target.y {
        pawn.y = pawn.y - 1;
    }
}

/// A cell a searching pawn may claim: an in-bounds tree tile that no pawn
/// has reserved.
pub open spec fn candidate(tiles: Seq<Tile>, m: Map<u64, u32>, x: int, y: int) -> bool {
    in_bounds_spec(x, y) && tile_at(tiles, x, y) == Tile::Tree && holder(m, x, y) is None
}

/// Raster scan of the first `k` cells (row-major order), keeping the first
/// candidate of strictly smallest Manhattan distance from `(fx, fy)`.
pub open spec fn nearest_upto(tiles: Seq<Tile>, m: Map<u64, u32>, fx: int, fy: int, k: nat) -> Option<
    Coord,
>
    decreases k,
{
    if k == 0 {
        None
    } else {
        let prev = nearest_upto(tiles, m, fx, fy, (k - 1) as nat);
        let x = (k - 1) as int % (MAP_W as int);
        let y = (k - 1) as int / (MAP_W as int);
        if candidate(tiles, m, x, y) {
            match prev {
                Option::None => Some(Coord { x: x as i32, y: y as i32 }),
                Option::Some(c) => if manhattan(fx, fy, x, y) < manhattan(
                    fx,
                    fy,
                    c.x as int,
                    c.y as int,
                ) {
                    Some(Coord { x: x as i32, y: y as i32 })
                } else {
                    prev
                },
            }
        } else {
            prev
        }
    }
}

/// The unreserved tree tile nearest to `(fx, fy)`: smallest Manhattan
/// distance, ties broken by raster order.  `None` when every tree is
/// depleted or reserved.
pub open spec fn nearest_tree_spec(tiles: Seq<Tile>, m: Map<u64, u32>, fx: int, fy: int) -> Option<
    Coord,
> {
    nearest_upto(tiles, m, fx, fy, ((MAP_W as int) * (MAP_H as int)) as nat)
}

/// Row-major cell index decomposes into its coordinates.
proof fn lemma_cell_decode(x: int, y: int)
    requires
        0 <= x < MAP_W as int,
        0 <= y,
    ensures
        (y * (MAP_W as int) + x) % (MAP_W as int) == x,
        (y * (MAP_W as int) + x) / (MAP_W as int) == y,
{
    let w = MAP_W as int;
    assert((y * w + x) % w == x && (y * w + x) / w == y) by (nonlinear_arith)
        requires
            0 <= x < w,
            0 <= y,
            w == 64,
    ;
}

/// `(x1, y1)` beats `(x2, y2)` in the search order: strictly closer to the
/// pawn, or equally close and earlier in raster order.
pub open spec fn closer(fx: int, fy: int, x1: int, y1: int, x2: int, y2: int) -> bool {
    ||| manhattan(fx, fy, x1, y1) < manhattan(fx, fy, x2, y2)
    ||| (manhattan(fx, fy, x1, y1) == manhattan(fx, fy, x2, y2) && spec_idx(x1, y1) < spec_idx(
        x2,
        y2,
    ))
}

proof fn lemma_nearest_upto_props(tiles: Seq<Tile>, m: Map<u64, u32>, fx: int, fy: int, k: nat)
    requires
        k <= (MAP_W as int) * (MAP_H as int),
    ensures
        match nearest_upto(tiles, m, fx, fy, k) {
            None => forall|x: int, y: int|
                candidate(tiles, m, x, y) ==> spec_idx(x, y) >= k,
            Some(c) => candidate(tiles, m, c.x as int, c.y as int) && 0 <= spec_idx(
                c.x as int,
                c.y as int,
            ) < k && forall|x: int, y: int|
                candidate(tiles, m, x, y) && spec_idx(x, y) < k ==> !closer(
                    fx,
                    fy,
                    x,
                    y,
                    c.x as int,
                    c.y as int,
                ),
        },
    decreases k,
{
    let w = MAP_W as int;
    if k == 0 {
        assert forall|x: int, y: int| candidate(tiles, m, x, y) implies spec_idx(x, y) >= 0 by {
            assert(in_bounds_spec(x, y));
        }
    } else {
        lemma_nearest_upto_props(tiles, m, fx, fy, (k - 1) as nat);
        let cx = (k - 1) as int % w;
        let cy = (k - 1) as int / w;
        assert(0 <= cx < w && 0 <= cy) by {
            vstd::arithmetic::div_mod::lemma_mod_bound((k - 1) as int, w);
            vstd::arithmetic::div_mod::lemma_div_pos_is_pos((k - 1) as int, w);
        }
        assert(spec_idx(cx, cy) == k - 1) by {
            vstd::arithmetic::div_mod::lemma_fundamental_div_mod((k - 1) as int, w);
        }
        // any in-bounds cell with index below k but not below k - 1 is (cx, cy)
        assert forall|x: int, y: int|
            in_bounds_spec(x, y) && spec_idx(x, y) < k && spec_idx(x, y) >= k - 1 implies x == cx
            && y == cy by {
            lemma_cell_decode(x, y);
        }
    }
}

/// What the nearest-tree search promises: when it finds a coordinate, that
/// coordinate is an unreserved tree, and no unreserved tree is strictly
/// closer or equally close with a smaller raster index; when it finds
/// nothing, no unreserved tree exists.  The result is a function of the grid
/// and table state alone, so identical states always give the same answer.
pub proof fn lemma_nearest_characterization(tiles: Seq<Tile>, m: Map<u64, u32>, fx: int, fy: int)
    ensures
        match nearest_tree_spec(tiles, m, fx, fy) {
            None => forall|x: int, y: int| !candidate(tiles, m, x, y),
            Some(c) => candidate(tiles, m, c.x as int, c.y as int) && forall|x: int, y: int|
                candidate(tiles, m, x, y) ==> !closer(fx, fy, x, y, c.x as int, c.y as int),
        },
{
    let total = ((MAP_W as int) * (MAP_H as int)) as nat;
    lemma_nearest_upto_props(tiles, m, fx, fy, total);
    match nearest_tree_spec(tiles, m, fx, fy) {
        None => {
            assert forall|x: int, y: int| !candidate(tiles, m, x, y) by {
                if candidate(tiles, m, x, y) {
                    assert(spec_idx(x, y) < total);
                }
            }
        },
        Some(c) => {
            assert forall|x: int, y: int| candidate(tiles, m, x, y) implies !closer(
                fx,
                fy,
                x,
                y,
                c.x as int,
                c.y as int,
            ) by {
                assert(spec_idx(x, y) < total);
            }
        },
    }
}

/// Exhaustive raster scan for the nearest unreserved tree, as the spec
/// `nearest_tree_spec` describes.
pub fn find_nearest_tree(map: &WorldMap, from: Coord, reservations: &Reservations) -> (r: Option<
    Coord,
>)
    requires
        map_wf(*map),
        in_bounds_spec(from.x as int, from.y as int),
    ensures
        r == nearest_tree_spec(
            map.tiles@,
            reservations.reserved_tiles@,
            from.x as int,
            from.y as int,
        ),
{
    let ghost tiles = map.tiles@;
    let ghost m = reservations.reserved_tiles@;
    let ghost fx = from.x as int;
    let ghost fy = from.y as int;
    let mut best: Option<(i32, Coord)> = None;
    let mut y: i32 = 0;
    while y < MAP_H
        invariant
            map_wf(*map),
            in_bounds_spec(fx, fy),
            tiles == map.tiles@,
            m == reservations.reserved_tiles@,
            fx == from.x as int && fy == from.y as int,
            0 <= y <= MAP_H,
            best_matches(best, nearest_upto(tiles, m, fx, fy, (y * (MAP_W as int)) as nat), fx, fy),
        decreases MAP_H - y,
    {
        let mut x: i32 = 0;
        while x < MAP_W
            invariant
                map_wf(*map),
                in_bounds_spec(fx, fy),
                tiles == map.tiles@,
                m == reservations.reserved_tiles@,
                fx == from.x as int && fy == from.y as int,
                0 <= y < MAP_H,
                0 <= x <= MAP_W,
                best_matches(
                    best,
                    nearest_upto(tiles, m, fx, fy, (y * (MAP_W as int) + x) as nat),
                    fx,
                    fy,
                ),
            decreases MAP_W - x,
        {
            let ghost k = (y * (MAP_W as int) + x) as nat;
            proof {
                lemma_cell_decode(x as int, y as int);
                assert(spec_idx(x as int, y as int) == k);
            }
            let tile = crate::world::get(map, x, y);
            let reserved = reservations.is_reserved(x, y);
            if matches!(tile, Tile::Tree) && !reserved {
                let dx = if from.x <= x {
                    x - from.x
                } else {
                    from.x - x
                };
                let dy = if from.y <= y {
                    y - from.y
                } else {
                    from.y - y
                };
                let dist = dx + dy;
                assert(dist as int == manhattan(fx, fy, x as int, y as int));
                match best {
                    Option::None => {
                        best = Some((dist, Coord { x, y }));
                    },
                    Option::Some((best_dist, _)) => {
                        if dist < best_dist {
                            best = Some((dist, Coord { x, y }));
                        }
                    },
                }
            }
            x = x + 1;
        }
        y = y + 1;
    }
    match best {
        Option::None => None,
        Option::Some((_, pos)) => Some(pos),
    }
}

/// An idle pawn searches for the nearest unreserved tree; on success it
/// claims that tree and walks toward it, otherwise it stays idle.
pub fn handle_idle(pawn: &Pawn, map: &WorldMap, reservations: &mut Reservations) -> (t: Task)
    requires
        map_wf(*map),
        in_bounds_spec(pawn.x as int, pawn.y as int),
    ensures
        ({
            let found = nearest_tree_spec(
                map.tiles@,
                old(reservations).reserved_tiles@,
                pawn.x as int,
                pawn.y as int,
            );
            match found {
                Option::None => t == Task::Idle && final(reservations).reserved_tiles@ == old(
                    reservations
                ).reserved_tiles@,
                Option::Some(tree) => t == Task::GoToTree(tree) && final(
                    reservations
                ).reserved_tiles@ == old(reservations).reserved_tiles@.insert(
                    spec_key(tree.x as int, tree.y as int),
                    pawn.id,
                ),
            }
        }),
{
    match find_nearest_tree(map, Coord { x: pawn.x, y: pawn.y }, reservations) {
        Option::Some(tree) => {
            proof {
                lemma_nearest_characterization(
                    map.tiles@,
                    reservations.reserved_tiles@,
                    pawn.x as int,
                    pawn.y as int,
                );
            }
            let _claimed = reservations.reserve(tree.x, tree.y, pawn.id);
            Task::GoToTree(tree)
        },
        Option::None => Task::Idle,
    }
}

/// A travelling pawn takes one greedy step toward its reserved tree and
/// starts chopping the moment it stands on it.
pub fn handle_go_to_tree(pawn: &mut Pawn, at: Coord) -> (t: Task)
    requires
        in_bounds_spec(old(pawn).x as int, old(pawn).y as int),
        in_bounds_spec(at.x as int, at.y as int),
    ensures
        final(pawn).id == old(pawn).id,
        (final(pawn).x as int, final(pawn).y as int) == step_spec(
            old(pawn).x as int,
            old(pawn).y as int,
            at.x as int,
            at.y as int,
        ),
        t == if final(pawn).x == at.x && final(pawn).y == at.y {
            Task::Chop { at, progress: 0 }
        } else {
            Task::GoToTree(at)
        },
{
    step_towards(pawn, at);
    if pawn.x == at.x && pawn.y == at.y {
        Task::Chop { at, progress: 0 }
    } else {
        Task::GoToTree(at)
    }
}

/// One tick of chopping.  If the tile stopped being a tree the pawn gives up
/// its claim and goes idle; the tenth increment fells the tree, adds one wood
/// to the pawn's inventory, releases the claim and sends the pawn home.
pub fn handle_chop(
    agent: u32,
    map: &mut WorldMap,
    inv: &mut Inventory,
    at: Coord,
    progress: u8,
    reservations: &mut Reservations,
) -> (t: Task)
    requires
        map_wf(*old(map)),
        in_bounds_spec(at.x as int, at.y as int),
        progress < CHOP_TICKS,
        old(inv).wood < u32::MAX,
    ensures
        map_wf(*final(map)),
        ({
            let was_tree = tile_at(old(map).tiles@, at.x as int, at.y as int) == Tile::Tree;
            if !was_tree {
                &&& t == Task::Idle
                &&& final(map).tiles@ == old(map).tiles@
                &&& *final(inv) == *old(inv)
                &&& final(reservations).reserved_tiles@ == release_spec(
                    old(reservations).reserved_tiles@,
                    at.x as int,
                    at.y as int,
                    agent,
                )
            } else if progress + 1 < CHOP_TICKS {
                &&& t == (Task::Chop { at, progress: (progress + 1) as u8 })
                &&& final(map).tiles@ == old(map).tiles@
                &&& *final(inv) == *old(inv)
                &&& final(reservations).reserved_tiles@ == old(reservations).reserved_tiles@
            } else {
                &&& t == Task::GoToStockpile
                &&& final(map).tiles@ == old(map).tiles@.update(
                    spec_idx(at.x as int, at.y as int),
                    Tile::Ground,
                )
                &&& final(inv).wood == old(inv).wood + 1
                &&& final(reservations).reserved_tiles@ == release_spec(
                    old(reservations).reserved_tiles@,
                    at.x as int,
                    at.y as int,
                    agent,
                )
            }
        }),
{
    let tile = crate::world::get(map, at.x, at.y);
    if !matches!(tile, Tile::Tree) {
        reservations.release(at.x, at.y, agent);
        return Task::Idle;
    }
    let next = progress + 1;
    if next >= CHOP_TICKS {
        crate::world::set(map, at.x, at.y, Tile::Ground);
        inv.wood = inv.wood + 1;
        reservations.release(at.x, at.y, agent);
        Task::GoToStockpile
    } else {
        Task::Chop { at, progress: next }
    }
}

/// A loaded pawn takes one greedy step toward the stockpile tile and starts
/// dropping off the moment it stands on it.
pub fn handle_go_to_stockpile(pawn: &mut Pawn) -> (t: Task)
    requires
        in_bounds_spec(old(pawn).x as int, old(pawn).y as int),
    ensures
        final(pawn).id == old(pawn).id,
        (final(pawn).x as int, final(pawn).y as int) == step_spec(
            old(pawn).x as int,
            old(pawn).y as int,
            STOCKPILE_X as int,
            STOCKPILE_Y as int,
        ),
        t == if final(pawn).x == STOCKPILE_X && final(pawn).y == STOCKPILE_Y {
            Task::DropOff
        } else {
            Task::GoToStockpile
        },
{
    let target = Coord { x: STOCKPILE_X, y: STOCKPILE_Y };
    step_towards(pawn, target);
    if pawn.x == target.x && pawn.y == target.y {
        Task::DropOff
    } else {
        Task::GoToStockpile
    }
}

/// A pawn at the stockpile transfers its whole inventory to the colony
/// (a no-op when it carries nothing) and goes idle.
pub fn handle_drop_off(inv: &mut Inventory, stockpile: &mut Colony) -> (t: Task)
    requires
        old(stockpile).wood + old(inv).wood <= u32::MAX,
    ensures
        final(stockpile).wood == old(stockpile).wood + old(inv).wood,
        final(inv).wood == 0,
        t == Task::Idle,
{
    if inv.wood > 0 {
        stockpile.wood = stockpile.wood + inv.wood;
        inv.wood = 0;
    }
    Task::Idle
}

/// The running best of the exec scan mirrors the spec scan: same coordinate,
/// and the cached distance is that coordinate's Manhattan distance.
pub open spec fn best_matches(
    best: Option<(i32, Coord)>,
    n: Option<Coord>,
    fx: int,
    fy: int,
) -> bool {
    match n {
        Option::None => best is None,
        Option::Some(c) => match best {
            Option::None => false,
            Option::Some((d, bc)) => bc == c && d as int == manhattan(fx, fy, c.x as int, c.y as int),
        },
    }
}

} // verus!
