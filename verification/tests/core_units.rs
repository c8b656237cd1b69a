//! Unit tests for the grid, the reservation table, the nearest-tree search,
//! movement and the single-task handlers.

use tiny_colony::colony::Colony;
use tiny_colony::config::{MAP_H, MAP_W, STOCKPILE_X, STOCKPILE_Y};
use tiny_colony::pawn::{spawn_pawns, spiral_positions, Coord, Inventory, Pawn, Task};
use tiny_colony::pawn_tasks::{
    find_nearest_tree, handle_chop, handle_drop_off, handle_go_to_stockpile, handle_go_to_tree,
    handle_idle, step_towards,
};
use tiny_colony::reservations::Reservations;
use tiny_colony::world::{build_world, get, in_bounds, Tile, WorldMap};

fn empty_world() -> WorldMap {
    WorldMap {
        tiles: vec![Tile::Ground; (MAP_W * MAP_H) as usize],
    }
}

#[test]
fn in_bounds_edges() {
    assert!(in_bounds(0, 0));
    assert!(in_bounds(MAP_W - 1, MAP_H - 1));
    assert!(!in_bounds(-1, 0));
    assert!(!in_bounds(0, -1));
    assert!(!in_bounds(MAP_W, 0));
    assert!(!in_bounds(0, MAP_H));
}

#[test]
fn build_world_layout() {
    let m = build_world();
    assert_eq!(get(&m, STOCKPILE_X, STOCKPILE_Y), Tile::Stockpile);
    // the three tree strips
    assert_eq!(get(&m, 0, 0), Tile::Tree);
    assert_eq!(get(&m, 17, 47), Tile::Tree);
    assert_eq!(get(&m, 57, 0), Tile::Tree);
    assert_eq!(get(&m, 57, 63), Tile::Tree);
    // outside every strip
    assert_eq!(get(&m, 58, 30), Tile::Ground);
    assert_eq!(get(&m, 63, 63), Tile::Ground);
    assert_eq!(get(&m, 30, 30), Tile::Ground);
}

#[test]
fn build_world_has_exactly_one_stockpile() {
    let m = build_world();
    let mut stockpiles = 0;
    for y in 0..MAP_H {
        for x in 0..MAP_W {
            if get(&m, x, y) == Tile::Stockpile {
                stockpiles += 1;
                assert_eq!((x, y), (STOCKPILE_X, STOCKPILE_Y));
            }
        }
    }
    assert_eq!(stockpiles, 1);
}

#[test]
fn set_then_get() {
    let mut m = empty_world();
    tiny_colony::world::set(&mut m, 5, 7, Tile::Tree);
    assert_eq!(get(&m, 5, 7), Tile::Tree);
    assert_eq!(get(&m, 7, 5), Tile::Ground);
    tiny_colony::world::set(&mut m, 5, 7, Tile::Ground);
    assert_eq!(get(&m, 5, 7), Tile::Ground);
}

#[test]
fn reserve_succeeds_only_when_free() {
    let mut r = Reservations::new();
    assert!(!r.is_reserved(3, 4));
    assert!(r.reserve(3, 4, 11));
    assert!(r.is_reserved(3, 4));
    // no steal: a second claim on the same coordinate fails
    assert!(!r.reserve(3, 4, 22));
    assert!(r.is_reserved(3, 4));
    // another coordinate is independent
    assert!(r.reserve(4, 3, 22));
}

#[test]
fn release_only_by_holder() {
    let mut r = Reservations::new();
    assert!(r.reserve(3, 4, 11));
    // a stranger's release is a silent no-op
    r.release(3, 4, 22);
    assert!(r.is_reserved(3, 4));
    // the holder's release frees the coordinate
    r.release(3, 4, 11);
    assert!(!r.is_reserved(3, 4));
}

#[test]
fn release_is_idempotent() {
    let mut r = Reservations::new();
    assert!(r.reserve(3, 4, 11));
    r.release(3, 4, 11);
    // a second release of the same pair is a no-op
    r.release(3, 4, 11);
    assert!(!r.is_reserved(3, 4));
    // even after another pawn takes the coordinate over, the stale release
    // changes nothing
    assert!(r.reserve(3, 4, 22));
    r.release(3, 4, 11);
    assert!(r.is_reserved(3, 4));
    r.release(3, 4, 22);
    assert!(!r.is_reserved(3, 4));
}

#[test]
fn nearest_tree_none_when_no_trees() {
    let m = empty_world();
    let r = Reservations::new();
    assert_eq!(find_nearest_tree(&m, Coord { x: 10, y: 10 }, &r), None);
}

#[test]
fn nearest_tree_prefers_smallest_distance() {
    let mut m = empty_world();
    tiny_colony::world::set(&mut m, 5, 5, Tile::Tree);
    tiny_colony::world::set(&mut m, 6, 5, Tile::Tree);
    let r = Reservations::new();
    // from (5, 0): (5,5) is 5 away, (6,5) is 6 away
    assert_eq!(
        find_nearest_tree(&m, Coord { x: 5, y: 0 }, &r),
        Some(Coord { x: 5, y: 5 })
    );
}

#[test]
fn nearest_tree_breaks_ties_in_raster_order() {
    let mut m = empty_world();
    tiny_colony::world::set(&mut m, 4, 5, Tile::Tree);
    tiny_colony::world::set(&mut m, 6, 5, Tile::Tree);
    tiny_colony::world::set(&mut m, 5, 6, Tile::Tree);
    let r = Reservations::new();
    // all three are 1 away from (5, 5); (4, 5) comes first in raster order
    assert_eq!(
        find_nearest_tree(&m, Coord { x: 5, y: 5 }, &r),
        Some(Coord { x: 4, y: 5 })
    );
}

#[test]
fn nearest_tree_skips_reserved_tiles() {
    let mut m = empty_world();
    tiny_colony::world::set(&mut m, 5, 5, Tile::Tree);
    tiny_colony::world::set(&mut m, 6, 5, Tile::Tree);
    let mut r = Reservations::new();
    assert!(r.reserve(5, 5, 1));
    assert_eq!(
        find_nearest_tree(&m, Coord { x: 5, y: 0 }, &r),
        Some(Coord { x: 6, y: 5 })
    );
}

#[test]
fn nearest_tree_is_deterministic() {
    let mut m = empty_world();
    tiny_colony::world::set(&mut m, 12, 3, Tile::Tree);
    tiny_colony::world::set(&mut m, 3, 12, Tile::Tree);
    let r = Reservations::new();
    let first = find_nearest_tree(&m, Coord { x: 7, y: 7 }, &r);
    let second = find_nearest_tree(&m, Coord { x: 7, y: 7 }, &r);
    assert_eq!(first, second);
    assert!(first.is_some());
}

#[test]
fn nearest_tree_on_a_full_forest() {
    // every cell a tree: the pawn's own cell is the nearest, distance zero
    let m = WorldMap {
        tiles: vec![Tile::Tree; (MAP_W * MAP_H) as usize],
    };
    let r = Reservations::new();
    assert_eq!(
        find_nearest_tree(&m, Coord { x: 63, y: 63 }, &r),
        Some(Coord { x: 63, y: 63 })
    );
    assert_eq!(
        find_nearest_tree(&m, Coord { x: 0, y: 0 }, &r),
        Some(Coord { x: 0, y: 0 })
    );
}

#[test]
fn step_aligns_x_before_y() {
    let mut p = Pawn { id: 0, x: 0, y: 0 };
    step_towards(&mut p, Coord { x: 3, y: 4 });
    assert_eq!((p.x, p.y), (1, 0));
    step_towards(&mut p, Coord { x: 3, y: 4 });
    step_towards(&mut p, Coord { x: 3, y: 4 });
    assert_eq!((p.x, p.y), (3, 0));
    step_towards(&mut p, Coord { x: 3, y: 4 });
    assert_eq!((p.x, p.y), (3, 1));
}

#[test]
fn step_moves_down_and_left_too() {
    let mut p = Pawn { id: 0, x: 10, y: 10 };
    step_towards(&mut p, Coord { x: 8, y: 8 });
    assert_eq!((p.x, p.y), (9, 10));
    step_towards(&mut p, Coord { x: 9, y: 8 });
    assert_eq!((p.x, p.y), (9, 9));
}

#[test]
fn step_at_target_stays_put() {
    let mut p = Pawn { id: 0, x: 2, y: 2 };
    step_towards(&mut p, Coord { x: 2, y: 2 });
    assert_eq!((p.x, p.y), (2, 2));
}

#[test]
fn idle_pawn_reserves_nearest_tree() {
    let mut m = empty_world();
    tiny_colony::world::set(&mut m, 5, 5, Tile::Tree);
    let mut r = Reservations::new();
    let p = Pawn { id: 7, x: 5, y: 0 };
    let t = handle_idle(&p, &m, &mut r);
    assert_eq!(t, Task::GoToTree(Coord { x: 5, y: 5 }));
    assert!(r.is_reserved(5, 5));
}

#[test]
fn idle_pawn_stays_idle_without_trees() {
    let m = empty_world();
    let mut r = Reservations::new();
    let p = Pawn { id: 7, x: 5, y: 0 };
    assert_eq!(handle_idle(&p, &m, &mut r), Task::Idle);
    assert!(!r.is_reserved(5, 0));
}

#[test]
fn go_to_tree_starts_chopping_on_arrival() {
    let mut p = Pawn { id: 0, x: 5, y: 4 };
    let t = handle_go_to_tree(&mut p, Coord { x: 5, y: 5 });
    assert_eq!((p.x, p.y), (5, 5));
    assert_eq!(
        t,
        Task::Chop {
            at: Coord { x: 5, y: 5 },
            progress: 0
        }
    );
}

#[test]
fn chop_increments_progress() {
    let mut m = empty_world();
    tiny_colony::world::set(&mut m, 5, 5, Tile::Tree);
    let mut r = Reservations::new();
    assert!(r.reserve(5, 5, 7));
    let mut inv = Inventory { wood: 0 };
    let t = handle_chop(7, &mut m, &mut inv, Coord { x: 5, y: 5 }, 0, &mut r);
    assert_eq!(
        t,
        Task::Chop {
            at: Coord { x: 5, y: 5 },
            progress: 1
        }
    );
    assert_eq!(inv.wood, 0);
    assert_eq!(get(&m, 5, 5), Tile::Tree);
    assert!(r.is_reserved(5, 5));
}

#[test]
fn tenth_chop_fells_the_tree() {
    let mut m = empty_world();
    tiny_colony::world::set(&mut m, 5, 5, Tile::Tree);
    let mut r = Reservations::new();
    assert!(r.reserve(5, 5, 7));
    let mut inv = Inventory { wood: 0 };
    let t = handle_chop(7, &mut m, &mut inv, Coord { x: 5, y: 5 }, 9, &mut r);
    assert_eq!(t, Task::GoToStockpile);
    assert_eq!(inv.wood, 1);
    assert_eq!(get(&m, 5, 5), Tile::Ground);
    assert!(!r.is_reserved(5, 5));
}

#[test]
fn chopping_a_vanished_tree_gives_up() {
    let mut m = empty_world();
    let mut r = Reservations::new();
    assert!(r.reserve(5, 5, 7));
    let mut inv = Inventory { wood: 0 };
    let t = handle_chop(7, &mut m, &mut inv, Coord { x: 5, y: 5 }, 4, &mut r);
    assert_eq!(t, Task::Idle);
    assert_eq!(inv.wood, 0);
    assert!(!r.is_reserved(5, 5));
}

#[test]
fn go_to_stockpile_arrives_and_drops_off() {
    let mut p = Pawn {
        id: 0,
        x: STOCKPILE_X,
        y: STOCKPILE_Y - 1,
    };
    let t = handle_go_to_stockpile(&mut p);
    assert_eq!((p.x, p.y), (STOCKPILE_X, STOCKPILE_Y));
    assert_eq!(t, Task::DropOff);
}

#[test]
fn drop_off_transfers_whole_inventory() {
    let mut inv = Inventory { wood: 3 };
    let mut colony = Colony { wood: 10 };
    let t = handle_drop_off(&mut inv, &mut colony);
    assert_eq!(t, Task::Idle);
    assert_eq!(inv.wood, 0);
    assert_eq!(colony.wood, 13);
}

#[test]
fn drop_off_with_empty_inventory_is_a_no_op() {
    let mut inv = Inventory { wood: 0 };
    let mut colony = Colony { wood: 10 };
    let t = handle_drop_off(&mut inv, &mut colony);
    assert_eq!(t, Task::Idle);
    assert_eq!(colony.wood, 10);
}

#[test]
fn spiral_starts_at_center_and_covers_the_block() {
    let c = Coord { x: 32, y: 32 };
    let r = spiral_positions(c, 2);
    assert_eq!(r.len(), 25);
    assert_eq!(r[0], Coord { x: 32, y: 32 });
    assert_eq!(r[1], Coord { x: 33, y: 32 });
    assert_eq!(r[2], Coord { x: 33, y: 33 });
    // every cell of the 5x5 block around the centre appears exactly once
    for x in 30..=34 {
        for y in 30..=34 {
            assert_eq!(
                r.iter().filter(|p| p.x == x && p.y == y).count(),
                1,
                "cell ({x},{y})"
            );
        }
    }
}

#[test]
fn spawn_places_distinct_idle_pawns_off_trees() {
    let mut m = empty_world();
    // a tree right next to the stockpile is skipped over
    tiny_colony::world::set(&mut m, STOCKPILE_X + 1, STOCKPILE_Y, Tile::Tree);
    let pawns = spawn_pawns(&m, 5);
    assert_eq!(pawns.len(), 5);
    for (i, a) in pawns.iter().enumerate() {
        assert_eq!(a.pawn.id, i as u32);
        assert_eq!(a.task, Task::Idle);
        assert_eq!(a.inv.wood, 0);
        assert!(in_bounds(a.pawn.x, a.pawn.y));
        assert_ne!((a.pawn.x, a.pawn.y), (STOCKPILE_X + 1, STOCKPILE_Y));
        for b in pawns.iter().skip(i + 1) {
            assert_ne!((a.pawn.x, a.pawn.y), (b.pawn.x, b.pawn.y));
        }
    }
    assert_eq!((pawns[0].pawn.x, pawns[0].pawn.y), (STOCKPILE_X, STOCKPILE_Y));
}
