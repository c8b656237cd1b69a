//! Whole-simulation scenarios: the clock gate and multi-tick runs of the
//! task state machine over a shared grid and reservation table.

use tiny_colony::colony::Colony;
use tiny_colony::config::{MAP_H, MAP_W, STOCKPILE_X, STOCKPILE_Y};
use tiny_colony::pawn::{Agent, Coord, Inventory, Pawn, Task};
use tiny_colony::reservations::Reservations;
use tiny_colony::sim::{init, tick_jobs, Sim};
use tiny_colony::world::{get, Tile, WorldMap};

fn empty_world() -> WorldMap {
    WorldMap {
        tiles: vec![Tile::Ground; (MAP_W * MAP_H) as usize],
    }
}

fn idle_agent(id: u32, x: i32, y: i32) -> Agent {
    Agent {
        pawn: Pawn { id, x, y },
        task: Task::Idle,
        inv: Inventory { wood: 0 },
    }
}

fn count_reserved(r: &Reservations) -> usize {
    let mut n = 0;
    for y in 0..MAP_H {
        for x in 0..MAP_W {
            if r.is_reserved(x, y) {
                n += 1;
            }
        }
    }
    n
}

/// Run exactly one simulation tick (speed 1, a full interval of elapsed time).
fn one_tick(
    sim: &mut Sim,
    map: &mut WorldMap,
    colony: &mut Colony,
    reservations: &mut Reservations,
    agents: &mut Vec<Agent>,
) {
    let fired = tick_jobs(sim, map, colony, reservations, agents, 100);
    assert!(fired);
}

#[test]
fn clock_fires_once_and_carries_the_rest() {
    // speed 1, interval 100 ms: 150 ms fires exactly one tick, 50 ms carries
    let mut sim = Sim::new();
    assert!(sim.advance(150));
    assert_eq!(sim.acc_ms, 50);
    // the carried 50 ms joins the next update
    assert!(!sim.advance(30));
    assert_eq!(sim.acc_ms, 80);
    assert!(sim.advance(20));
    assert_eq!(sim.acc_ms, 0);
}

#[test]
fn clock_never_fires_twice_per_update() {
    let mut sim = Sim::new();
    // 250 ms is two and a half intervals, but one update fires one tick
    assert!(sim.advance(250));
    assert_eq!(sim.acc_ms, 150);
    // the backlog fires on later updates, one tick each
    assert!(sim.advance(0));
    assert_eq!(sim.acc_ms, 50);
    assert!(!sim.advance(0));
}

#[test]
fn paused_clock_accumulates_nothing() {
    let mut sim = Sim::new();
    sim.toggle_paused();
    assert!(!sim.advance(1000));
    assert_eq!(sim.acc_ms, 0);
    sim.toggle_paused();
    assert!(sim.advance(100));
}

#[test]
fn speed_scales_elapsed_time() {
    let mut sim = Sim::new();
    sim.set_speed(2);
    assert!(sim.advance(50));
    assert_eq!(sim.acc_ms, 0);
    sim.set_speed(4);
    assert!(!sim.advance(20));
    assert_eq!(sim.acc_ms, 80);
}

#[test]
fn paused_simulation_changes_no_state() {
    let mut map = empty_world();
    tiny_colony::world::set(&mut map, 5, 5, Tile::Tree);
    let (mut sim, mut colony, mut reservations) = init();
    sim.toggle_paused();
    let mut agents = vec![idle_agent(0, 5, 0)];
    let fired = tick_jobs(&mut sim, &mut map, &mut colony, &mut reservations, &mut agents, 1000);
    assert!(!fired);
    assert_eq!(agents[0].task, Task::Idle);
    assert!(!reservations.is_reserved(5, 5));
    assert_eq!(colony.wood, 0);
}

#[test]
fn single_pawn_harvest_run() {
    // one tree at (5,5), one pawn at (5,0), everything else ground
    let mut map = empty_world();
    tiny_colony::world::set(&mut map, 5, 5, Tile::Tree);
    let (mut sim, mut colony, mut reservations) = init();
    let mut agents = vec![idle_agent(0, 5, 0)];

    // tick 1: the pawn finds and reserves the tree
    one_tick(&mut sim, &mut map, &mut colony, &mut reservations, &mut agents);
    assert_eq!(agents[0].task, Task::GoToTree(Coord { x: 5, y: 5 }));
    assert!(reservations.is_reserved(5, 5));
    // the pawn holds exactly one reservation
    assert_eq!(count_reserved(&reservations), 1);
    assert_eq!((agents[0].pawn.x, agents[0].pawn.y), (5, 0));

    // five ticks of pure y movement bring it onto the tree, chopping
    for step in 1..=5 {
        one_tick(&mut sim, &mut map, &mut colony, &mut reservations, &mut agents);
        assert_eq!((agents[0].pawn.x, agents[0].pawn.y), (5, step));
    }
    assert_eq!(
        agents[0].task,
        Task::Chop {
            at: Coord { x: 5, y: 5 },
            progress: 0
        }
    );

    // nine more ticks raise progress one by one
    for p in 1..=9 {
        one_tick(&mut sim, &mut map, &mut colony, &mut reservations, &mut agents);
        assert_eq!(
            agents[0].task,
            Task::Chop {
                at: Coord { x: 5, y: 5 },
                progress: p
            }
        );
        assert_eq!(get(&map, 5, 5), Tile::Tree);
    }

    // the tenth increment fells the tree
    one_tick(&mut sim, &mut map, &mut colony, &mut reservations, &mut agents);
    assert_eq!(agents[0].task, Task::GoToStockpile);
    assert_eq!(agents[0].inv.wood, 1);
    assert_eq!(get(&map, 5, 5), Tile::Ground);
    assert!(!reservations.is_reserved(5, 5));
}

#[test]
fn two_pawns_one_tree_only_one_wins() {
    // a single remaining tree with two idle pawns beside it
    let mut map = empty_world();
    tiny_colony::world::set(&mut map, 10, 10, Tile::Tree);
    let (mut sim, mut colony, mut reservations) = init();
    let mut agents = vec![idle_agent(0, 9, 10), idle_agent(1, 11, 10)];

    one_tick(&mut sim, &mut map, &mut colony, &mut reservations, &mut agents);

    // the pawn processed first reserves the tree; the other finds nothing
    assert_eq!(agents[0].task, Task::GoToTree(Coord { x: 10, y: 10 }));
    assert_eq!(agents[1].task, Task::Idle);
    assert!(reservations.is_reserved(10, 10));
}

#[test]
fn full_cycle_deposits_wood() {
    // a tree right beside the stockpile: reserve, walk, chop ten ticks,
    // walk back, deposit
    let mut map = empty_world();
    tiny_colony::world::set(&mut map, STOCKPILE_X, STOCKPILE_Y, Tile::Stockpile);
    tiny_colony::world::set(&mut map, STOCKPILE_X + 1, STOCKPILE_Y, Tile::Tree);
    let (mut sim, mut colony, mut reservations) = init();
    let mut agents = vec![idle_agent(0, STOCKPILE_X, STOCKPILE_Y)];

    for _ in 0..14 {
        one_tick(&mut sim, &mut map, &mut colony, &mut reservations, &mut agents);
    }

    assert_eq!(colony.wood, 1);
    assert_eq!(agents[0].task, Task::Idle);
    assert_eq!(agents[0].inv.wood, 0);
    assert_eq!(
        (agents[0].pawn.x, agents[0].pawn.y),
        (STOCKPILE_X, STOCKPILE_Y)
    );
    // the stockpile tile kept its kind throughout
    assert_eq!(get(&map, STOCKPILE_X, STOCKPILE_Y), Tile::Stockpile);
    // the felled tree became ground and stayed unreserved
    assert_eq!(get(&map, STOCKPILE_X + 1, STOCKPILE_Y), Tile::Ground);
    assert!(!reservations.is_reserved(STOCKPILE_X + 1, STOCKPILE_Y));
}

#[test]
fn later_pawn_sees_earlier_depletion_same_tick() {
    // pawn 0 fells its tree in the same tick in which pawn 1 searches:
    // pawn 1 must not find the already-felled tile
    let mut map = empty_world();
    tiny_colony::world::set(&mut map, 3, 3, Tile::Tree);
    let (mut sim, mut colony, mut reservations) = init();
    assert!(reservations.reserve(3, 3, 0));
    let mut agents = vec![
        Agent {
            pawn: Pawn { id: 0, x: 3, y: 3 },
            task: Task::Chop {
                at: Coord { x: 3, y: 3 },
                progress: 9,
            },
            inv: Inventory { wood: 0 },
        },
        idle_agent(1, 3, 4),
    ];

    one_tick(&mut sim, &mut map, &mut colony, &mut reservations, &mut agents);

    assert_eq!(agents[0].task, Task::GoToStockpile);
    assert_eq!(get(&map, 3, 3), Tile::Ground);
    // the search of the later pawn saw the tree already gone
    assert_eq!(agents[1].task, Task::Idle);
}
