//! The simulation clock and the whole-colony tick.
//!
//! The clock is a fixed-rate gate: real time, scaled by the speed
//! multiplier, accumulates against a fixed interval, and each update fires
//! at most one tick.  A tick processes every pawn once, in order, each pawn
//! seeing the grid and reservation effects of the pawns before it.

use vstd::prelude::*;
use crate::colony::Colony;
use crate::config::{CHOP_TICKS, MAP_H, MAP_W, STOCKPILE_X, STOCKPILE_Y, TICK_INTERVAL_MS};
use crate::pawn::{Agent, Coord, Inventory, Pawn, Task};
use crate::pawn_tasks::{
    candidate, handle_chop, handle_drop_off, handle_go_to_stockpile, handle_go_to_tree,
    handle_idle, lemma_nearest_characterization, nearest_tree_spec, step_spec,
};
use crate::reservations::{holder, lemma_key_injective, release_spec, spec_key, Reservations};
use crate::world::{in_bounds_spec, spec_idx, tile_at, Tile, WorldMap};

verus! {

/// The tick gate: paused flag, speed multiplier and the accumulated
/// simulated milliseconds not yet spent on a tick.
#[derive(Clone, Copy, Debug, PartialEq, Eq, Structural)]
pub struct Sim {
    pub paused: bool,
    pub speed: u32,
    pub acc_ms: u64,
}

/// Whether one update of `elapsed_ms` real milliseconds fires a tick.
pub open spec fn clock_fires(s: Sim, elapsed_ms: int) -> bool {
    !s.paused && s.acc_ms + elapsed_ms * s.speed >= TICK_INTERVAL_MS as int
}

/// The clock after one update: paused clocks accumulate nothing, and a
/// firing update deducts exactly one interval, carrying the rest over.
pub open spec fn clock_next(s: Sim, elapsed_ms: int) -> Sim {
    if s.paused {
        s
    } else {
        let acc = s.acc_ms + elapsed_ms * s.speed;
        if acc >= TICK_INTERVAL_MS as int {
            Sim { paused: s.paused, speed: s.speed, acc_ms: (acc - TICK_INTERVAL_MS as int) as u64 }
        } else {
            Sim { paused: s.paused, speed: s.speed, acc_ms: acc as u64 }
        }
    }
}

impl Sim {
    /// A fresh clock: running, normal speed, nothing accumulated.
    pub fn new() -> (s: Sim)
        ensures
            s == (Sim { paused: false, speed: 1u32, acc_ms: 0u64 }),
    {
        Sim { paused: false, speed: 1, acc_ms: 0 }
    }

    /// Flip the paused flag; nothing else changes.
    pub fn toggle_paused(&mut self)
        ensures
            final(self).paused == !old(self).paused,
            final(self).speed == old(self).speed,
            final(self).acc_ms == old(self).acc_ms,
    {
        self.paused = !self.paused;
    }

    /// Set the speed multiplier; it takes effect on the next accumulation.
    pub fn set_speed(&mut self, speed: u32)
        requires
            speed >= 1,
        ensures
            final(self).speed == speed,
            final(self).paused == old(self).paused,
            final(self).acc_ms == old(self).acc_ms,
    {
        self.speed = speed;
    }

    /// Accumulate `elapsed_ms` real milliseconds, scaled by the speed
    /// multiplier, and report whether a tick fires.  At most one tick fires
    /// per update; leftover time carries into the next update.
    pub fn advance(&mut self, elapsed_ms: u64) -> (fired: bool)
        requires
            old(self).acc_ms + elapsed_ms * old(self).speed <= u64::MAX,
        ensures
            *final(self) == clock_next(*old(self), elapsed_ms as int),
            fired == clock_fires(*old(self), elapsed_ms as int),
    {
        if self.paused {
            return false;
        }
        let add = elapsed_ms * (self.speed as u64);
        self.acc_ms = self.acc_ms + add;
        if self.acc_ms >= TICK_INTERVAL_MS {
            self.acc_ms = self.acc_ms - TICK_INTERVAL_MS;
            true
        } else {
            false
        }
    }
}

/// A mathematical snapshot of everything one tick reads and writes: the
/// grid, the reservation table, the colony stockpile and every pawn.
#[verifier::ext_equal]
pub struct SimSnapshot {
    pub tiles: Seq<Tile>,
    pub reserved: Map<u64, u32>,
    pub wood: int,
    pub agents: Seq<Agent>,
}

/// The snapshot of the live simulation state.
pub open spec fn snapshot_of(map: WorldMap, r: Reservations, c: Colony, agents: Seq<Agent>) -> SimSnapshot {
    SimSnapshot { tiles: map.tiles@, reserved: r.reserved_tiles@, wood: c.wood as int, agents }
}

/// One pawn's transition for one tick, exactly as the task table defines it:
/// idle pawns search and claim, travelling pawns take one greedy step,
/// chopping pawns accumulate progress and fell the tree on the tenth
/// increment, and deposited inventory moves to the colony stockpile.
pub open spec fn step_agent_spec(s: SimSnapshot, i: int) -> SimSnapshot {
    let a = s.agents[i];
    match a.task {
        Task::Idle => match nearest_tree_spec(
            s.tiles,
            s.reserved,
            a.pawn.x as int,
            a.pawn.y as int,
        ) {
            Option::None => SimSnapshot {
                tiles: s.tiles,
                reserved: s.reserved,
                wood: s.wood,
                agents: s.agents.update(i, a),
            },
            Option::Some(tree) => SimSnapshot {
                tiles: s.tiles,
                reserved: s.reserved.insert(spec_key(tree.x as int, tree.y as int), a.pawn.id),
                wood: s.wood,
                agents: s.agents.update(
                    i,
                    Agent { pawn: a.pawn, task: Task::GoToTree(tree), inv: a.inv },
                ),
            },
        },
        Task::GoToTree(at) => {
            let (nx, ny) = step_spec(a.pawn.x as int, a.pawn.y as int, at.x as int, at.y as int);
            let moved = Pawn { id: a.pawn.id, x: nx as i32, y: ny as i32 };
            let next = if moved.x == at.x && moved.y == at.y {
                Task::Chop { at, progress: 0u8 }
            } else {
                Task::GoToTree(at)
            };
            SimSnapshot {
                tiles: s.tiles,
                reserved: s.reserved,
                wood: s.wood,
                agents: s.agents.update(i, Agent { pawn: moved, task: next, inv: a.inv }),
            }
        },
        Task::Chop { at, progress } => {
            if tile_at(s.tiles, at.x as int, at.y as int) != Tile::Tree {
                SimSnapshot {
                    tiles: s.tiles,
                    reserved: release_spec(s.reserved, at.x as int, at.y as int, a.pawn.id),
                    wood: s.wood,
                    agents: s.agents.update(
                        i,
                        Agent { pawn: a.pawn, task: Task::Idle, inv: a.inv },
                    ),
                }
            } else if progress + 1 < CHOP_TICKS {
                SimSnapshot {
                    tiles: s.tiles,
                    reserved: s.reserved,
                    wood: s.wood,
                    agents: s.agents.update(
                        i,
                        Agent {
                            pawn: a.pawn,
                            task: Task::Chop { at, progress: (progress + 1) as u8 },
                            inv: a.inv,
                        },
                    ),
                }
            } else {
                SimSnapshot {
                    tiles: s.tiles.update(spec_idx(at.x as int, at.y as int), Tile::Ground),
                    reserved: release_spec(s.reserved, at.x as int, at.y as int, a.pawn.id),
                    wood: s.wood,
                    agents: s.agents.update(
                        i,
                        Agent {
                            pawn: a.pawn,
                            task: Task::GoToStockpile,
                            inv: Inventory { wood: (a.inv.wood + 1) as u32 },
                        },
                    ),
                }
            }
        },
        Task::GoToStockpile => {
            let (nx, ny) = step_spec(
                a.pawn.x as int,
                a.pawn.y as int,
                STOCKPILE_X as int,
                STOCKPILE_Y as int,
            );
            let moved = Pawn { id: a.pawn.id, x: nx as i32, y: ny as i32 };
            let next = if moved.x == STOCKPILE_X && moved.y == STOCKPILE_Y {
                Task::DropOff
            } else {
                Task::GoToStockpile
            };
            SimSnapshot {
                tiles: s.tiles,
                reserved: s.reserved,
                wood: s.wood,
                agents: s.agents.update(i, Agent { pawn: moved, task: next, inv: a.inv }),
            }
        },
        Task::DropOff => SimSnapshot {
            tiles: s.tiles,
            reserved: s.reserved,
            wood: s.wood + a.inv.wood,
            agents: s.agents.update(
                i,
                Agent { pawn: a.pawn, task: Task::Idle, inv: Inventory { wood: 0u32 } },
            ),
        },
    }
}

/// The snapshot after the first `i` pawns of one tick have acted, each
/// seeing the effects of the pawns before it.
pub open spec fn tick_upto(s: SimSnapshot, i: nat) -> SimSnapshot
    decreases i,
{
    if i == 0 {
        s
    } else {
        step_agent_spec(tick_upto(s, (i - 1) as nat), i - 1)
    }
}

/// One whole simulation tick: every pawn acts once, in order.
pub open spec fn tick_spec(s: SimSnapshot) -> SimSnapshot {
    tick_upto(s, s.agents.len())
}

/// `n` whole ticks in sequence.
pub open spec fn tick_n(s: SimSnapshot, n: nat) -> SimSnapshot
    decreases n,
{
    if n == 0 {
        s
    } else {
        tick_spec(tick_n(s, (n - 1) as nat))
    }
}

/// A pawn whose position, travel target and chop progress all make sense.
pub open spec fn agent_wf(a: Agent) -> bool {
    &&& in_bounds_spec(a.pawn.x as int, a.pawn.y as int)
    &&& match a.task {
        Task::GoToTree(at) => in_bounds_spec(at.x as int, at.y as int),
        Task::Chop { at, progress } => in_bounds_spec(at.x as int, at.y as int) && progress
            < CHOP_TICKS,
        _ => true,
    }
}

/// The coordinate a task lays claim to, if any: the tree a pawn walks to
/// or stands chopping.
pub open spec fn claim_of(t: Task) -> Option<Coord> {
    match t {
        Task::GoToTree(at) => Some(at),
        Task::Chop { at, progress } => Some(at),
        _ => None,
    }
}

/// The agent's claimed coordinate has table key `k`.
pub open spec fn claims_key(a: Agent, k: u64) -> bool {
    match claim_of(a.task) {
        Option::Some(at) => spec_key(at.x as int, at.y as int) == k,
        Option::None => false,
    }
}

/// No two pawns share an id.
pub open spec fn ids_unique(agents: Seq<Agent>) -> bool {
    forall|i: int, j: int|
        0 <= i < j < agents.len() ==> #[trigger] agents[i].pawn.id != #[trigger] agents[j].pawn.id
}

/// Pawn `i`'s claim, if it has one, is recorded in the table under its id.
pub open spec fn claim_recorded(reserved: Map<u64, u32>, agents: Seq<Agent>, i: int) -> bool {
    match claim_of(agents[i].task) {
        Option::Some(at) => holder(reserved, at.x as int, at.y as int) == Some(agents[i].pawn.id),
        Option::None => true,
    }
}

/// Every pawn's claim is in the table.
pub open spec fn res_covers(reserved: Map<u64, u32>, agents: Seq<Agent>) -> bool {
    forall|i: int| 0 <= i < agents.len() ==> #[trigger] claim_recorded(reserved, agents, i)
}

/// Every table entry belongs to some pawn whose task claims that key.
pub open spec fn res_backed(reserved: Map<u64, u32>, agents: Seq<Agent>) -> bool {
    forall|k: u64| #[trigger]
        reserved.contains_key(k) ==> exists|i: int|
            0 <= i < agents.len() && #[trigger] claims_key(agents[i], k) && agents[i].pawn.id
                == reserved[k]
}

/// The whole-simulation invariant: the grid has its full size, every pawn is
/// well formed with a distinct id, and the reservation table and the pawns'
/// tasks agree exactly — every claim is recorded, every record is claimed.
pub open spec fn state_wf(s: SimSnapshot) -> bool {
    &&& s.tiles.len() == (MAP_W as int) * (MAP_H as int)
    &&& forall|i: int| 0 <= i < s.agents.len() ==> agent_wf(#[trigger] s.agents[i])
    &&& ids_unique(s.agents)
    &&& res_covers(s.reserved, s.agents)
    &&& res_backed(s.reserved, s.agents)
}

/// Replacing a pawn by one with the same id keeps all ids distinct.
proof fn lemma_ids_after_update(agents: Seq<Agent>, i: int, b: Agent)
    requires
        0 <= i < agents.len(),
        ids_unique(agents),
        b.pawn.id == agents[i].pawn.id,
    ensures
        ids_unique(agents.update(i, b)),
        forall|j: int|
            0 <= j < agents.len() ==> #[trigger] agents.update(i, b)[j].pawn.id
                == agents[j].pawn.id,
{
    let ag2 = agents.update(i, b);
    assert forall|j: int| 0 <= j < agents.len() implies #[trigger] ag2[j].pawn.id
        == agents[j].pawn.id by {}
}

/// Replacing a pawn by one making the same claim keeps table and tasks in
/// exact agreement.
proof fn lemma_res_same_claim(reserved: Map<u64, u32>, agents: Seq<Agent>, i: int, b: Agent)
    requires
        0 <= i < agents.len(),
        res_covers(reserved, agents),
        res_backed(reserved, agents),
        claim_of(b.task) == claim_of(agents[i].task),
        b.pawn.id == agents[i].pawn.id,
    ensures
        res_covers(reserved, agents.update(i, b)),
        res_backed(reserved, agents.update(i, b)),
{
    let ag2 = agents.update(i, b);
    assert forall|j: int| 0 <= j < ag2.len() implies #[trigger] claim_recorded(
        reserved,
        ag2,
        j,
    ) by {
        assert(claim_recorded(reserved, agents, j));
    }
    assert forall|k: u64| #[trigger] reserved.contains_key(k) implies exists|j: int|
        0 <= j < ag2.len() && #[trigger] claims_key(ag2[j], k) && ag2[j].pawn.id
            == reserved[k] by {
        let j = choose|j: int|
            0 <= j < agents.len() && #[trigger] claims_key(agents[j], k) && agents[j].pawn.id
                == reserved[k];
        assert(claims_key(ag2[j], k) && ag2[j].pawn.id == reserved[k]);
    }
}

/// Recording a fresh claim — an unreserved coordinate, claimed by the acting
/// pawn's new task — keeps table and tasks in exact agreement.
proof fn lemma_res_after_reserve(
    reserved: Map<u64, u32>,
    agents: Seq<Agent>,
    i: int,
    tree: Coord,
    b: Agent,
)
    requires
        0 <= i < agents.len(),
        res_covers(reserved, agents),
        res_backed(reserved, agents),
        holder(reserved, tree.x as int, tree.y as int) is None,
        claim_of(agents[i].task) is None,
        claim_of(b.task) == Some(tree),
        b.pawn.id == agents[i].pawn.id,
    ensures
        ({
            let r2 = reserved.insert(spec_key(tree.x as int, tree.y as int), agents[i].pawn.id);
            let ag2 = agents.update(i, b);
            res_covers(r2, ag2) && res_backed(r2, ag2)
        }),
{
    let tk = spec_key(tree.x as int, tree.y as int);
    let r2 = reserved.insert(tk, agents[i].pawn.id);
    let ag2 = agents.update(i, b);
    assert(!reserved.contains_key(tk));
    assert forall|j: int| 0 <= j < ag2.len() implies #[trigger] claim_recorded(r2, ag2, j) by {
        if j == i {
            assert(r2.contains_key(tk) && r2[tk] == b.pawn.id);
        } else {
            assert(claim_recorded(reserved, agents, j));
            match claim_of(agents[j].task) {
                Option::Some(at) => {
                    let kj = spec_key(at.x as int, at.y as int);
                    assert(reserved.contains_key(kj));
                    assert(kj != tk);
                },
                Option::None => {},
            }
        }
    }
    assert forall|k: u64| #[trigger] r2.contains_key(k) implies exists|j: int|
        0 <= j < ag2.len() && #[trigger] claims_key(ag2[j], k) && ag2[j].pawn.id == r2[k] by {
        if k == tk {
            assert(claims_key(ag2[i], k) && ag2[i].pawn.id == r2[k]);
        } else {
            assert(reserved.contains_key(k));
            let j = choose|j: int|
                0 <= j < agents.len() && #[trigger] claims_key(agents[j], k) && agents[j].pawn.id
                    == reserved[k];
            assert(j != i);
            assert(claims_key(ag2[j], k) && ag2[j].pawn.id == r2[k]);
        }
    }
}

/// Releasing the acting pawn's own claim while its new task claims nothing
/// keeps table and tasks in exact agreement; no other entry is touched.
proof fn lemma_res_after_release(
    reserved: Map<u64, u32>,
    agents: Seq<Agent>,
    i: int,
    at: Coord,
    b: Agent,
)
    requires
        0 <= i < agents.len(),
        ids_unique(agents),
        res_covers(reserved, agents),
        res_backed(reserved, agents),
        claim_of(agents[i].task) == Some(at),
        claim_of(b.task) is None,
        b.pawn.id == agents[i].pawn.id,
    ensures
        ({
            let r2 = release_spec(reserved, at.x as int, at.y as int, agents[i].pawn.id);
            let ag2 = agents.update(i, b);
            &&& res_covers(r2, ag2)
            &&& res_backed(r2, ag2)
            &&& forall|x: int, y: int|
                holder(reserved, x, y) is Some && holder(reserved, x, y) != Some(
                    agents[i].pawn.id,
                ) ==> holder(r2, x, y) == holder(reserved, x, y)
        }),
{
    let me = agents[i].pawn.id;
    let ak = spec_key(at.x as int, at.y as int);
    let r2 = release_spec(reserved, at.x as int, at.y as int, me);
    let ag2 = agents.update(i, b);
    assert(claim_recorded(reserved, agents, i));
    assert(holder(reserved, at.x as int, at.y as int) == Some(me));
    assert(r2 == reserved.remove(ak));
    assert forall|j: int| 0 <= j < ag2.len() implies #[trigger] claim_recorded(r2, ag2, j) by {
        if j != i {
            assert(claim_recorded(reserved, agents, j));
            match claim_of(agents[j].task) {
                Option::Some(atj) => {
                    let kj = spec_key(atj.x as int, atj.y as int);
                    if kj == ak {
                        assert(holder(reserved, atj.x as int, atj.y as int) == holder(
                            reserved,
                            at.x as int,
                            at.y as int,
                        ));
                        assert(agents[j].pawn.id == me);
                        assert(j == i);
                    }
                },
                Option::None => {},
            }
        }
    }
    assert forall|k: u64| #[trigger] r2.contains_key(k) implies exists|j: int|
        0 <= j < ag2.len() && #[trigger] claims_key(ag2[j], k) && ag2[j].pawn.id == r2[k] by {
        assert(k != ak);
        assert(reserved.contains_key(k));
        let j = choose|j: int|
            0 <= j < agents.len() && #[trigger] claims_key(agents[j], k) && agents[j].pawn.id
                == reserved[k];
        assert(j != i);
        assert(claims_key(ag2[j], k) && ag2[j].pawn.id == r2[k]);
    }
    assert forall|x: int, y: int|
        holder(reserved, x, y) is Some && holder(reserved, x, y) != Some(me) implies holder(
        r2,
        x,
        y,
    ) == holder(reserved, x, y) by {
        if spec_key(x, y) == ak {
            assert(holder(reserved, x, y) == holder(reserved, at.x as int, at.y as int));
        }
    }
}

/// One pawn's transition preserves the whole-simulation invariant.  It also
/// leaves every other pawn untouched, keeps every pawn's id, never shrinks
/// the stockpile, only ever turns tree tiles to ground, and leaves alone
/// both the tile and the table entry of any coordinate held by another pawn.
pub proof fn lemma_step_agent_preserves(s: SimSnapshot, i: int)
    requires
        state_wf(s),
        0 <= i < s.agents.len(),
    ensures
        ({
            let s2 = step_agent_spec(s, i);
            let me = s.agents[i].pawn.id;
            &&& state_wf(s2)
            &&& s2.agents.len() == s.agents.len()
            &&& forall|j: int| 0 <= j < s.agents.len() && j != i ==> s2.agents[j] == s.agents[j]
            &&& forall|j: int|
                0 <= j < s.agents.len() ==> #[trigger] s2.agents[j].pawn.id == s.agents[j].pawn.id
            &&& s2.wood >= s.wood
            &&& forall|x: int, y: int|
                in_bounds_spec(x, y) ==> #[trigger] tile_at(s2.tiles, x, y) == tile_at(
                    s.tiles,
                    x,
                    y,
                ) || (tile_at(s.tiles, x, y) == Tile::Tree && tile_at(s2.tiles, x, y)
                    == Tile::Ground)
            &&& forall|x: int, y: int|
                in_bounds_spec(x, y) && holder(s.reserved, x, y) is Some && holder(s.reserved, x, y)
                    != Some(me) ==> #[trigger] holder(s2.reserved, x, y) == holder(s.reserved, x, y)
                    && #[trigger] tile_at(s2.tiles, x, y) == tile_at(s.tiles, x, y)
        }),
{
    let n = s.agents.len() as int;
    let a = s.agents[i];
    let s2 = step_agent_spec(s, i);
    assert(agent_wf(a));
    assert(claim_recorded(s.reserved, s.agents, i));
    match a.task {
        Task::Idle => {
            lemma_nearest_characterization(s.tiles, s.reserved, a.pawn.x as int, a.pawn.y as int);
            match nearest_tree_spec(s.tiles, s.reserved, a.pawn.x as int, a.pawn.y as int) {
                Option::None => {
                    lemma_ids_after_update(s.agents, i, a);
                    lemma_res_same_claim(s.reserved, s.agents, i, a);
                    assert forall|j: int| 0 <= j < n implies agent_wf(
                        #[trigger] s2.agents[j],
                    ) by {
                        assert(agent_wf(s.agents[j]));
                    }
                },
                Option::Some(tree) => {
                    let b = Agent { pawn: a.pawn, task: Task::GoToTree(tree), inv: a.inv };
                    assert(candidate(s.tiles, s.reserved, tree.x as int, tree.y as int));
                    lemma_ids_after_update(s.agents, i, b);
                    lemma_res_after_reserve(s.reserved, s.agents, i, tree, b);
                    assert forall|j: int| 0 <= j < n implies agent_wf(
                        #[trigger] s2.agents[j],
                    ) by {
                        assert(agent_wf(s.agents[j]));
                    }
                    assert forall|x: int, y: int|
                        in_bounds_spec(x, y) && holder(s.reserved, x, y) is Some && holder(
                            s.reserved,
                            x,
                            y,
                        ) != Some(a.pawn.id) implies holder(s2.reserved, x, y) == holder(
                        s.reserved,
                        x,
                        y,
                    ) by {
                        if spec_key(x, y) == spec_key(tree.x as int, tree.y as int) {
                            assert(holder(s.reserved, x, y) == holder(
                                s.reserved,
                                tree.x as int,
                                tree.y as int,
                            ));
                        }
                    }
                },
            }
        },
        Task::GoToTree(at) => {
            let (nx, ny) = step_spec(a.pawn.x as int, a.pawn.y as int, at.x as int, at.y as int);
            let moved = Pawn { id: a.pawn.id, x: nx as i32, y: ny as i32 };
            let next = if moved.x == at.x && moved.y == at.y {
                Task::Chop { at, progress: 0u8 }
            } else {
                Task::GoToTree(at)
            };
            let b = Agent { pawn: moved, task: next, inv: a.inv };
            assert(claim_of(b.task) == claim_of(a.task));
            lemma_ids_after_update(s.agents, i, b);
            lemma_res_same_claim(s.reserved, s.agents, i, b);
            assert(in_bounds_spec(nx, ny));
            assert forall|j: int| 0 <= j < n implies agent_wf(#[trigger] s2.agents[j]) by {
                assert(agent_wf(s.agents[j]));
            }
        },
        Task::Chop { at, progress } => {
            if tile_at(s.tiles, at.x as int, at.y as int) != Tile::Tree {
                let b = Agent { pawn: a.pawn, task: Task::Idle, inv: a.inv };
                lemma_ids_after_update(s.agents, i, b);
                lemma_res_after_release(s.reserved, s.agents, i, at, b);
                assert forall|j: int| 0 <= j < n implies agent_wf(#[trigger] s2.agents[j]) by {
                    assert(agent_wf(s.agents[j]));
                }
            } else if progress + 1 < CHOP_TICKS {
                let b = Agent {
                    pawn: a.pawn,
                    task: Task::Chop { at, progress: (progress + 1) as u8 },
                    inv: a.inv,
                };
                assert(claim_of(b.task) == claim_of(a.task));
                lemma_ids_after_update(s.agents, i, b);
                lemma_res_same_claim(s.reserved, s.agents, i, b);
                assert forall|j: int| 0 <= j < n implies agent_wf(#[trigger] s2.agents[j]) by {
                    assert(agent_wf(s.agents[j]));
                }
            } else {
                let b = Agent {
                    pawn: a.pawn,
                    task: Task::GoToStockpile,
                    inv: Inventory { wood: (a.inv.wood + 1) as u32 },
                };
                lemma_ids_after_update(s.agents, i, b);
                lemma_res_after_release(s.reserved, s.agents, i, at, b);
                assert forall|j: int| 0 <= j < n implies agent_wf(#[trigger] s2.agents[j]) by {
                    assert(agent_wf(s.agents[j]));
                }
                let ai = spec_idx(at.x as int, at.y as int);
                assert forall|x: int, y: int| in_bounds_spec(x, y) implies #[trigger] tile_at(
                    s2.tiles,
                    x,
                    y,
                ) == tile_at(s.tiles, x, y) || (tile_at(s.tiles, x, y) == Tile::Tree && tile_at(
                    s2.tiles,
                    x,
                    y,
                ) == Tile::Ground) by {
                    if spec_idx(x, y) == ai {
                        crate::world::lemma_spec_idx_injective(x, y, at.x as int, at.y as int);
                    }
                }
                assert forall|x: int, y: int|
                    in_bounds_spec(x, y) && holder(s.reserved, x, y) is Some && holder(
                        s.reserved,
                        x,
                        y,
                    ) != Some(a.pawn.id) implies #[trigger] tile_at(s2.tiles, x, y) == tile_at(
                    s.tiles,
                    x,
                    y,
                ) by {
                    if spec_idx(x, y) == ai {
                        crate::world::lemma_spec_idx_injective(x, y, at.x as int, at.y as int);
                        assert(holder(s.reserved, x, y) == Some(a.pawn.id));
                    }
                }
            }
        },
        Task::GoToStockpile => {
            let (nx, ny) = step_spec(
                a.pawn.x as int,
                a.pawn.y as int,
                STOCKPILE_X as int,
                STOCKPILE_Y as int,
            );
            let moved = Pawn { id: a.pawn.id, x: nx as i32, y: ny as i32 };
            let next = if moved.x == STOCKPILE_X && moved.y == STOCKPILE_Y {
                Task::DropOff
            } else {
                Task::GoToStockpile
            };
            let b = Agent { pawn: moved, task: next, inv: a.inv };
            assert(claim_of(b.task) == claim_of(a.task));
            lemma_ids_after_update(s.agents, i, b);
            lemma_res_same_claim(s.reserved, s.agents, i, b);
            assert(in_bounds_spec(STOCKPILE_X as int, STOCKPILE_Y as int));
            assert(in_bounds_spec(nx, ny));
            assert forall|j: int| 0 <= j < n implies agent_wf(#[trigger] s2.agents[j]) by {
                assert(agent_wf(s.agents[j]));
            }
        },
        Task::DropOff => {
            let b = Agent { pawn: a.pawn, task: Task::Idle, inv: Inventory { wood: 0u32 } };
            assert(claim_of(b.task) == claim_of(a.task));
            lemma_ids_after_update(s.agents, i, b);
            lemma_res_same_claim(s.reserved, s.agents, i, b);
            assert forall|j: int| 0 <= j < n implies agent_wf(#[trigger] s2.agents[j]) by {
                assert(agent_wf(s.agents[j]));
            }
        },
    }
}

/// The prefix of a tick preserves the whole-simulation invariant, leaves
/// the pawns not yet processed untouched, keeps every pawn's id, never
/// shrinks the stockpile and only ever turns tree tiles to ground.
pub proof fn lemma_tick_upto_preserves(s: SimSnapshot, i: nat)
    requires
        state_wf(s),
        i <= s.agents.len(),
    ensures
        ({
            let s2 = tick_upto(s, i);
            &&& state_wf(s2)
            &&& s2.agents.len() == s.agents.len()
            &&& forall|j: int| i <= j < s.agents.len() ==> s2.agents[j] == s.agents[j]
            &&& forall|j: int|
                0 <= j < s.agents.len() ==> #[trigger] s2.agents[j].pawn.id == s.agents[j].pawn.id
            &&& s2.wood >= s.wood
            &&& forall|x: int, y: int|
                in_bounds_spec(x, y) ==> #[trigger] tile_at(s2.tiles, x, y) == tile_at(
                    s.tiles,
                    x,
                    y,
                ) || (tile_at(s.tiles, x, y) == Tile::Tree && tile_at(s2.tiles, x, y)
                    == Tile::Ground)
        }),
    decreases i,
{
    if i > 0 {
        let s1 = tick_upto(s, (i - 1) as nat);
        let s2 = tick_upto(s, i);
        lemma_tick_upto_preserves(s, (i - 1) as nat);
        lemma_step_agent_preserves(s1, i - 1);
        assert forall|x: int, y: int| in_bounds_spec(x, y) implies #[trigger] tile_at(
            s2.tiles,
            x,
            y,
        ) == tile_at(s.tiles, x, y) || (tile_at(s.tiles, x, y) == Tile::Tree && tile_at(
            s2.tiles,
            x,
            y,
        ) == Tile::Ground) by {
            assert(tile_at(s1.tiles, x, y) == tile_at(s.tiles, x, y) || (tile_at(s.tiles, x, y)
                == Tile::Tree && tile_at(s1.tiles, x, y) == Tile::Ground));
            assert(tile_at(s2.tiles, x, y) == tile_at(s1.tiles, x, y) || (tile_at(s1.tiles, x, y)
                == Tile::Tree && tile_at(s2.tiles, x, y) == Tile::Ground));
        }
    }
}

/// One whole tick preserves the whole-simulation invariant; tiles only ever
/// go from tree to ground, and the stockpile never shrinks.
pub proof fn lemma_tick_preserves(s: SimSnapshot)
    requires
        state_wf(s),
    ensures
        ({
            let s2 = tick_spec(s);
            &&& state_wf(s2)
            &&& s2.agents.len() == s.agents.len()
            &&& s2.wood >= s.wood
            &&& forall|x: int, y: int|
                in_bounds_spec(x, y) ==> #[trigger] tile_at(s2.tiles, x, y) == tile_at(
                    s.tiles,
                    x,
                    y,
                ) || (tile_at(s.tiles, x, y) == Tile::Tree && tile_at(s2.tiles, x, y)
                    == Tile::Ground)
        }),
{
    lemma_tick_upto_preserves(s, s.agents.len());
}

/// A freshly started simulation — pawns whose tasks claim nothing yet, with
/// distinct ids, on an empty reservation table — satisfies the
/// whole-simulation invariant; every tick then preserves it
/// (`lemma_tick_preserves`), so it holds at all times.
pub proof fn lemma_initial_state_wf(s: SimSnapshot)
    requires
        s.tiles.len() == (MAP_W as int) * (MAP_H as int),
        s.reserved == Map::<u64, u32>::empty(),
        forall|i: int| 0 <= i < s.agents.len() ==> agent_wf(#[trigger] s.agents[i]),
        forall|i: int| 0 <= i < s.agents.len() ==> claim_of(#[trigger] s.agents[i].task) is None,
        ids_unique(s.agents),
    ensures
        state_wf(s),
{
    assert forall|i: int| 0 <= i < s.agents.len() implies #[trigger] claim_recorded(
        s.reserved,
        s.agents,
        i,
    ) by {
        assert(claim_of(s.agents[i].task) is None);
    }
}

/// A coordinate is held by at most one pawn — the table is a map, so one
/// coordinate can never carry two entries — and a pawn holds at most one
/// coordinate: two reservations under the same id are the same coordinate.
pub proof fn lemma_reservation_exclusive(
    s: SimSnapshot,
    x1: int,
    y1: int,
    x2: int,
    y2: int,
    a: u32,
)
    requires
        state_wf(s),
        in_bounds_spec(x1, y1),
        in_bounds_spec(x2, y2),
        holder(s.reserved, x1, y1) == Some(a),
        holder(s.reserved, x2, y2) == Some(a),
    ensures
        x1 == x2 && y1 == y2,
{
    let n = s.agents.len() as int;
    let k1 = spec_key(x1, y1);
    let k2 = spec_key(x2, y2);
    assert(s.reserved.contains_key(k1) && s.reserved[k1] == a);
    assert(s.reserved.contains_key(k2) && s.reserved[k2] == a);
    let i1 = choose|i: int|
        0 <= i < n && #[trigger] claims_key(s.agents[i], k1) && s.agents[i].pawn.id
            == s.reserved[k1];
    let i2 = choose|i: int|
        0 <= i < n && #[trigger] claims_key(s.agents[i], k2) && s.agents[i].pawn.id
            == s.reserved[k2];
    if i1 != i2 {
        assert(s.agents[i1].pawn.id != s.agents[i2].pawn.id);
    }
    assert(i1 == i2);
    assert(k1 == k2);
    lemma_key_injective(x1, y1, x2, y2);
}

/// The stockpile tile's kind never changes across any sequence of ticks.
pub proof fn lemma_depot_preserved(s: SimSnapshot, n: nat)
    requires
        state_wf(s),
        tile_at(s.tiles, STOCKPILE_X as int, STOCKPILE_Y as int) == Tile::Stockpile,
    ensures
        state_wf(tick_n(s, n)),
        tile_at(tick_n(s, n).tiles, STOCKPILE_X as int, STOCKPILE_Y as int) == Tile::Stockpile,
    decreases n,
{
    if n > 0 {
        lemma_depot_preserved(s, (n - 1) as nat);
        let sp = tick_n(s, (n - 1) as nat);
        lemma_tick_preserves(sp);
        assert(in_bounds_spec(STOCKPILE_X as int, STOCKPILE_Y as int));
        assert(tile_at(tick_spec(sp).tiles, STOCKPILE_X as int, STOCKPILE_Y as int)
            == Tile::Stockpile);
    }
}

proof fn lemma_harvest_upto(s: SimSnapshot, i: int, at: Coord, progress: u8, j: nat)
    requires
        state_wf(s),
        0 <= i < s.agents.len(),
        s.agents[i].task == (Task::Chop { at, progress }),
        s.agents[i].inv.wood < u32::MAX,
        tile_at(s.tiles, at.x as int, at.y as int) == Tile::Tree,
        j <= s.agents.len(),
    ensures
        ({
            let sj = tick_upto(s, j);
            if j <= i {
                &&& sj.agents[i] == s.agents[i]
                &&& tile_at(sj.tiles, at.x as int, at.y as int) == Tile::Tree
                &&& holder(sj.reserved, at.x as int, at.y as int) == Some(s.agents[i].pawn.id)
            } else {
                &&& sj.agents[i].pawn == s.agents[i].pawn
                &&& if progress + 1 < CHOP_TICKS {
                    &&& sj.agents[i].task == (Task::Chop {
                        at,
                        progress: (progress + 1) as u8,
                    })
                    &&& sj.agents[i].inv == s.agents[i].inv
                    &&& tile_at(sj.tiles, at.x as int, at.y as int) == Tile::Tree
                    &&& holder(sj.reserved, at.x as int, at.y as int) == Some(
                        s.agents[i].pawn.id,
                    )
                } else {
                    &&& sj.agents[i].task == Task::GoToStockpile
                    &&& sj.agents[i].inv.wood == s.agents[i].inv.wood + 1
                    &&& tile_at(sj.tiles, at.x as int, at.y as int) == Tile::Ground
                }
            }
        }),
    decreases j,
{
    let me = s.agents[i].pawn.id;
    assert(agent_wf(s.agents[i]));
    assert(claim_recorded(s.reserved, s.agents, i));
    if j > 0 {
        let sp = tick_upto(s, (j - 1) as nat);
        lemma_harvest_upto(s, i, at, progress, (j - 1) as nat);
        lemma_tick_upto_preserves(s, (j - 1) as nat);
        lemma_step_agent_preserves(sp, j - 1);
        if j - 1 == i {
            // the chopping pawn acts: its task is still the same chop
            assert(sp.agents[i] == s.agents[i]);
            assert(tile_at(sp.tiles, at.x as int, at.y as int) == Tile::Tree);
        } else {
            // another pawn acts; its id differs, so it cannot hold this
            // tile's reservation, and the step lemma's frame keeps both the
            // tile and the table entry as they were
            assert(sp.agents[j - 1].pawn.id == s.agents[j - 1].pawn.id);
            assert(s.agents[j - 1].pawn.id != me);
            if (j - 1) as int > i && progress + 1 < CHOP_TICKS {
                assert(holder(sp.reserved, at.x as int, at.y as int) == Some(me));
            }
            if (j - 1) as int > i && progress + 1 >= CHOP_TICKS {
                assert(tile_at(sp.tiles, at.x as int, at.y as int) == Tile::Ground);
            }
        }
    }
}

/// While a pawn chops a tree it holds the tile's reservation, so no other
/// pawn can fell or claim that tile: each tick raises the pawn's progress by
/// exactly one, leaving tile and inventory alone, and the tenth increment
/// fells the tree — the tile becomes ground — and adds exactly one wood to
/// that pawn's inventory.
pub proof fn lemma_harvest_progress(s: SimSnapshot, i: int, at: Coord, progress: u8)
    requires
        state_wf(s),
        0 <= i < s.agents.len(),
        s.agents[i].task == (Task::Chop { at, progress }),
        s.agents[i].inv.wood < u32::MAX,
        tile_at(s.tiles, at.x as int, at.y as int) == Tile::Tree,
    ensures
        ({
            let s2 = tick_spec(s);
            &&& s2.agents[i].pawn == s.agents[i].pawn
            &&& if progress + 1 < CHOP_TICKS {
                &&& s2.agents[i].task == (Task::Chop { at, progress: (progress + 1) as u8 })
                &&& s2.agents[i].inv == s.agents[i].inv
                &&& tile_at(s2.tiles, at.x as int, at.y as int) == Tile::Tree
            } else {
                &&& s2.agents[i].task == Task::GoToStockpile
                &&& s2.agents[i].inv.wood == s.agents[i].inv.wood + 1
                &&& tile_at(s2.tiles, at.x as int, at.y as int) == Tile::Ground
            }
        }),
{
    lemma_harvest_upto(s, i, at, progress, s.agents.len());
}

/// The multi-tick form of harvest progress: a pawn that keeps chopping sees
/// its progress rise by exactly one per whole tick, with the tile, its
/// position and its inventory untouched, for as long as the total stays
/// short of the chop duration.  One further tick — the tenth increment —
/// then fells the tree and pays out exactly one wood
/// (`lemma_harvest_progress`).
pub proof fn lemma_harvest_to_completion(s: SimSnapshot, i: int, at: Coord, progress: u8, k: nat)
    requires
        state_wf(s),
        0 <= i < s.agents.len(),
        s.agents[i].task == (Task::Chop { at, progress }),
        s.agents[i].inv.wood < u32::MAX,
        tile_at(s.tiles, at.x as int, at.y as int) == Tile::Tree,
        progress + k < CHOP_TICKS,
    ensures
        ({
            let sk = tick_n(s, k);
            &&& state_wf(sk)
            &&& sk.agents.len() == s.agents.len()
            &&& sk.agents[i].task == (Task::Chop { at, progress: (progress + k) as u8 })
            &&& sk.agents[i].inv == s.agents[i].inv
            &&& sk.agents[i].pawn == s.agents[i].pawn
            &&& tile_at(sk.tiles, at.x as int, at.y as int) == Tile::Tree
        }),
    decreases k,
{
    if k > 0 {
        lemma_harvest_to_completion(s, i, at, progress, (k - 1) as nat);
        let sp = tick_n(s, (k - 1) as nat);
        lemma_tick_preserves(sp);
        lemma_harvest_progress(sp, i, at, (progress + k - 1) as u8);
    }
}

/// Wood carried by the pawns from index `i` on.
pub open spec fn carried_from(agents: Seq<Agent>, i: int) -> int
    decreases agents.len() - i,
{
    if i < 0 || i >= agents.len() {
        0
    } else {
        agents[i].inv.wood + carried_from(agents, i + 1)
    }
}

proof fn lemma_carried_nonneg(agents: Seq<Agent>, i: int)
    ensures
        carried_from(agents, i) >= 0,
    decreases agents.len() - i,
{
    if 0 <= i < agents.len() {
        lemma_carried_nonneg(agents, i + 1);
    }
}

proof fn lemma_carried_congruent(a1: Seq<Agent>, a2: Seq<Agent>, i: int)
    requires
        a1.len() == a2.len(),
        forall|j: int| i <= j < a1.len() ==> a1[j] == a2[j],
    ensures
        carried_from(a1, i) == carried_from(a2, i),
    decreases a1.len() - i,
{
    if 0 <= i < a1.len() {
        lemma_carried_congruent(a1, a2, i + 1);
    }
}

/// One update of the simulation: gate on the clock, and when a tick fires,
/// let every pawn act once, in order, each seeing the grid and reservation
/// effects of the pawns before it — exactly the `tick_spec` fold.
pub fn tick_jobs(
    sim: &mut Sim,
    map: &mut WorldMap,
    stockpile: &mut Colony,
    reservations: &mut Reservations,
    agents: &mut Vec<Agent>,
    elapsed_ms: u64,
) -> (fired: bool)
    requires
        old(sim).acc_ms + elapsed_ms * old(sim).speed <= u64::MAX,
        state_wf(snapshot_of(*old(map), *old(reservations), *old(stockpile), old(agents)@)),
        old(stockpile).wood + carried_from(old(agents)@, 0) <= u32::MAX,
        forall|j: int|
            0 <= j < old(agents)@.len() ==> #[trigger] old(agents)@[j].inv.wood < u32::MAX,
    ensures
        *final(sim) == clock_next(*old(sim), elapsed_ms as int),
        fired == clock_fires(*old(sim), elapsed_ms as int),
        !fired ==> final(map).tiles@ == old(map).tiles@ && final(reservations).reserved_tiles@
            == old(reservations).reserved_tiles@ && final(stockpile).wood == old(stockpile).wood
            && final(agents)@ == old(agents)@,
        fired ==> snapshot_of(*final(map), *final(reservations), *final(stockpile), final(agents)@)
            == tick_spec(snapshot_of(*old(map), *old(reservations), *old(stockpile), old(agents)@)),
{
    let fired = sim.advance(elapsed_ms);
    if !fired {
        return false;
    }
    let ghost s0 = snapshot_of(*map, *reservations, *stockpile, agents@);
    let n = agents.len();
    let mut i: usize = 0;
    while i < n
        invariant
            state_wf(s0),
            n == s0.agents.len(),
            i <= n,
            agents.len() == n,
            snapshot_of(*map, *reservations, *stockpile, agents@) == tick_upto(s0, i as nat),
            stockpile.wood + carried_from(agents@, i as int) <= u32::MAX,
            forall|j: int| i <= j < n ==> #[trigger] agents@[j].inv.wood < u32::MAX,
        decreases n - i,
    {
        let ghost scur = tick_upto(s0, i as nat);
        proof {
            lemma_tick_upto_preserves(s0, i as nat);
            lemma_carried_nonneg(agents@, i as int + 1);
        }
        let a = agents[i];
        proof {
            assert(a == scur.agents[i as int]);
            assert(agent_wf(a));
        }
        let ghost pre_carried = carried_from(agents@, i as int);
        let next_agent = match a.task {
            Task::Idle => {
                let t = handle_idle(&a.pawn, map, reservations);
                Agent { pawn: a.pawn, task: t, inv: a.inv }
            },
            Task::GoToTree(at) => {
                let mut p = a.pawn;
                let t = handle_go_to_tree(&mut p, at);
                Agent { pawn: p, task: t, inv: a.inv }
            },
            Task::Chop { at, progress } => {
                let mut inv = a.inv;
                let t = handle_chop(a.pawn.id, map, &mut inv, at, progress, reservations);
                Agent { pawn: a.pawn, task: t, inv }
            },
            Task::GoToStockpile => {
                let mut p = a.pawn;
                let t = handle_go_to_stockpile(&mut p);
                Agent { pawn: p, task: t, inv: a.inv }
            },
            Task::DropOff => {
                let mut inv = a.inv;
                let t = handle_drop_off(&mut inv, stockpile);
                Agent { pawn: a.pawn, task: t, inv }
            },
        };
        let ghost pre_agents = agents@;
        agents.set(i, next_agent);
        proof {
            assert(snapshot_of(*map, *reservations, *stockpile, agents@) == step_agent_spec(
                scur,
                i as int,
            ));
            assert(step_agent_spec(scur, i as int) == tick_upto(s0, (i + 1) as nat));
            lemma_carried_congruent(pre_agents, agents@, i as int + 1);
        }
        i = i + 1;
    }
    proof {
        assert(tick_upto(s0, n as nat) == tick_spec(s0));
    }
    true
}

/// Fresh simulation bookkeeping: a running clock at normal speed, an empty
/// colony stockpile and an empty reservation table.
pub fn init() -> (r: (Sim, Colony, Reservations))
    ensures
        r.0 == (Sim { paused: false, speed: 1u32, acc_ms: 0u64 }),
        r.1.wood == 0,
        r.2.reserved_tiles@ == Map::<u64, u32>::empty(),
{
    (Sim::new(), Colony::default(), Reservations::new())
}

} // verus!
