//! Pawns: the simulated colonists, their task states and inventories.

use vstd::prelude::*;
use crate::config::{STOCKPILE_X, STOCKPILE_Y};
use crate::world::{in_bounds_spec, map_wf, tile_at, Tile, WorldMap};

verus! {

/// A grid coordinate.
#[derive(Clone, Copy, Debug, PartialEq, Eq, Structural)]
pub struct Coord {
    pub x: i32,
    pub y: i32,
}

/// One colonist: identity and discrete grid position.  The grid position is
/// the single source of truth; presentation derives everything from it.
#[derive(Clone, Copy, Debug, PartialEq, Eq, Structural)]
pub struct Pawn {
    pub id: u32,
    pub x: i32,
    pub y: i32,
}

/// The task a pawn is working on; exactly one variant is active per pawn and
/// every state has a successor on every tick.
#[derive(Clone, Copy, Debug, PartialEq, Eq, Structural)]
pub enum Task {
    /// No goal; searches for a tree next tick.
    Idle,
    /// Walking toward a reserved tree tile.
    GoToTree(Coord),
    /// Standing on a reserved tree tile, accumulating chop progress.
    Chop { at: Coord, progress: u8 },
    /// Walking toward the fixed stockpile tile.
    GoToStockpile,
    /// Arrived at the stockpile; transfers the inventory next tick.
    DropOff,
}

/// What a pawn carries: wood chopped but not yet deposited.
#[derive(Clone, Copy, Debug, PartialEq, Eq, Structural)]
pub struct Inventory {
    pub wood: u32,
}

impl Default for Inventory {
    /// A fresh pawn carries nothing.
    fn default() -> (i: Inventory)
        ensures
            i.wood == 0,
    {
        Inventory { wood: 0 }
    }
}

/// A whole simulated colonist: position, task and inventory together.
#[derive(Clone, Copy, Debug, PartialEq, Eq, Structural)]
pub struct Agent {
    pub pawn: Pawn,
    pub task: Task,
    pub inv: Inventory,
}

/// State of the square-spiral walk before emitting offset `k`: the offset
/// `(x, y)` from the centre and the current direction `(dx, dy)`.
pub open spec fn spiral_state(k: nat) -> (int, int, int, int)
    decreases k,
{
    if k == 0 {
        (0, 0, 0, -1)
    } else {
        let (x, y, dx, dy) = spiral_state((k - 1) as nat);
        let (dx2, dy2) = if x == y || (x < 0 && x == -y) || (x > 0 && x == 1 - y) {
            (-dy, dx)
        } else {
            (dx, dy)
        };
        (x + dx2, y + dy2, dx2, dy2)
    }
}

/// The spiral never strays further than `k` steps from the centre on either
/// axis, and its direction components stay unit-sized.
proof fn lemma_spiral_bounded(k: nat)
    ensures
        ({
            let (x, y, dx, dy) = spiral_state(k);
            &&& -(k as int) <= x <= k as int
            &&& -(k as int) <= y <= k as int
            &&& -1 <= dx <= 1
            &&& -1 <= dy <= 1
        }),
    decreases k,
{
    if k > 0 {
        lemma_spiral_bounded((k - 1) as nat);
    }
}

/// The `k`-th position of the square spiral around `center`.
pub open spec fn spiral_coord(center: Coord, k: nat) -> Coord {
    let (x, y, dx, dy) = spiral_state(k);
    Coord { x: (center.x + x) as i32, y: (center.y + y) as i32 }
}

/// The first `steps` positions of the square spiral around `center`.
pub open spec fn spiral_seq(center: Coord, steps: nat) -> Seq<Coord> {
    Seq::new(steps, |k: int| spiral_coord(center, k as nat))
}

/// Walk the square spiral around `center`, emitting every position of the
/// `(2r + 1) x (2r + 1)` block in spiral order.
pub fn spiral_positions(center: Coord, max_radius: i32) -> (r: Vec<Coord>)
    requires
        0 <= max_radius <= 1000,
        -100_000 <= center.x <= 100_000,
        -100_000 <= center.y <= 100_000,
    ensures
        r@ == spiral_seq(
            center,
            ((2 * max_radius + 1) * (2 * max_radius + 1)) as nat,
        ),
{
    let side: i64 = 2 * (max_radius as i64) + 1;
    assert(side * side <= 4_004_001) by (nonlinear_arith)
        requires
            1 <= side <= 2001,
    ;
    let steps: i64 = side * side;
    let mut out: Vec<Coord> = Vec::new();
    let mut x: i64 = 0;
    let mut y: i64 = 0;
    let mut dx: i64 = 0;
    let mut dy: i64 = -1;
    let mut k: i64 = 0;
    while k < steps
        invariant
            0 <= k <= steps,
            steps <= 4_004_001,
            -100_000 <= center.x <= 100_000,
            -100_000 <= center.y <= 100_000,
            out@.len() == k as int,
            (x as int, y as int, dx as int, dy as int) == spiral_state(k as nat),
            forall|j: int| 0 <= j < k ==> #[trigger] out@[j] == spiral_coord(center, j as nat),
        decreases steps - k,
    {
        proof {
            lemma_spiral_bounded(k as nat);
        }
        out.push(Coord { x: (center.x as i64 + x) as i32, y: (center.y as i64 + y) as i32 });
        let turn = x == y || (x < 0 && x == -y) || (x > 0 && x == 1 - y);
        if turn {
            let tmp = dx;
            dx = -dy;
            dy = tmp;
        }
        x = x + dx;
        y = y + dy;
        k = k + 1;
    }
    out
}

/// The smallest `r` at or above `start` whose square reaches `n` (callers
/// start at 0, so this is the rounded-up square root for any `n` below
/// `70 * 70`).
pub open spec fn sqrt_ceil_from(n: int, r: int) -> int
    decreases 70 - r,
{
    if r >= 70 || r * r >= n {
        r
    } else {
        sqrt_ceil_from(n, r + 1)
    }
}

/// Rounded-up integer square root, for sizing the spawn spiral.
fn int_sqrt_ceil(n: usize) -> (r: usize)
    requires
        n <= 4096,
    ensures
        r as int == sqrt_ceil_from(n as int, 0),
        r <= 64,
{
    let mut r: usize = 0;
    loop
        invariant
            n <= 4096,
            r <= 64,
            sqrt_ceil_from(n as int, 0) == sqrt_ceil_from(n as int, r as int),
        ensures
            r <= 64,
            r as int == sqrt_ceil_from(n as int, 0),
        decreases 65 - r,
    {
        proof {
            assert(r * r <= 4096) by (nonlinear_arith)
                requires
                    r <= 64,
            ;
        }
        let sq = r * r;
        if sq >= n {
            break;
        }
        proof {
            assert(r < 64) by (nonlinear_arith)
                requires
                    r * r < n,
                    n <= 4096,
                    r <= 64,
            ;
        }
        r = r + 1;
    }
    r
}

/// One selection step of the spawn scan: take the spiral position if more
/// pawns are wanted and it is an in-bounds, tree-free, not-yet-taken tile.
pub open spec fn spawn_step(tiles: Seq<Tile>, acc: Seq<Coord>, p: Coord, count: int) -> Seq<Coord> {
    if acc.len() < count && in_bounds_spec(p.x as int, p.y as int) && tile_at(
        tiles,
        p.x as int,
        p.y as int,
    ) != Tile::Tree && !acc.contains(p) {
        acc.push(p)
    } else {
        acc
    }
}

/// The spawn positions chosen among the first `k` spiral positions.
pub open spec fn spawn_fold(tiles: Seq<Tile>, spiral: Seq<Coord>, k: int, count: int) -> Seq<Coord>
    decreases k,
{
    if k <= 0 {
        Seq::empty()
    } else {
        spawn_step(tiles, spawn_fold(tiles, spiral, k - 1, count), spiral[k - 1], count)
    }
}

/// Every chosen spawn position is an in-bounds, tree-free tile, no position
/// repeats, and no more than `count` are chosen.
pub proof fn lemma_spawn_fold_props(tiles: Seq<Tile>, spiral: Seq<Coord>, k: int, count: int)
    requires
        count >= 0,
    ensures
        ({
            let chosen = spawn_fold(tiles, spiral, k, count);
            &&& chosen.len() <= count
            &&& forall|j: int|
                0 <= j < chosen.len() ==> in_bounds_spec(
                    #[trigger] chosen[j].x as int,
                    chosen[j].y as int,
                ) && tile_at(tiles, chosen[j].x as int, chosen[j].y as int) != Tile::Tree
            &&& forall|j1: int, j2: int|
                0 <= j1 < j2 < chosen.len() ==> #[trigger] chosen[j1] != #[trigger] chosen[j2]
        }),
    decreases k,
{
    if k > 0 {
        lemma_spawn_fold_props(tiles, spiral, k - 1, count);
        let prev = spawn_fold(tiles, spiral, k - 1, count);
        let chosen = spawn_fold(tiles, spiral, k, count);
        if chosen.len() > prev.len() {
            let p = spiral[k - 1];
            assert(!prev.contains(p));
            assert forall|j1: int, j2: int| 0 <= j1 < j2 < chosen.len() implies #[trigger] chosen[j1]
                != #[trigger] chosen[j2] by {
                if j2 == chosen.len() - 1 {
                    assert(prev[j1] == chosen[j1]);
                    if chosen[j1] == p {
                        assert(prev.contains(p));
                    }
                }
            }
        }
    }
}

/// Whether the list already holds this coordinate.
fn coords_contains(v: &Vec<Coord>, p: Coord) -> (r: bool)
    ensures
        r == v@.contains(p),
{
    let mut i: usize = 0;
    while i < v.len()
        invariant
            i <= v.len(),
            forall|j: int| 0 <= j < i ==> v@[j] != p,
        decreases v.len() - i,
    {
        if v[i] == p {
            return true;
        }
        i = i + 1;
    }
    false
}

/// Lay out up to `count` pawns on the free tiles nearest the stockpile:
/// walk the spiral outward, skipping tiles off the grid, tree tiles and
/// tiles already taken, and number the pawns in the order they are placed.
/// Every pawn starts idle with an empty inventory.
pub fn spawn_pawns(map: &WorldMap, count: usize) -> (pawns: Vec<Agent>)
    requires
        map_wf(*map),
        count <= 4096,
    ensures
        ({
            let radius = sqrt_ceil_from(count as int, 0) + 5;
            let steps = (2 * radius + 1) * (2 * radius + 1);
            let center = Coord { x: STOCKPILE_X, y: STOCKPILE_Y };
            let chosen = spawn_fold(
                map.tiles@,
                spiral_seq(center, steps as nat),
                steps,
                count as int,
            );
            &&& pawns@.len() == chosen.len()
            &&& pawns@.len() <= count
            &&& forall|j: int|
                0 <= j < pawns@.len() ==> #[trigger] pawns@[j] == (Agent {
                    pawn: Pawn { id: j as u32, x: chosen[j].x, y: chosen[j].y },
                    task: Task::Idle,
                    inv: Inventory { wood: 0u32 },
                })
        }),
{
    let center = Coord { x: STOCKPILE_X, y: STOCKPILE_Y };
    let root = int_sqrt_ceil(count);
    let max_radius = (root as i32) + 5;
    let spiral = spiral_positions(center, max_radius);
    let ghost tiles = map.tiles@;
    let ghost cnt = count as int;
    let mut chosen: Vec<Coord> = Vec::new();
    let mut i: usize = 0;
    while i < spiral.len()
        invariant
            map_wf(*map),
            tiles == map.tiles@,
            cnt == count as int,
            i <= spiral.len(),
            chosen@ == spawn_fold(tiles, spiral@, i as int, cnt),
            chosen@.len() <= count,
        decreases spiral.len() - i,
    {
        let p = spiral[i];
        if chosen.len() < count {
            if crate::world::in_bounds(p.x, p.y) {
                let t = crate::world::get(map, p.x, p.y);
                if !matches!(t, Tile::Tree) {
                    if !coords_contains(&chosen, p) {
                        chosen.push(p);
                    }
                }
            }
        }
        i = i + 1;
    }
    proof {
        lemma_spawn_fold_props(tiles, spiral@, spiral@.len() as int, cnt);
    }
    let mut pawns: Vec<Agent> = Vec::new();
    let mut j: usize = 0;
    while j < chosen.len()
        invariant
            chosen@.len() <= count <= 4096,
            j <= chosen.len(),
            pawns@.len() == j as int,
            forall|q: int|
                0 <= q < j ==> #[trigger] pawns@[q] == (Agent {
                    pawn: Pawn { id: q as u32, x: chosen@[q].x, y: chosen@[q].y },
                    task: Task::Idle,
                    inv: Inventory { wood: 0u32 },
                }),
        decreases chosen.len() - j,
    {
        let c = chosen[j];
        pawns.push(
            Agent {
                pawn: Pawn { id: j as u32, x: c.x, y: c.y },
                task: Task::Idle,
                inv: Inventory { wood: 0 },
            },
        );
        j = j + 1;
    }
    pawns
}

} // verus!
