//! The reservation table: an exclusive claim by one pawn on one tree tile.
//!
//! A coordinate maps to the id of the pawn that has claimed it.  A claim is
//! recorded only while the coordinate is free, so two pawns can never
//! converge on the same tree; a stale release (the caller no longer holds
//! the coordinate) is a silent no-op.

use vstd::prelude::*;
use std::collections::HashMap;
use crate::config::MAP_W;
use crate::world::in_bounds_spec;

verus! {

broadcast use vstd::std_specs::hash::group_hash_axioms;

/// Map from claimed tile coordinate (row-major key) to the claiming pawn's id.
pub struct Reservations {
    pub reserved_tiles: HashMap<u64, u32>,
}

/// Row-major table key of a coordinate.
pub open spec fn spec_key(x: int, y: int) -> u64 {
    (y * (MAP_W as int) + x) as u64
}

/// The pawn holding a coordinate, if any.
pub open spec fn holder(m: Map<u64, u32>, x: int, y: int) -> Option<u32> {
    if m.contains_key(spec_key(x, y)) {
        Some(m[spec_key(x, y)])
    } else {
        None
    }
}

/// The table after a release: the entry goes away only when `agent` holds it.
pub open spec fn release_spec(m: Map<u64, u32>, x: int, y: int, agent: u32) -> Map<u64, u32> {
    if holder(m, x, y) == Some(agent) {
        m.remove(spec_key(x, y))
    } else {
        m
    }
}

/// Distinct in-bounds coordinates get distinct table keys.
pub proof fn lemma_key_injective(x1: int, y1: int, x2: int, y2: int)
    requires
        in_bounds_spec(x1, y1),
        in_bounds_spec(x2, y2),
        spec_key(x1, y1) == spec_key(x2, y2),
    ensures
        x1 == x2 && y1 == y2,
{
    assert(y1 * (MAP_W as int) + x1 == y2 * (MAP_W as int) + x2);
}

/// Releasing a coordinate/agent pair a second time (or after another agent
/// has taken the coordinate over) leaves the table exactly as it was: the
/// release operation is idempotent and never corrupts other entries.
pub proof fn lemma_release_idempotent(m: Map<u64, u32>, x: int, y: int, agent: u32)
    ensures
        release_spec(release_spec(m, x, y, agent), x, y, agent) == release_spec(m, x, y, agent),
{
    let once = release_spec(m, x, y, agent);
    assert(holder(once, x, y) != Some(agent));
}

impl Reservations {
    /// An empty table: no coordinate is claimed.
    pub fn new() -> (r: Reservations)
        ensures
            r.reserved_tiles@ == Map::<u64, u32>::empty(),
    {
        Reservations { reserved_tiles: HashMap::new() }
    }

    /// Row-major table key of an in-bounds coordinate.
    fn key(x: i32, y: i32) -> (k: u64)
        requires
            in_bounds_spec(x as int, y as int),
        ensures
            k == spec_key(x as int, y as int),
    {
        (y * MAP_W + x) as u64
    }

    /// Record a claim on a coordinate for `agent`.  Succeeds, and mutates the
    /// table, exactly when the coordinate was unreserved; there is no steal.
    pub fn reserve(&mut self, x: i32, y: i32, agent: u32) -> (ok: bool)
        requires
            in_bounds_spec(x as int, y as int),
        ensures
            ok == (holder(old(self).reserved_tiles@, x as int, y as int) is None),
            ok ==> final(self).reserved_tiles@ == old(self).reserved_tiles@.insert(
                spec_key(x as int, y as int),
                agent,
            ),
            !ok ==> final(self).reserved_tiles@ == old(self).reserved_tiles@,
    {
        let k = Self::key(x, y);
        if self.reserved_tiles.contains_key(&k) {
            false
        } else {
            self.reserved_tiles.insert(k, agent);
            true
        }
    }

    /// Drop the claim on a coordinate, but only if `agent` currently holds
    /// it; a stale release is a silent no-op.
    pub fn release(&mut self, x: i32, y: i32, agent: u32)
        requires
            in_bounds_spec(x as int, y as int),
        ensures
            final(self).reserved_tiles@ == release_spec(
                old(self).reserved_tiles@,
                x as int,
                y as int,
                agent,
            ),
    {
        let k = Self::key(x, y);
        let held_by_agent = match self.reserved_tiles.get(&k) {
            Some(a) => *a == agent,
            None => false,
        };
        if held_by_agent {
            self.reserved_tiles.remove(&k);
        }
    }

    /// Whether any pawn currently holds the coordinate.
    pub fn is_reserved(&self, x: i32, y: i32) -> (r: bool)
        requires
            in_bounds_spec(x as int, y as int),
        ensures
            r == (holder(self.reserved_tiles@, x as int, y as int) is Some),
    {
        let k = Self::key(x, y);
        self.reserved_tiles.contains_key(&k)
    }
}

} // verus!
