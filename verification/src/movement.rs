//! Movement points and the unit movement lifecycle.
//!
//! A unit owns a position, a movement-point budget, and a movement range
//! that is wholly replaced after every change to either: on spawn, after a
//! committed move, and on demand when the obstacle set changes under it.

use vstd::prelude::*;

verus! {

use crate::hex::Axial;
use crate::hex::HexDistance;
use crate::range::range_matches;
use crate::range::search_room;

/// Why a requested move is refused.
#[derive(Clone, Copy, Debug, PartialEq, Eq, Structural)]
pub enum MoveError {
    /// The requested hex is not in the unit's current movement range.
    NotInRange,
    /// The move costs more movement points than the unit has left.
    InsufficientBudget,
}

/// Movement points of a unit: `base` granted per turn, `current` still
/// unspent. `current` never goes negative: a move that costs more is
/// refused before any state changes.
#[derive(Clone, Copy, Debug, PartialEq, Eq, Structural)]
pub struct Mp {
    pub base: usize,
    pub current: usize,
}

impl Mp {
    pub fn new(base: usize) -> (mp: Mp)
        ensures
            mp.base == base,
            mp.current == base,
    {
        Self { base, current: base }
    }
}

/// The movement range owned by one unit: `(hex, distance)` pairs, replaced
/// as a whole on every recomputation, never merged.
pub struct MovementRange {
    pub hexes: Vec<HexDistance>,
}

impl MovementRange {
    /// Compute the whole range afresh from a position, a budget, and an
    /// obstacle snapshot.
    pub fn recompute(origin: Axial, budget: usize, obstacles: &Vec<Axial>) -> (range:
        MovementRange)
        requires
            search_room(origin, budget),
        ensures
            range_matches(range.hexes@, origin, obstacles@, budget),
    {
        MovementRange { hexes: origin.new_bfs(obstacles, budget) }
    }

    /// The distance stored for `target`, when some entry carries it.
    pub fn lookup(&self, target: Axial) -> (found: Option<usize>)
        ensures
            match found {
                Some(d) => exists|i: int| 0 <= i < self.hexes@.len()
                    && #[trigger] self.hexes@[i] == (HexDistance { hex: target, distance: d }),
                None => forall|i: int| 0 <= i < self.hexes@.len()
                    ==> (#[trigger] self.hexes@[i]).hex != target,
            },
    {
        let mut i: usize = 0;
        while i < self.hexes.len()
            invariant
                0 <= i <= self.hexes@.len(),
                forall|j: int| 0 <= j < i ==> (#[trigger] self.hexes@[j]).hex != target,
            decreases self.hexes@.len() - i,
        {
            let hd: HexDistance = self.hexes[i];
            if hd.hex == target {
                proof {
                    assert(self.hexes@[i as int]
                        == (HexDistance { hex: target, distance: hd.distance }));
                }
                return Some(hd.distance);
            }
            i += 1;
        }
        None
    }
}

/// A unit as the movement core sees it: position, movement points, and the
/// movement range derived from them.
pub struct UnitState {
    pub pos: Axial,
    pub mp: Mp,
    pub range: MovementRange,
}

impl UnitState {
    /// The held range matches this position and budget against `obstacles`.
    pub open spec fn fresh(self, obstacles: Seq<Axial>) -> bool {
        range_matches(self.range.hexes@, self.pos, obstacles, self.mp.current)
    }

    /// Spawn a unit: a full budget and a freshly computed range against the
    /// obstacle snapshot at spawn time.
    pub fn spawn(pos: Axial, base: usize, obstacles: &Vec<Axial>) -> (u: UnitState)
        requires
            search_room(pos, base),
        ensures
            u.pos == pos,
            u.mp.base == base,
            u.mp.current == base,
            u.fresh(obstacles@),
    {
        UnitState {
            pos,
            mp: Mp::new(base),
            range: MovementRange::recompute(pos, base, obstacles),
        }
    }

    /// Recompute the range against the current obstacle snapshot without
    /// moving: the host-level hook for obstacle changes this unit's own
    /// moves did not cause.
    pub fn refresh(&mut self, obstacles: &Vec<Axial>)
        requires
            search_room(old(self).pos, old(self).mp.current),
        ensures
            final(self).pos == old(self).pos,
            final(self).mp == old(self).mp,
            final(self).fresh(obstacles@),
    {
        self.range = MovementRange::recompute(self.pos, self.mp.current, obstacles);
    }

    /// Commit a move the host has requested. A target outside the current
    /// range, or one whose stored distance exceeds the unspent points, is
    /// refused with nothing changed. Otherwise the unit moves, pays the
    /// distance, and its range is recomputed at once against `obstacles`.
    /// Returns the distance paid.
    pub fn try_move(&mut self, target: Axial, obstacles: &Vec<Axial>) -> (res: Result<
        usize,
        MoveError,
    >)
        requires
            search_room(target, old(self).mp.current),
        ensures
            match res {
                Ok(d) => {
                    &&& exists|i: int| 0 <= i < old(self).range.hexes@.len()
                        && #[trigger] old(self).range.hexes@[i]
                            == (HexDistance { hex: target, distance: d })
                    &&& d <= old(self).mp.current
                    &&& final(self).pos == target
                    &&& final(self).mp.base == old(self).mp.base
                    &&& final(self).mp.current == old(self).mp.current - d
                    &&& final(self).fresh(obstacles@)
                },
                Err(e) => {
                    &&& final(self).pos == old(self).pos
                    &&& final(self).mp == old(self).mp
                    &&& final(self).range.hexes@ == old(self).range.hexes@
                    &&& (e == MoveError::NotInRange
                        <==> forall|i: int| 0 <= i < old(self).range.hexes@.len()
                            ==> (#[trigger] old(self).range.hexes@[i]).hex != target)
                    &&& (e == MoveError::InsufficientBudget
                        ==> exists|i: int| 0 <= i < old(self).range.hexes@.len()
                            && (#[trigger] old(self).range.hexes@[i]).hex == target
                            && old(self).range.hexes@[i].distance > old(self).mp.current)
                },
            },
    {
        let found: Option<usize> = self.range.lookup(target);
        match found {
            None => Err(MoveError::NotInRange),
            Some(d) => {
                if d > self.mp.current {
                    Err(MoveError::InsufficientBudget)
                } else {
                    self.pos = target;
                    self.mp.current = self.mp.current - d;
                    self.range = MovementRange::recompute(self.pos, self.mp.current, obstacles);
                    Ok(d)
                }
            },
        }
    }
}

} // verus!
