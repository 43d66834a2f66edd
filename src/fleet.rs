//! The fleet a player still has to place: a count of ships per length.
use vstd::prelude::*;

use crate::field::{placement, ShipPlacementError};
use crate::player::Player;
use crate::ship::Ship;

verus! {

/// Ships of each length still to be placed.
pub struct FleetInventory {
    left: Vec<usize>,
}

/// Entry `length` of `counts`, or zero past its end.
pub open spec fn count_of(counts: Seq<usize>, length: int) -> nat {
    if 0 <= length < counts.len() {
        counts[length] as nat
    } else {
        0
    }
}

/// The verdict on placing `ship` on `g` with `left` ships of its length
/// still to place: the field's own checks first, then the inventory.
pub open spec fn fleet_verdict(g: Seq<Seq<crate::field::FieldCell>>, left: nat, ship: Ship) -> Result<(), ShipPlacementError> {
    match placement(g, ship) {
        Err(e) => Err(e),
        Ok(_) => if left == 0 {
            Err(ShipPlacementError::NoShipsOfLengthLeft(ship.length))
        } else {
            Ok(())
        },
    }
}

impl FleetInventory {
    /// Ships of length `length` still to place.
    pub closed spec fn count(&self, length: int) -> nat {
        count_of(self.left@, length)
    }

    /// The reference fleet: one ship of length 4, two of length 3, three of
    /// length 2 and four of length 1.
    pub fn reference() -> (r: FleetInventory)
        ensures
            r.count(1) == 4,
            r.count(2) == 3,
            r.count(3) == 2,
            r.count(4) == 1,
            forall|length: int| length < 1 || length > 4 ==> #[trigger] r.count(length) == 0,
    {
        FleetInventory { left: vec![0, 4, 3, 2, 1] }
    }

    /// Ships of length `length` still to place.
    pub fn left(&self, length: usize) -> (r: usize)
        ensures
            r == self.count(length as int),
    {
        if length < self.left.len() {
            self.left[length]
        } else {
            0
        }
    }

    /// Whether `player` may place `ship` now: it must pass the field's
    /// checks, and a ship of its length must be left.
    pub fn check(&self, player: &Player, ship: &Ship) -> (r: Result<(), ShipPlacementError>)
        requires
            player.wf(),
        ensures
            r == fleet_verdict(player.own(), self.count(ship.length as int), *ship),
    {
        match player.can_place(ship) {
            Err(error) => {
                return Err(error);
            },
            Ok(()) => {},
        }
        if self.left(ship.length) == 0 {
            return Err(ShipPlacementError::NoShipsOfLengthLeft(ship.length));
        }
        Ok(())
    }

    /// Counts one ship of length `length` as placed.
    pub fn take(&mut self, length: usize)
        requires
            old(self).count(length as int) > 0,
        ensures
            final(self).count(length as int) == old(self).count(length as int) - 1,
            forall|other: int| other != length ==> #[trigger] final(self).count(other) == old(self).count(other),
    {
        let n = self.left[length];
        self.left.set(length, n - 1);
    }
}

} // verus!
