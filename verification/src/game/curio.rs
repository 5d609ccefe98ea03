//! The things a player can find in a room.

use vstd::prelude::*;

verus! {

/// Something found in a room; using it changes the player's state.
#[derive(Debug)]
pub enum Curio {
    Chest(i32),
    SpikeTrap(i32),
    Food(i32),
    IronMaiden(Box<Curio>, i32),
    FallenAdventurer(Box<Curio>),
}

} // verus!
