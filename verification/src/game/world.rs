//! The serialized world description: the starting position and the raw
//! city and item definitions, as read from a world file by the program
//! around this library.

use vstd::prelude::*;

use crate::game::city::CityData;
use crate::game::item::ItemType;

verus! {

/// A whole world as described by a world file: where the player starts,
/// the cities with their roads, and the item kinds.
#[derive(Debug)]
pub struct WorldData {
    pub starting_position: String,
    pub cities: Vec<CityData>,
    pub items: Vec<ItemType>,
}

} // verus!
