//! City and road payloads: the raw, serializable description of a place
//! and its outgoing roads, and the in-game city built from it.

use vstd::prelude::*;

use crate::game::item::Inventory;
use crate::graph::Edge;

verus! {

/// Raw description of a city: its name, flavour text and outgoing roads.
#[derive(Debug)]
pub struct CityData {
    pub name: String,
    pub description: String,
    pub roads: Vec<RoadData>,
}

/// Raw description of a road: its name, the name of the city it leads to,
/// and its length in miles, which is its traversal cost.
#[derive(Debug, Clone)]
pub struct RoadData {
    pub name: String,
    pub to: String,
    pub distance: u32,
}

impl Edge for RoadData {
    open spec fn spec_cost(&self) -> u32 {
        self.distance
    }

    fn cost(&self) -> (c: u32) {
        self.distance
    }
}

/// An in-game city: the description carried over from its raw form, plus
/// the stock of items it holds.
pub struct City {
    pub name: String,
    pub description: String,
    pub inventory: Inventory,
}

impl City {
    /// Builds a city from its raw description, with an empty inventory.
    pub fn from_data(value: &CityData) -> (c: City)
        ensures
            c.name@ == value.name@,
            c.description@ == value.description@,
            c.inventory.wf(),
            c.inventory.entries() == Seq::<(crate::game::item::ItemIndex, u32)>::empty(),
    {
        City {
            name: value.name.clone(),
            description: value.description.clone(),
            inventory: Inventory::new(),
        }
    }
}

} // verus!
