//! The travel-simulation data model built on the graph engine: city and
//! road payloads, the item catalog and inventories, the player state, and
//! the serialized world description.

pub mod city;
pub mod item;
pub mod player;
pub mod world;
