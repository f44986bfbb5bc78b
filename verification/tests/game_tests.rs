use rust_trader::game::city::{City, CityData, RoadData};
use rust_trader::game::item::{Inventory, ItemDatabase, ItemType};
use rust_trader::game::player::PlayerState;
use rust_trader::graph::{Edge, NodeIndex};

fn item(key: &str, name: &str, value: u32) -> ItemType {
    ItemType { key: key.to_string(), name: name.to_string(), value }
}

#[test]
fn item_database_round_trip() {
    let mut db = ItemDatabase::new();
    let idx = db.insert(item("berries", "Berries", 3));

    assert_eq!(db.get_index("berries"), Some(idx));
    let found = db.get_item_by_key("berries").expect("item not found");
    assert_eq!(found.name, "Berries");
    assert_eq!(found.value, 3);
}

#[test]
fn item_database_missing_key_is_absent() {
    let mut db = ItemDatabase::new();
    db.insert(item("berries", "Berries", 3));

    assert_eq!(db.get_index("stones"), None);
    assert!(db.get_item_by_key("stones").is_none());
}

#[test]
fn item_database_duplicate_key_resolves_to_last() {
    let mut db = ItemDatabase::new();
    db.insert(item("berries", "Old Berries", 1));
    let newer = db.insert(item("berries", "New Berries", 2));

    assert_eq!(db.get_index("berries"), Some(newer));
    assert_eq!(db.get_item_by_key("berries").unwrap().name, "New Berries");
}

#[test]
fn inventory_accumulates_counts() {
    let mut db = ItemDatabase::new();
    let berries = db.insert(item("berries", "Berries", 3));
    let stones = db.insert(item("stones", "Stones", 1));

    let mut inv = Inventory::new();
    assert_eq!(inv.add_item(berries, 3), 3);
    assert_eq!(inv.add_item(stones, 2), 2);
    assert_eq!(inv.add_item(berries, 4), 7);
    assert_eq!(inv.add_item(stones, 1), 3);
}

#[test]
fn player_moves_and_remembers_places() {
    let start = NodeIndex(0);
    let town = NodeIndex(3);
    let mut player = PlayerState::new(start);
    assert_eq!(player.position, start);
    assert!(player.visited_places.is_empty());

    player.goto(town);
    assert_eq!(player.position, town);
    assert!(player.visited_places.contains(&town));

    player.goto(town);
    assert_eq!(player.visited_places.len(), 1);
}

#[test]
fn road_cost_is_its_distance() {
    let road = RoadData { name: "Old Road".to_string(), to: "Rivertown".to_string(), distance: 12 };
    assert_eq!(road.cost(), 12);
}

#[test]
fn city_from_data_carries_description() {
    let data = CityData {
        name: "Rivertown".to_string(),
        description: "A town by the river.".to_string(),
        roads: vec![RoadData {
            name: "Old Road".to_string(),
            to: "Hilltop".to_string(),
            distance: 5,
        }],
    };
    let city = City::from_data(&data);
    assert_eq!(city.name, "Rivertown");
    assert_eq!(city.description, "A town by the river.");
}
