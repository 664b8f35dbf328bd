use hearthwork::items::{
    load_item_definitions, manifest_path, placeholder_sprite, Inventory, ItemDef, ItemRaw, StructureDef,
    Taxonomy, Transport,
};
use hearthwork::manifest::{populate_index, unset_id, AssetEvent, Definition, Id, IndexMap, Indexable, Manifest};
use hearthwork::player::{inventory_grid, spawn_player, GridCell};
use hearthwork::random::Seed;
use rand::rngs::StdRng;
use rand::SeedableRng;
use std::collections::HashMap;

fn id(s: &str) -> Id {
    Id::new(s.to_string())
}

#[test]
fn manifest_files_definitions_under_their_ids() {
    let m = Manifest::from_entries(vec![
        (id("windmill"), Definition { id: unset_id(), value: 1 }),
        (id("miner"), Definition { id: unset_id(), value: 2 }),
    ]);
    let d = m.get(&id("miner")).unwrap();
    assert_eq!(d.value, 2);
    assert_eq!(d.id.value, "miner");
    assert!(m.contains(&id("windmill")));
    assert!(!m.contains(&id("mill")));
    assert!(m.get(&id("mill")).is_none());
    assert_eq!(unset_id().value, "<unset>");
    assert!(id("a").same(&id("a")));
    assert!(!id("a").same(&id("b")));
}

#[test]
fn index_keeps_the_latest_asset_per_id() {
    let mut index = IndexMap::new();
    index.insert("doll".to_string(), 1);
    index.insert("sack".to_string(), 2);
    index.insert("doll".to_string(), 3);
    assert_eq!(index.get(&"doll".to_string()), Some(3));
    assert_eq!(index.get(&"sack".to_string()), Some(2));
    assert_eq!(index.get(&"flora_a".to_string()), None);
}

#[test]
fn item_definitions() {
    assert_eq!(placeholder_sprite(), "sprites/items/placeholder.png");
    let raw = ItemRaw {
        id: "doll".into(),
        name: "Doll".into(),
        description: "A doll".into(),
        sprite: "sprites/items/doll.png".into(),
        stack_size: 20,
        taxonomy: Taxonomy::Flora,
        transport: Transport::Bag,
    };
    let def = ItemDef::from_toml(raw, 42);
    assert_eq!(def.sprite, 42);
    assert_eq!(def.index(), "doll");
    assert_eq!(def.stack_size, 20);
    assert_eq!(manifest_path(&"sack".to_string()), "manifests/sack.item.toml");
    let reg = load_item_definitions();
    let names: Vec<&str> = reg.items.iter().map(|(n, _)| n.as_str()).collect();
    assert_eq!(names, vec!["doll", "fauna_a", "flora_a", "quintessence", "ritual_doll", "sack"]);
    assert_eq!(reg.items[4].1, "manifests/ritual_doll.item.toml");
}

#[test]
fn inventory_counts() {
    let mut inv = Inventory::with_single(3, 1);
    inv.add_one(3);
    inv.add_one(4);
    assert_eq!(inv.get(3), Some(2));
    assert_eq!(inv.get(4), Some(1));
    inv.take_one(3);
    assert_eq!(inv.get(3), Some(1));
}

#[test]
fn player_starts_with_a_stack_of_each_item() {
    let mut rng = Seed(StdRng::seed_from_u64(11));
    let slots = spawn_player(1, &vec![4, 5, 6], &mut rng);
    assert!(slots.iter().all(|s| s.owner == 1));
    assert_eq!(slots.iter().map(|s| s.stack.unwrap().item).collect::<Vec<_>>(), vec![4, 5, 6]);
    assert!(slots.iter().all(|s| s.stack.unwrap().quantity < 100));
}

#[test]
fn inventory_grid_is_ten_cells_five_wide() {
    let cells = inventory_grid(&vec![1, 2]);
    assert_eq!(cells.len(), 10);
    assert_eq!(cells[0], GridCell { column: 1, row: 1, item: Some(1) });
    assert_eq!(cells[1], GridCell { column: 2, row: 1, item: Some(2) });
    assert_eq!(cells[6], GridCell { column: 2, row: 2, item: None });
    assert_eq!(cells[9], GridCell { column: 5, row: 2, item: None });
}

#[test]
fn taking_one_after_adding_one_restores_the_count() {
    let mut inv = Inventory::with_single(4, 10);
    inv.add_one(4);
    assert_eq!(inv.get(4), Some(11));
    inv.take_one(4);
    assert_eq!(inv.get(4), Some(10));
    // an item without an entry keeps an entry of zero
    inv.add_one(5);
    inv.take_one(5);
    assert_eq!(inv.get(5), Some(0));
}

fn item_def(id: &str) -> ItemDef {
    ItemDef::from_toml(
        ItemRaw {
            id: id.to_string(),
            name: id.to_uppercase(),
            description: String::new(),
            sprite: placeholder_sprite(),
            stack_size: 10,
            taxonomy: Taxonomy::Flora,
            transport: Transport::Bag,
        },
        0,
    )
}

#[test]
fn added_assets_are_indexed_under_their_ids() {
    let mut assets = HashMap::new();
    assets.insert(1u64, item_def("doll"));
    assets.insert(2u64, item_def("sack"));
    let mut index = IndexMap::new();
    let events = vec![
        AssetEvent::Added(1),
        AssetEvent::Modified(2),
        AssetEvent::Added(3),
        AssetEvent::Added(2),
    ];
    populate_index(&events, &assets, &mut index);
    assert_eq!(index.get(&"doll".to_string()), Some(1));
    assert_eq!(index.get(&"sack".to_string()), Some(2));
    assert_eq!(index.entries.len(), 2);
    // a later asset with the same id takes its place
    assets.insert(4u64, item_def("doll"));
    populate_index(&vec![AssetEvent::Added(4)], &assets, &mut index);
    assert_eq!(index.get(&"doll".to_string()), Some(4));
}

#[test]
fn structures_are_indexed_under_their_ids() {
    let mut assets = HashMap::new();
    assets.insert(
        9u64,
        StructureDef { id: "smelter".to_string(), name: "Smelter".to_string(), default_recipe: None },
    );
    let mut index = IndexMap::new();
    populate_index(&vec![AssetEvent::Added(9), AssetEvent::Removed(9)], &assets, &mut index);
    assert_eq!(assets[&9].index(), "smelter");
    assert_eq!(index.get(&"smelter".to_string()), Some(9));
}
