use hearthwork::hotbar::{
    assign_path_slot, assign_structures, deselect_on_use, highlight_selected_slot, places_path,
    select, select_on_keyboard_shortcuts, HotbarActionKind, HotbarSelection, HotbarSelectionChanged,
};
use hearthwork::menus::{
    close_menu, inventory_grid_display, open_recipe_menu, on_deselect_recipe, on_inspect, on_inventory_hotkey,
    on_recipe_click, on_tome_inspect, radio_select, refresh_tab_style, toggle_compendium_state,
    toggle_debug_mode, toggle_inventory_book, toggle_inventory_ui_state, toggle_tome_open, tome_display,
    CheckChange, CompendiumState, InspectionMenuState, PlayerInventoryUiState, TomeTab, UiDisplay,
};
use hearthwork::path_sprite::{
    cardinal_tiles, compute_sprite, construction_at, segment_slice_name, segments_to_refresh, spawn_path, TileCoord,
};
use hearthwork::selection::Selection;
use hearthwork::manifest::IndexMap;
use hearthwork::slots::{SlotBoard, SlotEvent};
use std::collections::{HashMap, HashSet};

#[test]
fn dragging_onto_an_occupied_slot_swaps() {
    let mut b = SlotBoard { occupant: vec![Some(100), None, Some(200)] };
    let events = b.drag_and_drop(100, 2);
    assert_eq!(b.occupant, vec![Some(200), None, Some(100)]);
    assert_eq!(
        events,
        vec![
            SlotEvent::RemovedFromSlot { slot: 0, item: 100 },
            SlotEvent::RemovedFromSlot { slot: 2, item: 200 },
            SlotEvent::AddedToSlot { slot: 0, item: 200 },
            SlotEvent::AddedToSlot { slot: 2, item: 100 },
        ]
    );
    // dropping it back restores the board
    b.drag_and_drop(100, 0);
    assert_eq!(b.occupant, vec![Some(100), None, Some(200)]);
}

#[test]
fn dragging_onto_an_empty_slot_moves() {
    let mut b = SlotBoard { occupant: vec![Some(100), None] };
    let events = b.drag_and_drop(100, 1);
    assert_eq!(b.occupant, vec![None, Some(100)]);
    assert_eq!(
        events,
        vec![SlotEvent::RemovedFromSlot { slot: 0, item: 100 }, SlotEvent::AddedToSlot { slot: 1, item: 100 }]
    );
}

#[test]
fn dragging_onto_own_slot_or_unslotted_item_does_nothing() {
    let mut b = SlotBoard { occupant: vec![Some(100), None] };
    assert!(b.drag_and_drop(100, 0).is_empty());
    assert!(b.drag_and_drop(7, 1).is_empty());
    assert_eq!(b.occupant, vec![Some(100), None]);
}

#[test]
fn hotbar_selection_toggles() {
    let mut sel = None;
    assert_eq!(select(&mut sel, Some(4)), Some(HotbarSelectionChanged { previous: None, current: Some(4) }));
    assert_eq!(sel, Some(4));
    assert_eq!(select(&mut sel, Some(5)), Some(HotbarSelectionChanged { previous: Some(4), current: Some(5) }));
    assert_eq!(select(&mut sel, Some(5)), Some(HotbarSelectionChanged { previous: Some(5), current: None }));
    assert_eq!(sel, None);
    assert_eq!(select(&mut sel, None), None);
    assert_eq!(sel, None);
}

#[test]
fn hotbar_action_and_deselect_after_use() {
    let mut slot_actions = HashMap::new();
    slot_actions.insert(1, 11);
    slot_actions.insert(2, 12);
    let mut kinds = HashMap::new();
    kinds.insert(11, HotbarActionKind::PlaceStructure(3));
    kinds.insert(12, HotbarActionKind::PlacePath);
    let mut hotbar = HotbarSelection { selected: Some(2), slot_actions: slot_actions.clone(), kinds };
    assert_eq!(hotbar.action(), Some(HotbarActionKind::PlacePath));
    hotbar.selected = Some(1);
    assert_eq!(hotbar.action(), Some(HotbarActionKind::PlaceStructure(3)));
    hotbar.selected = Some(3);
    assert_eq!(hotbar.action(), None);
    hotbar.selected = None;
    assert_eq!(hotbar.action(), None);
    assert!(places_path(Some(HotbarActionKind::PlacePath)));
    assert!(!places_path(Some(HotbarActionKind::PlaceStructure(3))));
    assert!(!places_path(None));

    let mut persisted = HashSet::new();
    persisted.insert(12);
    let mut sel = Some(2);
    assert_eq!(deselect_on_use(&mut sel, &slot_actions, &persisted), None);
    assert_eq!(sel, Some(2));
    let mut sel = Some(1);
    assert_eq!(
        deselect_on_use(&mut sel, &slot_actions, &persisted),
        Some(HotbarSelectionChanged { previous: Some(1), current: None })
    );
    assert_eq!(sel, None);
}

#[test]
fn hotbar_slots_are_filled_in_order() {
    let actions = assign_structures(&vec![1, 2, 3], &vec![(10, "smelter".to_string()), (20, "mill".to_string())]);
    assert_eq!(actions.len(), 2);
    assert_eq!((actions[0].slot, actions[0].kind), (1, HotbarActionKind::PlaceStructure(10)));
    assert_eq!(actions[0].sprite, "sprites/structures/smelter.aseprite");
    assert_eq!((actions[1].slot, actions[1].kind), (2, HotbarActionKind::PlaceStructure(20)));
    assert_eq!(actions[1].sprite, "sprites/structures/mill.aseprite");
    assert!(!actions[0].persist);
    let path = assign_path_slot(&vec![3, 4]).unwrap();
    assert_eq!((path.slot, path.kind, path.persist), (3, HotbarActionKind::PlacePath, true));
    assert_eq!(path.sprite, "sprites/logistics/path_segments.aseprite");
    assert!(assign_path_slot(&vec![]).is_none());
    let mut highlighted = Some(1);
    assert_eq!(highlight_selected_slot(&mut highlighted, Some(2)), (Some(1), Some(2)));
    assert_eq!(highlighted, Some(2));
    assert_eq!(highlight_selected_slot(&mut highlighted, None), (Some(2), None));
    assert_eq!(highlighted, Some(2));
}

#[test]
fn segment_names() {
    assert_eq!(segment_slice_name(false, false, false, false), "C");
    assert_eq!(segment_slice_name(true, true, true, true), "NESW");
    assert_eq!(segment_slice_name(false, true, false, true), "EW");
    assert_eq!(segment_slice_name(true, false, true, false), "NS");
    assert_eq!(segment_slice_name(false, false, true, false), "S");
}

#[test]
fn segment_sprite_from_constructions() {
    let c = TileCoord { x: 5, y: 5 };
    let constructions = vec![(c, 1), (TileCoord { x: 5, y: 6 }, 2), (TileCoord { x: 4, y: 5 }, 3)];
    assert_eq!(compute_sprite(&constructions, c), "NW");
    assert_eq!(compute_sprite(&vec![(c, 1)], c), "C");
    assert_eq!(segments_to_refresh(&constructions, c), vec![1, 2, 3]);
}

#[test]
fn segment_on_the_edge_counts_itself_as_neighbour() {
    let c = TileCoord { x: 0, y: 0 };
    let around = cardinal_tiles(c);
    assert_eq!(around, vec![TileCoord { x: 0, y: 1 }, TileCoord { x: 1, y: 0 }, c, c]);
    assert_eq!(compute_sprite(&vec![(c, 1)], c), "SW");
}

#[test]
fn selection_for_dismantling() {
    let mut s = Selection::new();
    s.pointer_over(4, true);
    s.pointer_over(4, true);
    s.pointer_over(5, false);
    s.pointer_over(6, true);
    assert_eq!(s.entities, [4, 6].into_iter().collect::<HashSet<usize>>());
    s.pointer_out(4, true);
    assert_eq!(s.entities, [4, 6].into_iter().collect::<HashSet<usize>>());
    s.pointer_out(4, false);
    assert_eq!(s.entities, [6].into_iter().collect::<HashSet<usize>>());
    s.pointer_over(7, true);
    let mut gone = s.dismantle();
    gone.sort();
    assert_eq!(gone, vec![6, 7]);
    assert!(s.entities.is_empty());
    s.pointer_over(8, true);
    s.clear();
    assert!(s.entities.is_empty());
}

#[test]
fn menu_toggles() {
    assert_eq!(toggle_compendium_state(CompendiumState::Closed), CompendiumState::Item);
    assert_eq!(toggle_compendium_state(CompendiumState::Item), CompendiumState::Closed);
    assert_eq!(toggle_inventory_ui_state(PlayerInventoryUiState::Closed), PlayerInventoryUiState::Open);
    assert_eq!(on_inventory_hotkey(false, PlayerInventoryUiState::Closed), None);
    assert_eq!(on_inventory_hotkey(true, PlayerInventoryUiState::Open), Some(PlayerInventoryUiState::Closed));
    assert_eq!(inventory_grid_display(PlayerInventoryUiState::Open), UiDisplay::Grid);
    assert_eq!(inventory_grid_display(PlayerInventoryUiState::Closed), UiDisplay::Hidden);
    assert!(toggle_debug_mode(false));
    assert!(!toggle_tome_open(true));
    assert_eq!(tome_display(true), UiDisplay::Flex);
    assert_eq!(tome_display(false), UiDisplay::Hidden);
    assert!(toggle_inventory_book(false));
    assert!(!toggle_inventory_book(true));
}

#[test]
fn inspection_menu_states() {
    assert_eq!(on_inspect(true), InspectionMenuState::RecipeInspect);
    assert_eq!(on_inspect(false), InspectionMenuState::RecipeSelect);
    assert_eq!(close_menu(), InspectionMenuState::Closed);
    let id = "smelt_iron".to_string();
    let (request, next) = on_recipe_click(7, Some(&id)).unwrap();
    assert_eq!((request.entity, request.recipe_id.as_str(), next), (7, "smelt_iron", InspectionMenuState::RecipeInspect));
    assert!(on_recipe_click(7, None).is_none());
    let mut selected = Some(id.clone());
    assert_eq!(on_deselect_recipe(&mut selected), InspectionMenuState::RecipeSelect);
    assert_eq!(selected, None);
    assert_eq!(on_tome_inspect(), (true, TomeTab::Inspect));
}

#[test]
fn tab_buttons_follow_the_current_tab() {
    let tabs = vec![(1, TomeTab::Items, true), (2, TomeTab::People, false), (3, TomeTab::Recipes, false)];
    assert_eq!(
        refresh_tab_style(TomeTab::People, &tabs),
        vec![(1, CheckChange::Uncheck), (2, CheckChange::Check)]
    );
    assert_eq!(
        radio_select(&vec![1, 4], 2),
        vec![(1, CheckChange::Uncheck), (4, CheckChange::Uncheck), (2, CheckChange::Check)]
    );
}

#[test]
fn recipe_menu_shows_selected_recipe_with_its_stacks() {
    let mut index = IndexMap::new();
    index.insert("smelt_iron".to_string(), 7);
    let recipes = vec![(3u64, 1_000u128), (7u64, 2_500_000_000u128)];
    let id = "smelt_iron".to_string();
    let menu = open_recipe_menu(Some(&id), vec![10, 11], vec![12], Some(40), &index, &recipes).unwrap();
    assert_eq!(menu.recipe, 7);
    assert_eq!(menu.duration_nanos, 2_500_000_000);
    assert_eq!(menu.inputs, vec![10, 11]);
    assert_eq!(menu.relic, Some(40));
    assert_eq!(menu.outputs, vec![12]);
}

#[test]
fn recipe_menu_needs_a_selected_indexed_and_loaded_recipe() {
    let mut index = IndexMap::new();
    index.insert("smelt_iron".to_string(), 7);
    let recipes = vec![(3u64, 1_000u128)];
    let id = "smelt_iron".to_string();
    let other = "bake_bread".to_string();
    assert!(open_recipe_menu(None, vec![], vec![], None, &index, &recipes).is_none());
    assert!(open_recipe_menu(Some(&other), vec![], vec![], None, &index, &recipes).is_none());
    assert!(open_recipe_menu(Some(&id), vec![], vec![], None, &index, &recipes).is_none());
}

#[test]
fn placing_a_path_records_it_and_changes_the_neighbours_sprite() {
    let mut constructions = vec![(TileCoord { x: 5, y: 5 }, 1)];
    assert_eq!(compute_sprite(&constructions, TileCoord { x: 5, y: 5 }), "C");
    // without the path action a click places nothing
    assert!(spawn_path(&mut constructions, TileCoord { x: 6, y: 5 }, false, 2).is_none());
    assert_eq!(constructions, vec![(TileCoord { x: 5, y: 5 }, 1)]);
    let seg = spawn_path(&mut constructions, TileCoord { x: 6, y: 5 }, true, 2).unwrap();
    assert_eq!(seg.entity, 2);
    assert_eq!(seg.coord, TileCoord { x: 6, y: 5 });
    assert!(seg.pathable.walkable);
    assert_eq!(seg.slice, "C");
    assert!(seg.demolishable);
    assert_eq!(construction_at(&constructions, TileCoord { x: 6, y: 5 }), Some(2));
    assert_eq!(construction_at(&constructions, TileCoord { x: 5, y: 5 }), Some(1));
    assert_eq!(compute_sprite(&constructions, TileCoord { x: 5, y: 5 }), "E");
    assert_eq!(compute_sprite(&constructions, TileCoord { x: 6, y: 5 }), "W");
    // a second path on the same tile replaces the first
    spawn_path(&mut constructions, TileCoord { x: 6, y: 5 }, true, 3);
    assert_eq!(construction_at(&constructions, TileCoord { x: 6, y: 5 }), Some(3));
}

#[test]
fn keyboard_shortcuts_select_their_slots_in_turn() {
    let slots = vec![(10usize, 1u32), (11, 2), (12, 3)];
    let mut selected = None;
    let pressed: std::collections::HashSet<u32> = [2u32].into_iter().collect();
    let changes = select_on_keyboard_shortcuts(&mut selected, &slots, &pressed);
    assert_eq!(selected, Some(11));
    assert_eq!(changes, vec![HotbarSelectionChanged { previous: None, current: Some(11) }]);

    let mut selected = Some(10);
    let pressed: std::collections::HashSet<u32> = [1u32, 3].into_iter().collect();
    let changes = select_on_keyboard_shortcuts(&mut selected, &slots, &pressed);
    assert_eq!(selected, Some(12));
    assert_eq!(
        changes,
        vec![
            HotbarSelectionChanged { previous: Some(10), current: None },
            HotbarSelectionChanged { previous: None, current: Some(12) },
        ]
    );
}

#[test]
fn hovering_over_a_building_and_leaving_restores_the_selection() {
    let mut s = Selection::new();
    s.pointer_over(3, true);
    s.pointer_over(9, true);
    s.pointer_out(9, false);
    assert_eq!(s.entities, [3].into_iter().collect::<HashSet<usize>>());
    // leaving an already selected building takes it out
    s.pointer_over(3, true);
    s.pointer_out(3, false);
    assert!(s.entities.is_empty());
}
