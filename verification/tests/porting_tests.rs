use hearthwork::inventory::{ItemStack, TransferItems};
use hearthwork::items::Transport;
use hearthwork::pathfinding::Coord;
use hearthwork::porting::{
    despawn_lost_porter, spawn_porter, CheckpointOutcome, DropOff, PorterAnimation, Porting, PortingState,
    SlotInfo, TileWorld, PORTER_TTL_NANOS,
};
use hearthwork::random::Seed;
use rand::rngs::StdRng;
use rand::SeedableRng;
use std::collections::{HashMap, HashSet};

const APPLE: u64 = 3;

fn porting(state: PortingState, target: usize) -> Porting {
    Porting {
        item: APPLE,
        origin: 1,
        slot: 50,
        state,
        ttl_nanos: 1_000,
        target,
        backtracking: false,
        visited: HashSet::new(),
        path: Vec::new(),
    }
}

/// Tiles: 10 at (0,0), 11 at (0,1) north of it, 12 at (1,0) east of it.
fn world(walkable: &[usize], slots: Vec<(usize, Vec<SlotInfo>)>) -> TileWorld {
    let mut coords = HashMap::new();
    coords.insert(10, Coord { x: 0, y: 0 });
    coords.insert(11, Coord { x: 0, y: 1 });
    coords.insert(12, Coord { x: 1, y: 0 });
    TileWorld {
        coords,
        constructions: vec![
            (Coord { x: 0, y: 0 }, 10),
            (Coord { x: 0, y: 1 }, 11),
            (Coord { x: 1, y: 0 }, 12),
        ],
        walkable: walkable.iter().copied().collect(),
        slots: slots.into_iter().collect(),
    }
}

fn drop_slot(slot: usize, d: DropOff) -> SlotInfo {
    SlotInfo { slot, drop_off: Some(d), pickup: false, stack: None }
}

#[test]
fn checkpoint_with_drop_off_neighbour_arrives() {
    let w = world(&[11], vec![(12, vec![
        drop_slot(70, DropOff::Item(99)),
        drop_slot(71, DropOff::Item(APPLE)),
    ])]);
    let mut p = porting(PortingState::TransportTo, 10);
    let mut rng = Seed(StdRng::seed_from_u64(1));
    let r = p.calculate_next_target(&w, None, &mut rng);
    assert_eq!(r, CheckpointOutcome::Arrived { slot: 71 });
    assert_eq!(p.path, vec![10]);
    assert!(p.visited.contains(&10));
    assert_eq!(p.target, 10);
}

#[test]
fn drop_off_by_tag_needs_the_items_tags() {
    let w = world(&[], vec![(11, vec![drop_slot(80, DropOff::Tag(5))])]);
    let mut rng = Seed(StdRng::seed_from_u64(2));
    let mut p = porting(PortingState::TransportTo, 10);
    let tags = vec![4, 5];
    assert_eq!(p.calculate_next_target(&w, Some(&tags), &mut rng), CheckpointOutcome::Arrived { slot: 80 });
    let mut q = porting(PortingState::TransportTo, 10);
    // without tags and without a walkable neighbour it backtracks onto its checkpoint
    assert_eq!(q.calculate_next_target(&w, None, &mut rng), CheckpointOutcome::NextTarget);
    assert!(q.backtracking);
    assert_eq!(q.target, 10);
    assert!(q.path.is_empty());
}

#[test]
fn checkpoint_walks_to_the_only_unvisited_walkable_neighbour() {
    let w = world(&[11, 12], vec![]);
    let mut p = porting(PortingState::TransportTo, 10);
    p.visited.insert(12);
    let mut rng = Seed(StdRng::seed_from_u64(3));
    assert_eq!(p.calculate_next_target(&w, None, &mut rng), CheckpointOutcome::NextTarget);
    assert_eq!(p.target, 11);
    assert!(!p.backtracking);
    assert_eq!(p.path, vec![10]);
}

#[test]
fn checkpoint_outside_transport_is_ignored() {
    let w = world(&[11], vec![]);
    let mut p = porting(PortingState::Returnal, 10);
    let mut rng = Seed(StdRng::seed_from_u64(4));
    assert_eq!(p.calculate_next_target(&w, None, &mut rng), CheckpointOutcome::NotTransporting);
    assert!(p.path.is_empty());
}

#[test]
fn checkpoint_without_coordinate_stops_after_marking() {
    let w = world(&[11], vec![]);
    let mut p = porting(PortingState::TransportTo, 77);
    let mut rng = Seed(StdRng::seed_from_u64(5));
    assert_eq!(p.calculate_next_target(&w, None, &mut rng), CheckpointOutcome::TargetUnplaced);
    assert_eq!(p.path, vec![77]);
}

#[test]
fn recipe_routing_reports_accepting_neighbour_and_moves_on() {
    let w = world(&[12], vec![]);
    let mut inputs = HashMap::new();
    inputs.insert(11, vec![1, APPLE]);
    let mut p = porting(PortingState::TransportTo, 10);
    let mut rng = Seed(StdRng::seed_from_u64(6));
    assert_eq!(p.calculate_next_target_by_recipe(&w, &inputs, &mut rng), Some(11));
    assert_eq!(p.target, 12);
}

#[test]
fn pickup_waits_for_an_item_then_transports() {
    let mut p = porting(PortingState::PickingUpItems, 10);
    assert_eq!(p.pickup_items(Some(60), None), Some(TransferItems { from_slot: 50, to_slot: 60, quantity: 1 }));
    assert_eq!(p.state, PortingState::PickingUpItems);
    assert_eq!(
        p.pickup_items(Some(60), Some(ItemStack { item: APPLE, quantity: 0 })),
        Some(TransferItems { from_slot: 50, to_slot: 60, quantity: 1 })
    );
    assert_eq!(p.pickup_items(None, None), None);
    assert_eq!(p.pickup_items(Some(60), Some(ItemStack { item: APPLE, quantity: 1 })), None);
    assert_eq!(p.state, PortingState::TransportTo);
}

#[test]
fn dropping_off_hands_over_and_turns_back() {
    let mut p = porting(PortingState::TransportTo, 10);
    let mut animation = PorterAnimation::WalkBag;
    assert_eq!(p.drop_off_items(&mut animation, None, 71), None);
    assert_eq!(p.state, PortingState::TransportTo);
    assert_eq!(animation, PorterAnimation::WalkBag);
    assert_eq!(
        p.drop_off_items(&mut animation, Some(60), 71),
        Some(TransferItems { from_slot: 60, to_slot: 71, quantity: 1 })
    );
    assert_eq!(p.state, PortingState::Returnal);
    assert_eq!(animation, PorterAnimation::Walk);
    assert_eq!(animation.tag(), "walk");
    assert_eq!(PorterAnimation::WalkItem.tag(), "walk_item");
    assert_eq!(PorterAnimation::WalkBag.tag(), "walk_bag");
}

#[test]
fn returnal_retraces_the_path_backwards() {
    let mut p = porting(PortingState::Returnal, 10);
    p.path = vec![5, 6, 7];
    assert!(!p.returnal());
    assert_eq!(p.target, 7);
    assert!(!p.returnal());
    assert_eq!(p.target, 6);
    assert!(!p.returnal());
    assert_eq!(p.target, 5);
    assert!(p.returnal());
    let mut q = porting(PortingState::TransportTo, 10);
    q.path = vec![5];
    assert!(!q.returnal());
    assert_eq!(q.path, vec![5]);
}

#[test]
fn ttl_runs_out_and_saturates() {
    let mut p = porting(PortingState::TransportTo, 10);
    assert!(!p.decrement_ttl(400));
    assert_eq!(p.ttl_nanos, 600);
    assert!(p.decrement_ttl(1_000));
    assert_eq!(p.ttl_nanos, 0);
}

#[test]
fn lost_porter_returns_its_item() {
    let p = porting(PortingState::TransportTo, 10);
    assert_eq!(
        despawn_lost_porter(Some(&p), Some(60)),
        Some(TransferItems { from_slot: 60, to_slot: 50, quantity: 1 })
    );
    assert_eq!(despawn_lost_porter(Some(&p), None), None);
    assert_eq!(despawn_lost_porter(None, Some(60)), None);
}

#[test]
fn porter_sets_out_from_structure_with_stock() {
    let pickup = SlotInfo { slot: 40, drop_off: None, pickup: true, stack: Some(ItemStack { item: APPLE, quantity: 2 }) };
    let other = SlotInfo { slot: 41, drop_off: None, pickup: true, stack: Some(ItemStack { item: 9, quantity: 2 }) };
    let w = world(&[11], vec![(10, vec![pickup, other])]);
    let mut transports = HashMap::new();
    transports.insert(APPLE, Transport::Box);
    let mut index = 1;
    let mut rng = Seed(StdRng::seed_from_u64(7));
    let d = spawn_porter(true, 10, Coord { x: 0, y: 0 }, &mut index, &vec![(20, false), (21, true)], &w, &transports, &mut rng)
        .unwrap();
    assert_eq!(d.person, 21);
    assert_eq!(d.transport, Transport::Box);
    assert_eq!(d.animation, PorterAnimation::WalkItem);
    assert_eq!(d.porting.item, APPLE);
    assert_eq!(d.porting.slot, 40);
    assert_eq!(d.porting.origin, 10);
    assert_eq!(d.porting.target, 11);
    assert_eq!(d.porting.state, PortingState::PickingUpItems);
    assert_eq!(d.porting.ttl_nanos, PORTER_TTL_NANOS);
    assert_eq!(index, 0);
}

#[test]
fn porter_stays_home_without_free_person_stock_or_way() {
    let pickup = SlotInfo { slot: 40, drop_off: None, pickup: true, stack: Some(ItemStack { item: APPLE, quantity: 0 }) };
    let w = world(&[11], vec![(10, vec![pickup])]);
    let mut transports = HashMap::new();
    transports.insert(APPLE, Transport::Box);
    let mut index = 0;
    let mut rng = Seed(StdRng::seed_from_u64(8));
    assert!(spawn_porter(true, 10, Coord { x: 0, y: 0 }, &mut index, &vec![(21, true)], &w, &transports, &mut rng).is_none());
    assert!(spawn_porter(true, 10, Coord { x: 0, y: 0 }, &mut index, &vec![(21, false)], &w, &transports, &mut rng).is_none());
    assert!(spawn_porter(false, 10, Coord { x: 0, y: 0 }, &mut index, &vec![(21, true)], &w, &transports, &mut rng).is_none());
    let stocked = SlotInfo { slot: 40, drop_off: None, pickup: true, stack: Some(ItemStack { item: APPLE, quantity: 3 }) };
    let closed_in = world(&[], vec![(10, vec![stocked])]);
    assert!(spawn_porter(true, 10, Coord { x: 0, y: 0 }, &mut index, &vec![(21, true)], &closed_in, &transports, &mut rng).is_none());
    assert_eq!(index, 0);
}
