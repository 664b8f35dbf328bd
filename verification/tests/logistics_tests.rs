use hearthwork::inventory::ItemStack;
use hearthwork::items::{Inventory, Transport};
use hearthwork::logistics::{deliver, walk_along_path, PorterSpawner, WalkEvent};
use hearthwork::pathfinding::{pathfind, Coord, InputSlot, LogisticsMap, Pathable, PorterPath, Site};
use std::collections::HashMap;

fn site(x: i32, y: i32, walkable: Option<bool>, inputs: Option<Vec<InputSlot>>) -> Site {
    Site { coord: Coord { x, y }, pathable: walkable, inputs }
}

fn map_of(sites: Vec<Site>) -> LogisticsMap {
    let constructions = sites.iter().enumerate().map(|(i, s)| (s.coord, i)).collect();
    LogisticsMap { sites, constructions }
}

const APPLE: u64 = 7;
const STONE: u64 = 9;

#[test]
fn route_over_walkable_path_to_matching_input() {
    // producer at 0, path tiles at 1 and 2, consumer at 3 taking apples in slot 100
    let m = map_of(vec![
        site(0, 0, None, None),
        site(1, 0, Some(true), None),
        site(2, 0, Some(true), None),
        site(3, 0, None, Some(vec![
            InputSlot { slot: 99, stack_item: Some(STONE) },
            InputSlot { slot: 100, stack_item: Some(APPLE) },
        ])),
    ]);
    let routes = pathfind(&m, 0, APPLE);
    assert_eq!(routes.len(), 1);
    assert_eq!(routes[0].input, 100);
    assert_eq!(routes[0].path, vec![3, 2, 1]);
}

#[test]
fn consumer_next_to_producer_gets_one_step_route() {
    let m = map_of(vec![
        site(0, 0, None, None),
        site(0, 1, None, Some(vec![InputSlot { slot: 5, stack_item: Some(APPLE) }])),
    ]);
    let routes = pathfind(&m, 0, APPLE);
    assert_eq!(routes.len(), 1);
    assert_eq!(routes[0].path, vec![1]);
    assert_eq!(routes[0].input, 5);
}

#[test]
fn non_walkable_construction_blocks_the_route() {
    let m = map_of(vec![
        site(0, 0, None, None),
        site(1, 0, Some(false), None),
        site(2, 0, None, Some(vec![InputSlot { slot: 5, stack_item: Some(APPLE) }])),
    ]);
    assert!(pathfind(&m, 0, APPLE).is_empty());
}

#[test]
fn input_without_matching_stack_is_no_goal() {
    let m = map_of(vec![
        site(0, 0, None, None),
        site(1, 0, Some(true), None),
        site(2, 0, None, Some(vec![
            InputSlot { slot: 5, stack_item: None },
            InputSlot { slot: 6, stack_item: Some(STONE) },
        ])),
    ]);
    assert!(pathfind(&m, 0, APPLE).is_empty());
}

#[test]
fn every_reachable_consumer_gets_a_route_in_search_order() {
    // two consumers on either side of the producer; +x is explored first
    let m = map_of(vec![
        site(0, 0, None, None),
        site(1, 0, None, Some(vec![InputSlot { slot: 10, stack_item: Some(APPLE) }])),
        site(-1, 0, Some(true), None),
        site(-2, 0, Some(true), Some(vec![InputSlot { slot: 20, stack_item: Some(APPLE) }])),
    ]);
    let routes = pathfind(&m, 0, APPLE);
    assert_eq!(routes.len(), 2);
    assert_eq!((routes[0].input, routes[0].path.clone()), (10, vec![1]));
    assert_eq!((routes[1].input, routes[1].path.clone()), (20, vec![3, 2]));
}

#[test]
fn walkable_consumer_is_also_passed_through() {
    let m = map_of(vec![
        site(0, 0, None, None),
        site(0, -1, Some(true), Some(vec![InputSlot { slot: 1, stack_item: Some(APPLE) }])),
        site(0, -2, None, Some(vec![InputSlot { slot: 2, stack_item: Some(APPLE) }])),
    ]);
    let routes = pathfind(&m, 0, APPLE);
    assert_eq!(routes.len(), 2);
    assert_eq!(routes[1].path, vec![2, 1]);
}

#[test]
fn pathable_walkable_constructor() {
    assert!(Pathable::walkable().walkable);
}

fn spawner(index: usize, apples: Option<u32>, routes: usize) -> PorterSpawner {
    let mut inventory = Inventory::new();
    if let Some(q) = apples {
        inventory.items.insert(APPLE, q);
    }
    PorterSpawner {
        output_index: index,
        inventory,
        routes: (0..routes).map(|i| PorterPath { input: 100 + i, path: vec![i, i + 1] }).collect(),
    }
}

fn transports() -> HashMap<u64, Transport> {
    let mut t = HashMap::new();
    t.insert(APPLE, Transport::Bag);
    t.insert(STONE, Transport::Box);
    t
}

#[test]
fn spawner_sends_porter_and_rotates() {
    let mut s = spawner(1, Some(3), 2);
    let outputs = vec![STONE, APPLE];
    let order = s.spawn_porter(true, Some(&outputs), &transports()).unwrap();
    assert_eq!(order.item, APPLE);
    assert_eq!(order.input, 100);
    assert_eq!(order.path, vec![0, 1]);
    assert_eq!(order.transport, Transport::Bag);
    assert_eq!(s.inventory.get(APPLE), Some(2));
    assert_eq!(s.output_index, 0);
    assert_eq!(s.routes[0].input, 101);
    assert_eq!(s.routes[1].input, 100);
}

#[test]
fn spawner_waits_for_timer_stock_routes_and_definitions() {
    let outputs = vec![APPLE];
    let mut s = spawner(0, Some(1), 1);
    assert!(s.spawn_porter(false, Some(&outputs), &transports()).is_none());
    assert!(s.spawn_porter(true, None, &transports()).is_none());
    assert!(s.spawn_porter(true, Some(&outputs), &HashMap::new()).is_none());
    let mut empty = spawner(0, Some(0), 1);
    assert!(empty.spawn_porter(true, Some(&outputs), &transports()).is_none());
    let mut missing = spawner(0, None, 1);
    assert!(missing.spawn_porter(true, Some(&outputs), &transports()).is_none());
    let mut no_route = spawner(0, Some(1), 0);
    assert!(no_route.spawn_porter(true, Some(&outputs), &transports()).is_none());
    let mut out_of_range = spawner(1, Some(1), 1);
    assert!(out_of_range.spawn_porter(true, Some(&outputs), &transports()).is_none());
    assert_eq!(s.inventory.get(APPLE), Some(1));
    assert_eq!(s.output_index, 0);
}

#[test]
fn delivery_counts_up_from_one() {
    let mut inv = Inventory::new();
    deliver(&mut inv, APPLE);
    assert_eq!(inv.get(APPLE), Some(1));
    deliver(&mut inv, APPLE);
    assert_eq!(inv.get(APPLE), Some(2));
    assert_eq!(inv.get(STONE), None);
}

#[test]
fn walking_pops_reached_waypoints() {
    let mut path = vec![4, 3];
    assert_eq!(walk_along_path(&mut path, true, false), WalkEvent::Walking);
    assert_eq!(path, vec![4, 3]);
    assert_eq!(walk_along_path(&mut path, true, true), WalkEvent::Walking);
    assert_eq!(path, vec![4]);
    assert_eq!(walk_along_path(&mut path, false, true), WalkEvent::Lost);
    assert_eq!(walk_along_path(&mut path, true, true), WalkEvent::Arrived);
    assert!(path.is_empty());
    assert_eq!(walk_along_path(&mut path, true, true), WalkEvent::Idle);
}

#[test]
fn empty_stack_has_no_items() {
    assert_eq!(ItemStack::empty(APPLE), ItemStack { item: APPLE, quantity: 0 });
}

#[test]
fn routes_and_outputs_come_round_again() {
    let mut s = spawner(0, Some(10), 3);
    s.inventory.items.insert(STONE, 10);
    let outputs = vec![APPLE, STONE];
    let mut inputs = Vec::new();
    for _ in 0..6 {
        inputs.push(s.spawn_porter(true, Some(&outputs), &transports()).unwrap().input);
    }
    assert_eq!(inputs, vec![100, 101, 102, 100, 101, 102]);
    assert_eq!(s.routes.iter().map(|r| r.input).collect::<Vec<_>>(), vec![100, 101, 102]);
    assert_eq!(s.output_index, 0);
    assert_eq!(s.inventory.get(APPLE), Some(7));
    assert_eq!(s.inventory.get(STONE), Some(7));
}

#[test]
fn routes_take_the_shortest_way_round() {
    // a long way east then north, and a short way north, both over walkable tiles:
    //   (0,1) (1,1) (2,1)
    //   (0,0) (1,0) (2,0)
    // producer at (0,0); consumer at (2,1)
    let m = map_of(vec![
        site(0, 0, None, None),
        site(1, 0, Some(true), None),
        site(2, 0, Some(true), None),
        site(0, 1, Some(true), None),
        site(1, 1, Some(true), None),
        site(2, 1, None, Some(vec![InputSlot { slot: 8, stack_item: Some(APPLE) }])),
    ]);
    let routes = pathfind(&m, 0, APPLE);
    assert_eq!(routes.len(), 1);
    assert_eq!(routes[0].input, 8);
    // three steps: two to reach a neighbour of the consumer, one onto it
    assert_eq!(routes[0].path.len(), 3);
    assert_eq!(routes[0].path, vec![5, 2, 1]);
}

#[test]
fn nearer_consumers_come_first() {
    // the consumer one step north comes before the one two steps west, though
    // the walkable tile towards the west is explored before the north
    let m = map_of(vec![
        site(0, 0, None, None),
        site(-1, 0, Some(true), None),
        site(-2, 0, None, Some(vec![InputSlot { slot: 1, stack_item: Some(APPLE) }])),
        site(0, 1, None, Some(vec![InputSlot { slot: 2, stack_item: Some(APPLE) }])),
    ]);
    let routes = pathfind(&m, 0, APPLE);
    assert_eq!(routes.len(), 2);
    assert_eq!((routes[0].input, routes[0].path.clone()), (2, vec![3]));
    assert_eq!((routes[1].input, routes[1].path.clone()), (1, vec![2, 1]));
    assert!(routes[0].path.len() <= routes[1].path.len());
}

#[test]
fn sending_and_delivering_keeps_the_items() {
    let mut producer = spawner(0, Some(3), 1);
    let mut receiver = Inventory::with_single(APPLE, 5);
    let outputs = vec![APPLE];
    let order = producer.spawn_porter(true, Some(&outputs), &transports()).unwrap();
    // while the porter walks, it carries the item missing from the producer
    assert_eq!(producer.inventory.get(APPLE), Some(2));
    deliver(&mut receiver, order.item);
    assert_eq!(producer.inventory.get(APPLE).unwrap() + receiver.get(APPLE).unwrap(), 3 + 5);
}

#[test]
fn of_two_equally_short_ways_the_route_takes_the_one_explored_first() {
    // the consumer at (1,1) can be reached through (1,0) (+x first) or (0,1)
    // (+y first); +x is explored before +y
    let m = map_of(vec![
        site(0, 0, None, None),
        site(0, 1, Some(true), None),
        site(1, 0, Some(true), None),
        site(1, 1, None, Some(vec![InputSlot { slot: 4, stack_item: Some(APPLE) }])),
    ]);
    let routes = pathfind(&m, 0, APPLE);
    assert_eq!(routes.len(), 1);
    assert_eq!(routes[0].path, vec![3, 2]);
}

#[test]
fn equally_near_consumers_come_in_exploration_order() {
    // consumers one step away on each side: -x, +y, -y, +x are listed in
    // that order, but are found +x, -x, +y, -y
    let m = map_of(vec![
        site(0, 0, None, None),
        site(-1, 0, None, Some(vec![InputSlot { slot: 1, stack_item: Some(APPLE) }])),
        site(0, 1, None, Some(vec![InputSlot { slot: 2, stack_item: Some(APPLE) }])),
        site(0, -1, None, Some(vec![InputSlot { slot: 3, stack_item: Some(APPLE) }])),
        site(1, 0, None, Some(vec![InputSlot { slot: 4, stack_item: Some(APPLE) }])),
    ]);
    let routes = pathfind(&m, 0, APPLE);
    let inputs: Vec<usize> = routes.iter().map(|r| r.input).collect();
    assert_eq!(inputs, vec![4, 1, 2, 3]);
}
