use hearthwork::foraging::{deposit_emptied, find_deposit, forage_deposit, ForageTransfer};
use hearthwork::inventory::ItemStack;
use hearthwork::naming::{house_people, NameManager};
use hearthwork::pathfinding::Coord;
use hearthwork::profession::{PersonAssignmentChanged, PersonWork, Profession};
use hearthwork::random::Seed;
use rand::rngs::StdRng;
use rand::SeedableRng;
use std::collections::HashSet;

fn names(v: &[&str]) -> Vec<String> {
    v.iter().map(|s| s.to_string()).collect()
}

#[test]
fn names_come_from_the_end_then_unknown() {
    let mut m = NameManager { name_queue: names(&["Ada", "Bo"]) };
    assert_eq!(m.next(), "Bo");
    assert_eq!(m.next(), "Ada");
    assert_eq!(m.next(), "Unknown");
    assert!(m.name_queue.is_empty());
}

#[test]
fn queue_is_low_at_fifty_names() {
    let mut m = NameManager { name_queue: vec![String::from("x"); 50] };
    assert!(m.name_queue_low());
    m.name_queue.push(String::from("y"));
    assert!(!m.name_queue_low());
}

#[test]
fn refill_appends_a_shuffle_of_the_list() {
    let mut m = NameManager { name_queue: names(&["Old"]) };
    let mut rng = Seed(StdRng::seed_from_u64(9));
    let list = names(&["A", "B", "C"]);
    m.load_names(Some(&list), &mut rng);
    assert_eq!(m.name_queue.len(), 4);
    assert_eq!(m.name_queue[0], "Old");
    let mut added = m.name_queue[1..].to_vec();
    added.sort();
    assert_eq!(added, list);
    m.load_names(None, &mut rng);
    assert_eq!(m.name_queue.len(), 4);
}

#[test]
fn new_structures_house_three_porters_each() {
    let mut m = NameManager { name_queue: names(&["A", "B", "C", "D"]) };
    let people = house_people(&mut m, &vec![7, 8]);
    let got: Vec<(&str, usize)> = people.iter().map(|(n, s, _)| (n.as_str(), *s)).collect();
    assert_eq!(got, vec![("D", 7), ("C", 7), ("B", 7), ("A", 8), ("Unknown", 8), ("Unknown", 8)]);
    assert!(people.iter().all(|(_, _, p)| *p == Profession::Porter));
    assert!(m.name_queue.is_empty());
}

#[test]
fn assignment_and_unassignment() {
    let mut w = PersonWork::new();
    assert_eq!(w.assign(3, 9, Profession::Forager), PersonAssignmentChanged { person: 3 });
    assert_eq!(w.marker, Some(Profession::Forager));
    assert!(w.seeks_deposit(false));
    assert!(!w.seeks_deposit(true));
    w.assign(3, 10, Profession::Porter);
    assert_eq!(w.marker, Some(Profession::Porter));
    assert_eq!(w.assignment.unwrap().structure, 10);
    assert_eq!(w.unassign(3), PersonAssignmentChanged { person: 3 });
    assert_eq!(w.marker, None);
    assert_eq!(w.assignment, None);
    assert!(!w.seeks_deposit(false));
}

#[test]
fn forager_finds_first_deposit_in_range() {
    let positions = vec![Coord { x: 0, y: 0 }, Coord { x: 1, y: 0 }, Coord { x: 2, y: 0 }];
    let constructions = vec![(Coord { x: 0, y: 0 }, 5), (Coord { x: 1, y: 0 }, 6), (Coord { x: 2, y: 0 }, 7)];
    let deposits: HashSet<usize> = [6, 7].into_iter().collect();
    assert_eq!(find_deposit(&positions, &constructions, &deposits), Some(6));
    assert_eq!(find_deposit(&positions[..1].to_vec(), &constructions, &deposits), None);
}

#[test]
fn foraging_takes_one_of_the_first_stack() {
    let slots = vec![None, Some(ItemStack { item: 4, quantity: 0 }), Some(ItemStack { item: 5, quantity: 3 })];
    assert_eq!(forage_deposit(false, 1, 2, &slots), None);
    assert_eq!(forage_deposit(true, 1, 2, &slots), Some(ForageTransfer { from: 1, to: 2, item: 4, quantity: 1 }));
    assert_eq!(forage_deposit(true, 1, 2, &vec![None]), None);
}

#[test]
fn deposits_are_empty_when_every_slot_holds_nothing() {
    assert!(deposit_emptied(&vec![]));
    assert!(deposit_emptied(&vec![Some(ItemStack { item: 1, quantity: 0 })]));
    assert!(!deposit_emptied(&vec![Some(ItemStack { item: 1, quantity: 0 }), None]));
    assert!(!deposit_emptied(&vec![Some(ItemStack { item: 1, quantity: 2 })]));
}

#[test]
fn names_appended_come_out_newest_first_then_the_earlier_queue() {
    let mut m = NameManager { name_queue: names(&["Old"]) };
    m.append_names(names(&["A", "B", "C"]));
    assert_eq!(m.next(), "C");
    assert_eq!(m.next(), "B");
    assert_eq!(m.next(), "A");
    assert_eq!(m.name_queue, names(&["Old"]));
}

#[test]
fn a_refill_hands_out_each_listed_name_once() {
    let mut m = NameManager::new();
    let mut rng = Seed(StdRng::seed_from_u64(3));
    let list = names(&["Ada", "Bo", "Cy", "Di"]);
    m.load_names(Some(&list), &mut rng);
    let mut drawn: Vec<String> = (0..4).map(|_| m.next()).collect();
    drawn.sort();
    assert_eq!(drawn, list);
    assert_eq!(m.next(), "Unknown");
}
