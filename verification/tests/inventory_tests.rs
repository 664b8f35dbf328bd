use hearthwork::inventory::{
    can_afford, empty_slot, item_stack_slot, spend, InventorySlot, ItemStack, Slots, Stack, TransferItems,
};

const APPLE: u64 = 1;
const STONE: u64 = 2;

fn st(item: u64, quantity: u32) -> ItemStack {
    ItemStack { item, quantity }
}

fn req(from_slot: usize, to_slot: usize, quantity: u32) -> TransferItems {
    TransferItems { from_slot, to_slot, quantity }
}

#[test]
fn transfer_between_same_items_moves_at_most_what_is_there() {
    let mut s = Slots { stacks: vec![Some(st(APPLE, 3)), Some(st(APPLE, 1))] };
    let handled = s.transfer_items(&vec![req(0, 1, 5)]);
    assert_eq!(handled, 1);
    assert_eq!(s.stacks, vec![Some(st(APPLE, 0)), Some(st(APPLE, 4))]);
}

#[test]
fn transfer_saturates_the_target() {
    let mut s = Slots { stacks: vec![Some(st(APPLE, 10)), Some(st(APPLE, u32::MAX - 2))] };
    s.transfer_items(&vec![req(0, 1, 5)]);
    assert_eq!(s.stacks, vec![Some(st(APPLE, 5)), Some(st(APPLE, u32::MAX))]);
}

#[test]
fn transfer_between_different_items_is_refused() {
    let mut s = Slots { stacks: vec![Some(st(APPLE, 3)), Some(st(STONE, 1))] };
    let handled = s.transfer_items(&vec![req(0, 1, 1)]);
    assert_eq!(handled, 1);
    assert_eq!(s.stacks, vec![Some(st(APPLE, 3)), Some(st(STONE, 1))]);
}

#[test]
fn every_transfer_of_a_batch_is_handled() {
    let mut s = Slots { stacks: vec![Some(st(APPLE, 3)), Some(st(APPLE, 0)), Some(st(APPLE, 0))] };
    let handled = s.transfer_items(&vec![req(0, 1, 1), req(0, 2, 1)]);
    assert_eq!(handled, 2);
    assert_eq!(s.stacks, vec![Some(st(APPLE, 1)), Some(st(APPLE, 1)), Some(st(APPLE, 1))]);
}

#[test]
fn two_same_item_transfers_in_one_run_are_both_applied() {
    let mut s = Slots {
        stacks: vec![Some(st(APPLE, 5)), Some(st(APPLE, 0)), Some(st(STONE, 2)), Some(st(STONE, 1))],
    };
    let handled = s.transfer_items(&vec![req(0, 1, 1), req(2, 3, 1)]);
    assert_eq!(handled, 2);
    assert_eq!(
        s.stacks,
        vec![Some(st(APPLE, 4)), Some(st(APPLE, 1)), Some(st(STONE, 1)), Some(st(STONE, 2))]
    );
}

#[test]
fn transfer_into_empty_slot_creates_stack_after_the_batch() {
    let mut s = Slots { stacks: vec![Some(st(STONE, 4)), None, Some(st(STONE, 1))] };
    // the second request still sees slot 1 without a stack
    let handled = s.transfer_items(&vec![req(0, 1, 3), req(1, 2, 1)]);
    assert_eq!(handled, 2);
    assert_eq!(s.stacks, vec![Some(st(STONE, 1)), Some(st(STONE, 3)), Some(st(STONE, 1))]);
}

#[test]
fn transfer_from_empty_slot_does_nothing() {
    let mut s = Slots { stacks: vec![None, Some(st(STONE, 1))] };
    let handled = s.transfer_items(&vec![req(0, 1, 3)]);
    assert_eq!(handled, 1);
    assert_eq!(s.stacks, vec![None, Some(st(STONE, 1))]);
}

#[test]
fn transfer_onto_itself_leaves_the_moved_amount() {
    let mut s = Slots { stacks: vec![Some(st(STONE, 5))] };
    s.transfer_items(&vec![req(0, 0, 2)]);
    assert_eq!(s.stacks, vec![Some(st(STONE, 2))]);
}

#[test]
fn empty_cost_is_always_affordable() {
    assert!(can_afford(&vec![], &vec![]));
}

#[test]
fn affordability_sums_stacks_of_an_item() {
    let stacks = vec![st(APPLE, 2), st(STONE, 1), st(APPLE, 3)];
    assert!(can_afford(&stacks, &vec![(APPLE, 5), (STONE, 1)]));
    assert!(!can_afford(&stacks, &vec![(APPLE, 6)]));
    assert!(!can_afford(&stacks, &vec![(APPLE, 1), (STONE, 2)]));
    assert!(can_afford(&stacks, &vec![(APPLE, 0), (9, 0)]));
    assert!(!can_afford(&stacks, &vec![(9, 1)]));
}

#[test]
fn spending_takes_from_first_stack_of_each_item() {
    let mut stacks = vec![st(APPLE, 5), st(STONE, 4), st(APPLE, 3)];
    spend(&mut stacks, &vec![(APPLE, 2), (STONE, 4), (9, 7)]);
    assert_eq!(stacks, vec![st(APPLE, 3), st(STONE, 0), st(APPLE, 3)]);
}

#[test]
fn affordable_cost_paid_from_single_stacks_lowers_totals_by_the_cost() {
    let mut stacks = vec![st(APPLE, 5), st(STONE, 4)];
    let cost = vec![(APPLE, 5), (STONE, 1)];
    assert!(can_afford(&stacks, &cost));
    spend(&mut stacks, &cost);
    assert_eq!(stacks, vec![st(APPLE, 0), st(STONE, 3)]);
}

fn count(s: &Slots, item: u64) -> u64 {
    s.stacks.iter().flatten().filter(|st| st.item == item).map(|st| st.quantity as u64).sum()
}

#[test]
fn a_batch_of_transfers_never_adds_items() {
    let mut s = Slots {
        stacks: vec![Some(st(STONE, 4)), None, Some(st(STONE, 1)), Some(st(APPLE, 2)), None],
    };
    let before_stone = count(&s, STONE);
    let before_apple = count(&s, APPLE);
    // two stacks are put into the same empty slot: the first one is lost
    s.transfer_items(&vec![req(0, 1, 2), req(3, 1, 1), req(2, 4, 1)]);
    assert!(count(&s, STONE) <= before_stone);
    assert!(count(&s, APPLE) <= before_apple);
    assert_eq!(s.stacks, vec![Some(st(STONE, 2)), Some(st(APPLE, 1)), Some(st(STONE, 0)), Some(st(APPLE, 1)), Some(st(STONE, 1))]);
    assert_eq!(count(&s, STONE), 3);
}

#[test]
fn new_slots_and_empty_stacks() {
    assert_eq!(empty_slot(3), InventorySlot { owner: 3, stack: None });
    assert_eq!(item_stack_slot(3, APPLE, 12), InventorySlot { owner: 3, stack: Some(st(APPLE, 12)) });
    assert_eq!(Stack::empty(STONE), st(STONE, 0));
}
