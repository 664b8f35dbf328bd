//! Foragers: each finds a deposit within its outpost's range, takes one item
//! from it per foraging tick, and emptied deposits disappear.
use crate::inventory::ItemStack;
use crate::pathfinding::{lookup, lookup_exec, Coord};
use std::collections::HashSet;
use vstd::prelude::*;

verus! {

broadcast use vstd::std_specs::hash::group_hash_axioms;

/// A request to move items from a deposit to a structure.
#[derive(Clone, Copy, Debug, PartialEq, Eq, Structural)]
pub struct ForageTransfer {
    pub from: usize,
    pub to: usize,
    pub item: u64,
    pub quantity: u32,
}

/// The deposit on the first position (in the order the range lists them)
/// whose construction is a deposit.
pub open spec fn first_deposit(
    positions: Seq<Coord>,
    constructions: Seq<(Coord, usize)>,
    deposits: Set<usize>,
) -> Option<usize>
    decreases positions.len(),
{
    if positions.len() == 0 {
        None
    } else {
        match lookup(constructions, positions[0]) {
            Some(d) => if deposits.contains(d) {
                Some(d)
            } else {
                first_deposit(positions.drop_first(), constructions, deposits)
            },
            None => first_deposit(positions.drop_first(), constructions, deposits),
        }
    }
}

/// A forager without a deposit looks through its outpost's range for one.
pub fn find_deposit(
    positions: &Vec<Coord>,
    constructions: &Vec<(Coord, usize)>,
    deposits: &HashSet<usize>,
) -> (r: Option<usize>)
    ensures
        r == first_deposit(positions@, constructions@, deposits@),
{
    let mut i: usize = 0;
    assert(positions@.subrange(0, positions@.len() as int) =~= positions@);
    while i < positions.len()
        invariant
            i <= positions@.len(),
            first_deposit(positions@, constructions@, deposits@) == first_deposit(
                positions@.subrange(i as int, positions@.len() as int),
                constructions@,
                deposits@,
            ),
        decreases positions.len() - i,
    {
        let ghost rest = positions@.subrange(i as int, positions@.len() as int);
        assert(rest.drop_first() =~= positions@.subrange(i + 1, positions@.len() as int));
        assert(rest[0] == positions@[i as int]);
        if let Some(d) = lookup_exec(constructions, positions[i]) {
            if deposits.contains(&d) {
                return Some(d);
            }
        }
        i = i + 1;
    }
    assert(positions@.subrange(i as int, positions@.len() as int) =~= Seq::<Coord>::empty());
    None
}

/// The first slot that holds a stack.
pub open spec fn first_stack(slots: Seq<Option<ItemStack>>) -> Option<ItemStack>
    decreases slots.len(),
{
    if slots.len() == 0 {
        None
    } else if slots[0] is Some {
        slots[0]
    } else {
        first_stack(slots.drop_first())
    }
}

/// On a foraging tick, a forager asks for one item of the deposit's first
/// stack (whatever it holds, possibly none) to go to its structure.
pub fn forage_deposit(
    just_finished: bool,
    deposit: usize,
    structure: usize,
    deposit_slots: &Vec<Option<ItemStack>>,
) -> (r: Option<ForageTransfer>)
    ensures
        !just_finished ==> r is None,
        just_finished ==> r == (match first_stack(deposit_slots@) {
            Some(s) => Some(ForageTransfer { from: deposit, to: structure, item: s.item, quantity: 1 }),
            None => None,
        }),
{
    if !just_finished {
        return None;
    }
    let mut i: usize = 0;
    assert(deposit_slots@.subrange(0, deposit_slots@.len() as int) =~= deposit_slots@);
    while i < deposit_slots.len()
        invariant
            just_finished,
            i <= deposit_slots@.len(),
            first_stack(deposit_slots@) == first_stack(
                deposit_slots@.subrange(i as int, deposit_slots@.len() as int),
            ),
        decreases deposit_slots.len() - i,
    {
        let ghost rest = deposit_slots@.subrange(i as int, deposit_slots@.len() as int);
        assert(rest.drop_first() =~= deposit_slots@.subrange(i + 1, deposit_slots@.len() as int));
        assert(rest[0] == deposit_slots@[i as int]);
        if let Some(s) = deposit_slots[i] {
            return Some(ForageTransfer { from: deposit, to: structure, item: s.item, quantity: 1 });
        }
        i = i + 1;
    }
    assert(deposit_slots@.subrange(i as int, deposit_slots@.len() as int) =~= Seq::<
        Option<ItemStack>,
    >::empty());
    None
}

/// A deposit is used up when each of its slots holds a stack of zero items
/// (a deposit without slots counts as used up).
pub fn deposit_emptied(slots: &Vec<Option<ItemStack>>) -> (r: bool)
    ensures
        r == forall|i: int|
            0 <= i < slots@.len() ==> (#[trigger] slots@[i]) is Some && slots@[i].unwrap().quantity == 0,
{
    let mut i: usize = 0;
    while i < slots.len()
        invariant
            i <= slots@.len(),
            forall|k: int|
                0 <= k < i ==> (#[trigger] slots@[k]) is Some && slots@[k].unwrap().quantity == 0,
        decreases slots.len() - i,
    {
        match slots[i] {
            Some(s) => {
                if s.quantity != 0 {
                    return false;
                }
            },
            None => return false,
        }
        i = i + 1;
    }
    true
}

} // verus!
