//! Item stacks held in inventory slots: transfers between slots, and whether
//! an inventory can pay a cost, and paying it.
use vstd::prelude::*;

verus! {

/// A stack of one item in a slot.
#[derive(Clone, Copy, Debug, PartialEq, Eq, Structural)]
pub struct ItemStack {
    pub item: u64,
    pub quantity: u32,
}

impl ItemStack {
    /// An empty stack of `item`.
    pub fn empty(item: u64) -> (r: ItemStack)
        ensures
            r == (ItemStack { item, quantity: 0 }),
    {
        ItemStack { item, quantity: 0 }
    }
}

/// The stack component of an item entity: the same data as a slot's stack.
pub type Stack = ItemStack;

/// A slot of an inventory: the structure that owns it, and the stack it
/// holds, if any.
#[derive(Clone, Copy, Debug, PartialEq, Eq, Structural)]
pub struct InventorySlot {
    pub owner: usize,
    pub stack: Option<ItemStack>,
}

/// A new slot of `owner` that holds nothing.
pub fn empty_slot(owner: usize) -> (r: InventorySlot)
    ensures
        r == (InventorySlot { owner, stack: None }),
{
    InventorySlot { owner, stack: None }
}

/// A new slot of `owner` holding `quantity` of `item`.
pub fn item_stack_slot(owner: usize, item: u64, quantity: u32) -> (r: InventorySlot)
    ensures
        r == (InventorySlot { owner, stack: Some(ItemStack { item, quantity }) }),
{
    InventorySlot { owner, stack: Some(ItemStack { item, quantity }) }
}

/// A request to move up to `quantity` items from one slot to another.
#[derive(Clone, Copy, Debug, PartialEq, Eq, Structural)]
pub struct TransferItems {
    pub from_slot: usize,
    pub to_slot: usize,
    pub quantity: u32,
}

/// The slots of the world, each with the stack it holds, if any. Slots are
/// named by their index.
#[derive(Clone, Debug)]
pub struct Slots {
    pub stacks: Vec<Option<ItemStack>>,
}

pub open spec fn min_u32(a: u32, b: u32) -> u32 {
    if a <= b {
        a
    } else {
        b
    }
}

pub open spec fn saturating_add_u32(a: u32, b: u32) -> u32 {
    if a + b > u32::MAX {
        u32::MAX
    } else {
        (a + b) as u32
    }
}

/// One request handled against the stacks as they are while the batch runs.
/// Gives the stacks after it, and a stack to put into a slot once the batch
/// is over (a slot that had no stack receives one only then).
///
/// - Both slots hold stacks (and differ): stacks of different items are left
///   alone; otherwise the smaller of the request and the source quantity
///   moves over, the target saturating.
/// - Only the source holds a stack (or both slots are one): that many items
///   leave the source, and a stack of them is put into the target later.
/// - Otherwise nothing happens.
pub open spec fn transfer_step(live: Seq<Option<ItemStack>>, r: TransferItems) -> (
    Seq<Option<ItemStack>>,
    Option<(usize, ItemStack)>,
) {
    let from = r.from_slot as int;
    let to = r.to_slot as int;
    if from != to && live[from] is Some && live[to] is Some {
        let f = live[from].unwrap();
        let t = live[to].unwrap();
        if f.item != t.item {
            (live, None)
        } else {
            let actual = min_u32(f.quantity, r.quantity);
            (
                live.update(from, Some(ItemStack { item: f.item, quantity: (f.quantity - actual) as u32 }))
                    .update(to, Some(ItemStack { item: t.item, quantity: saturating_add_u32(t.quantity, actual) })),
                None,
            )
        }
    } else if live[from] is Some {
        let f = live[from].unwrap();
        let actual = min_u32(f.quantity, r.quantity);
        (
            live.update(from, Some(ItemStack { item: f.item, quantity: (f.quantity - actual) as u32 })),
            Some((r.to_slot, ItemStack { item: f.item, quantity: actual })),
        )
    } else {
        (live, None)
    }
}

/// Runs every request in order. Gives the live stacks and the stacks to put
/// into slots afterwards.
pub open spec fn transfer_run(
    live: Seq<Option<ItemStack>>,
    pending: Seq<(usize, ItemStack)>,
    reqs: Seq<TransferItems>,
) -> (Seq<Option<ItemStack>>, Seq<(usize, ItemStack)>)
    decreases reqs.len(),
{
    if reqs.len() == 0 {
        (live, pending)
    } else {
        let (l2, ins) = transfer_step(live, reqs[0]);
        let p2 = match ins {
            Some(x) => pending.push(x),
            None => pending,
        };
        transfer_run(l2, p2, reqs.drop_first())
    }
}

/// Puts each pending stack into its slot, in order.
pub open spec fn apply_inserts(live: Seq<Option<ItemStack>>, pending: Seq<(usize, ItemStack)>) -> Seq<
    Option<ItemStack>,
>
    decreases pending.len(),
{
    if pending.len() == 0 {
        live
    } else {
        apply_inserts(live.update(pending[0].0 as int, Some(pending[0].1)), pending.drop_first())
    }
}

pub open spec fn requests_in_range(n: int, reqs: Seq<TransferItems>) -> bool {
    forall|i: int| 0 <= i < reqs.len() ==> (#[trigger] reqs[i]).from_slot < n && reqs[i].to_slot < n
}

/// The stacks after a batch of requests.
pub open spec fn transfer_batch(live: Seq<Option<ItemStack>>, reqs: Seq<TransferItems>) -> Seq<
    Option<ItemStack>,
> {
    let r = transfer_run(live, Seq::empty(), reqs);
    apply_inserts(r.0, r.1)
}

impl Slots {
    pub open spec fn view(&self) -> Seq<Option<ItemStack>> {
        self.stacks@
    }

    /// Handles a batch of transfer requests, as one run of the transfer
    /// system does: every request is handled, in order, against the stacks as
    /// they are; a stack created in an empty slot appears only after the
    /// batch. Returns how many requests were handled: all of them.
    pub fn transfer_items(&mut self, requests: &Vec<TransferItems>) -> (handled: usize)
        requires
            requests_in_range(old(self)@.len() as int, requests@),
        ensures
            final(self)@ == transfer_batch(old(self)@, requests@),
            handled == requests@.len(),
    {
        let ghost live0 = self@;
        let n = self.stacks.len();
        let mut pending: Vec<(usize, ItemStack)> = Vec::new();
        let mut i: usize = 0;
        assert(requests@.subrange(0, requests@.len() as int) =~= requests@);
        while i < requests.len()
            invariant
                n == self@.len(),
                n == live0.len(),
                live0 == old(self)@,
                i <= requests@.len(),
                requests_in_range(n as int, requests@),
                forall|j: int| 0 <= j < pending@.len() ==> (#[trigger] pending@[j]).0 < n,
                ({
                    transfer_run(live0, Seq::empty(), requests@) == transfer_run(
                        self@,
                        pending@,
                        requests@.subrange(i as int, requests@.len() as int),
                    )
                }),
            decreases requests.len() - i,
        {
            let r = requests[i];
            let ghost rest = requests@.subrange(i as int, requests@.len() as int);
            assert(rest[0] == r);
            assert(rest.drop_first() =~= requests@.subrange(i + 1, requests@.len() as int));
            let from = r.from_slot;
            let to = r.to_slot;
            proof {
                assert(requests@[i as int] == r);
            }
            if from != to && self.stacks[from].is_some() && self.stacks[to].is_some() {
                let f = self.stacks[from].unwrap();
                let t = self.stacks[to].unwrap();
                if f.item != t.item {
                    i = i + 1;
                    continue;
                }
                let actual = if f.quantity <= r.quantity {
                    f.quantity
                } else {
                    r.quantity
                };
                let new_to = t.quantity.saturating_add(actual);
                self.stacks.set(from, Some(ItemStack { item: f.item, quantity: f.quantity - actual }));
                self.stacks.set(to, Some(ItemStack { item: t.item, quantity: new_to }));
                i = i + 1;
                continue;
            }
            if self.stacks[from].is_some() {
                let f = self.stacks[from].unwrap();
                let actual = if f.quantity <= r.quantity {
                    f.quantity
                } else {
                    r.quantity
                };
                self.stacks.set(from, Some(ItemStack { item: f.item, quantity: f.quantity - actual }));
                pending.push((to, ItemStack { item: f.item, quantity: actual }));
            }
            i = i + 1;
        }
        assert(requests@.subrange(i as int, requests@.len() as int) =~= Seq::<TransferItems>::empty());
        self.finish(pending, Ghost(live0), Ghost(requests@));
        requests.len()
    }

    /// Puts the pending stacks into their slots once a batch is over.
    fn finish(
        &mut self,
        pending: Vec<(usize, ItemStack)>,
        Ghost(live0): Ghost<Seq<Option<ItemStack>>>,
        Ghost(reqs): Ghost<Seq<TransferItems>>,
    )
        requires
            forall|j: int| 0 <= j < pending@.len() ==> (#[trigger] pending@[j]).0 < old(self)@.len(),
            transfer_run(live0, Seq::empty(), reqs) == (old(self)@, pending@),
        ensures
            final(self)@ == transfer_batch(live0, reqs),
    {
        let mut k: usize = 0;
        let ghost l1 = self@;
        assert(pending@.subrange(0, pending@.len() as int) =~= pending@);
        while k < pending.len()
            invariant
                k <= pending@.len(),
                self@.len() == l1.len(),
                forall|j: int| 0 <= j < pending@.len() ==> (#[trigger] pending@[j]).0 < l1.len(),
                apply_inserts(l1, pending@) == apply_inserts(
                    self@,
                    pending@.subrange(k as int, pending@.len() as int),
                ),
            decreases pending.len() - k,
        {
            let (slot, stack) = pending[k];
            let ghost rest = pending@.subrange(k as int, pending@.len() as int);
            assert(rest.drop_first() =~= pending@.subrange(k + 1, pending@.len() as int));
            assert(rest[0] == pending@[k as int]);
            self.stacks.set(slot, Some(stack));
            k = k + 1;
        }
        assert(pending@.subrange(k as int, pending@.len() as int) =~= Seq::<(usize, ItemStack)>::empty());
    }
}


/// A single transfer between two stacks of the same item that does not
/// saturate the target moves exactly `min(source, requested)` items and keeps
/// their sum.
pub proof fn lemma_transfer_conserves(live: Seq<Option<ItemStack>>, r: TransferItems)
    requires
        r.from_slot < live.len(),
        r.to_slot < live.len(),
        r.from_slot != r.to_slot,
        live[r.from_slot as int] is Some,
        live[r.to_slot as int] is Some,
        live[r.from_slot as int].unwrap().item == live[r.to_slot as int].unwrap().item,
        live[r.to_slot as int].unwrap().quantity + (if live[r.from_slot as int].unwrap().quantity
            <= r.quantity {
            live[r.from_slot as int].unwrap().quantity
        } else {
            r.quantity
        }) <= u32::MAX,
    ensures
        ({
            let (l2, ins) = transfer_step(live, r);
            let f = live[r.from_slot as int].unwrap();
            let t = live[r.to_slot as int].unwrap();
            let moved = if f.quantity <= r.quantity {
                f.quantity
            } else {
                r.quantity
            };
            &&& ins is None
            &&& l2[r.from_slot as int] == Some(ItemStack { item: f.item, quantity: (f.quantity - moved) as u32 })
            &&& l2[r.to_slot as int] == Some(ItemStack { item: t.item, quantity: (t.quantity + moved) as u32 })
            &&& l2[r.from_slot as int].unwrap().quantity + l2[r.to_slot as int].unwrap().quantity
                == f.quantity + t.quantity
            &&& forall|j: int| 0 <= j < live.len() && j != r.from_slot && j != r.to_slot ==> l2[j] == live[j]
        }),
{
}

/// A transfer out of a stack into a slot without a stack (or onto itself)
/// takes exactly the smaller of what the source holds and what was asked:
/// that many leave the source, and a stack of exactly that many is put into
/// the target once the batch is over.
pub proof fn lemma_transfer_never_creates_items(live: Seq<Option<ItemStack>>, r: TransferItems)
    requires
        r.from_slot < live.len(),
        r.to_slot < live.len(),
        live[r.from_slot as int] is Some,
        !(r.from_slot != r.to_slot && live[r.to_slot as int] is Some),
    ensures
        ({
            let (l2, ins) = transfer_step(live, r);
            let before = live[r.from_slot as int].unwrap();
            let moved = if before.quantity <= r.quantity {
                before.quantity
            } else {
                r.quantity
            };
            &&& ins is Some
            &&& ins.unwrap().0 == r.to_slot
            &&& ins.unwrap().1.item == before.item
            &&& ins.unwrap().1.quantity == moved
            &&& ins.unwrap().1.quantity <= r.quantity
            &&& ins.unwrap().1.quantity <= before.quantity
            &&& (ins.unwrap().1.quantity == r.quantity || ins.unwrap().1.quantity == before.quantity)
            &&& l2[r.from_slot as int] == Some(ItemStack { item: before.item, quantity: (before.quantity - moved) as u32 })
            &&& l2[r.from_slot as int].unwrap().quantity + ins.unwrap().1.quantity == before.quantity
            &&& forall|j: int| 0 <= j < live.len() && j != r.from_slot ==> l2[j] == live[j]
        }),
{
}

/// One request from a stack into a slot without a stack: after the batch the
/// source holds the smaller of its quantity and the request less, and the
/// target a stack of exactly that many of the source's item; every other
/// slot is as it was.
pub proof fn lemma_batch_of_one_into_empty_slot(live: Seq<Option<ItemStack>>, r: TransferItems)
    requires
        r.from_slot < live.len(),
        r.to_slot < live.len(),
        r.from_slot != r.to_slot,
        live[r.from_slot as int] is Some,
        live[r.to_slot as int] is None,
    ensures
        ({
            let after = transfer_batch(live, seq![r]);
            let f = live[r.from_slot as int].unwrap();
            let moved = if f.quantity <= r.quantity {
                f.quantity
            } else {
                r.quantity
            };
            &&& after.len() == live.len()
            &&& after[r.from_slot as int] == Some(ItemStack { item: f.item, quantity: (f.quantity - moved) as u32 })
            &&& after[r.to_slot as int] == Some(ItemStack { item: f.item, quantity: moved })
            &&& forall|j: int| 0 <= j < live.len() && j != r.from_slot && j != r.to_slot ==> after[j] == live[j]
        }),
{
    let reqs = seq![r];
    let (l2, ins) = transfer_step(live, r);
    assert(reqs[0] == r);
    assert(reqs.drop_first() =~= Seq::<TransferItems>::empty());
    let p = Seq::<(usize, ItemStack)>::empty().push(ins.unwrap());
    assert(transfer_run(live, Seq::empty(), reqs) == transfer_run(l2, p, reqs.drop_first()));
    assert(transfer_run(live, Seq::empty(), reqs) == (l2, p));
    assert(p.drop_first() =~= Seq::<(usize, ItemStack)>::empty());
    assert(apply_inserts(l2, p) == apply_inserts(l2.update(p[0].0 as int, Some(p[0].1)), p.drop_first()));
}

/// How many of `item` the stacks hold together.
pub open spec fn total(stacks: Seq<ItemStack>, item: u64) -> int
    decreases stacks.len(),
{
    if stacks.len() == 0 {
        0
    } else {
        total(stacks.drop_last(), item) + if stacks.last().item == item {
            stacks.last().quantity as int
        } else {
            0
        }
    }
}

/// Whether the stacks hold at least the cost of every item of `cost`.
pub open spec fn affordable(stacks: Seq<ItemStack>, cost: Seq<(u64, u32)>) -> bool {
    forall|i: int| 0 <= i < cost.len() ==> total(stacks, (#[trigger] cost[i]).0) >= cost[i].1
}

/// No item's total exceeds `u32::MAX` (the per-item sums are kept in `u32`).
pub open spec fn totals_fit(stacks: Seq<ItemStack>) -> bool {
    forall|i: int| 0 <= i < stacks.len() ==> total(stacks, (#[trigger] stacks[i]).item) <= u32::MAX
}

pub open spec fn keys_distinct(cost: Seq<(u64, u32)>) -> bool {
    forall|i: int, j: int| 0 <= i < j < cost.len() ==> (#[trigger] cost[i]).0 != (#[trigger] cost[j]).0
}

/// The index of the first stack of `item`.
pub open spec fn first_index(stacks: Seq<ItemStack>, item: u64) -> Option<int>
    decreases stacks.len(),
{
    if stacks.len() == 0 {
        None
    } else if stacks[0].item == item {
        Some(0)
    } else {
        match first_index(stacks.drop_first(), item) {
            Some(i) => Some(i + 1),
            None => None,
        }
    }
}

/// Pays a cost: for each entry in turn, its quantity is taken from the first
/// stack of its item, if there is one.
pub open spec fn spend_spec(stacks: Seq<ItemStack>, cost: Seq<(u64, u32)>) -> Seq<ItemStack>
    decreases cost.len(),
{
    if cost.len() == 0 {
        stacks
    } else {
        let s2 = match first_index(stacks, cost[0].0) {
            None => stacks,
            Some(i) => stacks.update(
                i,
                ItemStack { item: stacks[i].item, quantity: (stacks[i].quantity - cost[0].1) as u32 },
            ),
        };
        spend_spec(s2, cost.drop_first())
    }
}

/// Paying takes no stack below zero.
pub open spec fn spend_ok(stacks: Seq<ItemStack>, cost: Seq<(u64, u32)>) -> bool
    decreases cost.len(),
{
    if cost.len() == 0 {
        true
    } else {
        match first_index(stacks, cost[0].0) {
            None => spend_ok(stacks, cost.drop_first()),
            Some(i) => stacks[i].quantity >= cost[0].1 && spend_ok(
                stacks.update(
                    i,
                    ItemStack { item: stacks[i].item, quantity: (stacks[i].quantity - cost[0].1) as u32 },
                ),
                cost.drop_first(),
            ),
        }
    }
}

proof fn lemma_first_index(stacks: Seq<ItemStack>, item: u64)
    ensures
        match first_index(stacks, item) {
            Some(i) => 0 <= i < stacks.len() && stacks[i].item == item && forall|j: int|
                0 <= j < i ==> stacks[j].item != item,
            None => forall|j: int| 0 <= j < stacks.len() ==> stacks[j].item != item,
        },
    decreases stacks.len(),
{
    if stacks.len() > 0 && stacks[0].item != item {
        lemma_first_index(stacks.drop_first(), item);
        match first_index(stacks.drop_first(), item) {
            Some(i) => {
                assert forall|j: int| 0 <= j < i + 1 implies stacks[j].item != item by {
                    if j > 0 {
                        assert(stacks[j] == stacks.drop_first()[j - 1]);
                    }
                }
            },
            None => {
                assert forall|j: int| 0 <= j < stacks.len() implies stacks[j].item != item by {
                    if j > 0 {
                        assert(stacks[j] == stacks.drop_first()[j - 1]);
                    }
                }
            },
        }
    }
}

proof fn lemma_total_nonneg(stacks: Seq<ItemStack>, item: u64)
    ensures
        total(stacks, item) >= 0,
    decreases stacks.len(),
{
    if stacks.len() > 0 {
        lemma_total_nonneg(stacks.drop_last(), item);
    }
}

/// A prefix holds no more of an item than the whole.
proof fn lemma_total_prefix(stacks: Seq<ItemStack>, item: u64, j: int)
    requires
        0 <= j <= stacks.len(),
    ensures
        total(stacks.take(j), item) <= total(stacks, item),
    decreases stacks.len() - j,
{
    if j < stacks.len() {
        lemma_total_prefix(stacks, item, j + 1);
        assert(stacks.take(j + 1).drop_last() =~= stacks.take(j));
    } else {
        assert(stacks.take(j) =~= stacks);
    }
}

/// Stacks holding none of an item hold zero of it in total.
proof fn lemma_total_absent(stacks: Seq<ItemStack>, item: u64)
    requires
        forall|j: int| 0 <= j < stacks.len() ==> stacks[j].item != item,
    ensures
        total(stacks, item) == 0,
    decreases stacks.len(),
{
    if stacks.len() > 0 {
        lemma_total_absent(stacks.drop_last(), item);
    }
}

/// Changing the quantity of one stack changes the total of its item by the
/// difference and no other total.
proof fn lemma_total_update(stacks: Seq<ItemStack>, i: int, q: u32, item: u64)
    requires
        0 <= i < stacks.len(),
    ensures
        total(stacks.update(i, ItemStack { item: stacks[i].item, quantity: q }), item) == total(
            stacks,
            item,
        ) + if stacks[i].item == item {
            q - stacks[i].quantity
        } else {
            0
        },
    decreases stacks.len(),
{
    let s2 = stacks.update(i, ItemStack { item: stacks[i].item, quantity: q });
    if i == stacks.len() - 1 {
        assert(s2.drop_last() =~= stacks.drop_last());
    } else {
        assert(s2.drop_last() =~= stacks.drop_last().update(
            i,
            ItemStack { item: stacks[i].item, quantity: q },
        ));
        lemma_total_update(stacks.drop_last(), i, q, item);
    }
}

/// Whether an inventory, given by the stacks in its slots, holds at least the
/// cost of each item. An empty cost is always affordable.
pub fn can_afford(stacks: &Vec<ItemStack>, cost: &Vec<(u64, u32)>) -> (r: bool)
    requires
        cost@.len() > 0 ==> totals_fit(stacks@),
    ensures
        r == affordable(stacks@, cost@),
{
    if cost.len() == 0 {
        return true;
    }
    let mut i: usize = 0;
    while i < cost.len()
        invariant
            i <= cost@.len(),
            totals_fit(stacks@),
            forall|k: int| 0 <= k < i ==> total(stacks@, (#[trigger] cost@[k]).0) >= cost@[k].1,
        decreases cost.len() - i,
    {
        let (item, required) = cost[i];
        let mut available: u32 = 0;
        let mut j: usize = 0;
        while j < stacks.len()
            invariant
                j <= stacks@.len(),
                totals_fit(stacks@),
                available == total(stacks@.take(j as int), item),
            decreases stacks.len() - j,
        {
            assert(stacks@.take(j + 1).drop_last() =~= stacks@.take(j as int));
            if stacks[j].item == item {
                proof {
                    lemma_total_prefix(stacks@, item, j + 1);
                    assert(total(stacks@, stacks@[j as int].item) <= u32::MAX);
                }
                available = available + stacks[j].quantity;
            }
            j = j + 1;
        }
        assert(stacks@.take(j as int) =~= stacks@);
        if available < required {
            return false;
        }
        i = i + 1;
    }
    true
}

/// Pays a cost out of the stacks: for each entry, its quantity is taken from
/// the first stack of its item; an item with no stack is skipped.
pub fn spend(stacks: &mut Vec<ItemStack>, cost: &Vec<(u64, u32)>)
    requires
        spend_ok(old(stacks)@, cost@),
    ensures
        final(stacks)@ == spend_spec(old(stacks)@, cost@),
{
    let mut i: usize = 0;
    assert(cost@.subrange(0, cost@.len() as int) =~= cost@);
    while i < cost.len()
        invariant
            i <= cost@.len(),
            spend_ok(stacks@, cost@.subrange(i as int, cost@.len() as int)),
            spend_spec(old(stacks)@, cost@) == spend_spec(
                stacks@,
                cost@.subrange(i as int, cost@.len() as int),
            ),
        decreases cost.len() - i,
    {
        let ghost rest = cost@.subrange(i as int, cost@.len() as int);
        assert(rest.drop_first() =~= cost@.subrange(i + 1, cost@.len() as int));
        let (item, quantity) = cost[i];
        assert(rest[0] == (item, quantity));
        let mut j: usize = 0;
        proof {
            lemma_first_index(stacks@, item);
        }
        while j < stacks.len()
            invariant
                j <= stacks@.len(),
                forall|k: int| 0 <= k < j ==> stacks@[k].item != item,
            ensures
                j <= stacks@.len(),
                forall|k: int| 0 <= k < j ==> stacks@[k].item != item,
                j < stacks@.len() ==> stacks@[j as int].item == item,
            decreases stacks.len() - j,
        {
            if stacks[j].item == item {
                break;
            }
            j = j + 1;
        }
        if j < stacks.len() {
            assert(first_index(stacks@, item) == Some(j as int));
            let s = stacks[j];
            stacks.set(j, ItemStack { item: s.item, quantity: s.quantity - quantity });
        } else {
            assert(first_index(stacks@, item) is None);
        }
        i = i + 1;
    }
    assert(cost@.subrange(i as int, cost@.len() as int) =~= Seq::<(u64, u32)>::empty());
}

/// Paying an affordable cost whose items each sit in a single stack takes no
/// stack below zero.
pub proof fn lemma_affordable_single_stacks_spend_ok(stacks: Seq<ItemStack>, cost: Seq<(u64, u32)>)
    requires
        affordable(stacks, cost),
        keys_distinct(cost),
        forall|k: int| 0 <= k < cost.len() ==> single_stack(stacks, (#[trigger] cost[k]).0),
    ensures
        spend_ok(stacks, cost),
    decreases cost.len(),
{
    if cost.len() > 0 {
        let item = cost[0].0;
        lemma_first_index(stacks, item);
        let rest = cost.drop_first();
        match first_index(stacks, item) {
            None => {
                assert(affordable(stacks, rest)) by {
                    assert forall|i: int| 0 <= i < rest.len() implies total(stacks, (#[trigger] rest[i]).0)
                        >= rest[i].1 by {
                        assert(rest[i] == cost[i + 1]);
                    }
                }
                lemma_affordable_single_stacks_spend_ok(stacks, rest);
            },
            Some(idx) => {
                // the first stack of the item is its only one, so it holds the item's total
                assert forall|j: int| 0 <= j < stacks.len() && j != idx implies stacks[j].item != item by {
                    assert(single_stack(stacks, cost[0].0));
                    if j > idx {
                        assert(stacks[j].item != cost[0].0);
                    } else {
                        assert(!(stacks[j].item == item && stacks[idx].item == item));
                    }
                }
                let q = (stacks[idx].quantity - 0) as u32;
                lemma_total_update(stacks, idx, 0, item);
                let zeroed = stacks.update(idx, ItemStack { item: stacks[idx].item, quantity: 0 });
                lemma_total_absent_but(zeroed, idx, item);
                assert(total(stacks, item) == stacks[idx].quantity);
                assert(total(stacks, cost[0].0) >= cost[0].1);
                let s2 = stacks.update(
                    idx,
                    ItemStack { item: stacks[idx].item, quantity: (stacks[idx].quantity - cost[0].1) as u32 },
                );
                assert forall|i: int| 0 <= i < rest.len() implies total(s2, (#[trigger] rest[i]).0)
                    >= rest[i].1 by {
                    assert(rest[i] == cost[i + 1]);
                    lemma_total_update(stacks, idx, (stacks[idx].quantity - cost[0].1) as u32, rest[i].0);
                }
                assert forall|k: int| 0 <= k < rest.len() implies single_stack(s2, (#[trigger] rest[k]).0) by {
                    assert(rest[k] == cost[k + 1]);
                    assert(single_stack(stacks, cost[k + 1].0));
                    assert forall|a: int, b: int| 0 <= a < b < s2.len() implies !((#[trigger] s2[a]).item
                        == rest[k].0 && (#[trigger] s2[b]).item == rest[k].0) by {
                        assert(s2[a].item == stacks[a].item);
                        assert(s2[b].item == stacks[b].item);
                    }
                }
                assert(keys_distinct(rest)) by {
                    assert forall|i: int, j: int| 0 <= i < j < rest.len() implies (#[trigger] rest[i]).0
                        != (#[trigger] rest[j]).0 by {
                        assert(rest[i] == cost[i + 1]);
                        assert(rest[j] == cost[j + 1]);
                    }
                }
                lemma_affordable_single_stacks_spend_ok(s2, rest);
            },
        }
    }
}

/// At most one of the stacks holds `item`.
pub open spec fn single_stack(stacks: Seq<ItemStack>, item: u64) -> bool {
    forall|a: int, b: int|
        0 <= a < b < stacks.len() ==> !((#[trigger] stacks[a]).item == item && (#[trigger] stacks[b]).item
            == item)
}

/// Stacks whose only stack of `item` holds zero hold zero of it.
proof fn lemma_total_absent_but(stacks: Seq<ItemStack>, idx: int, item: u64)
    requires
        0 <= idx < stacks.len(),
        stacks[idx].quantity == 0,
        forall|j: int| 0 <= j < stacks.len() && j != idx ==> stacks[j].item != item,
    ensures
        total(stacks, item) == 0,
    decreases stacks.len(),
{
    if stacks.len() > 0 {
        if idx < stacks.len() - 1 {
            lemma_total_absent_but(stacks.drop_last(), idx, item);
        } else {
            lemma_total_absent(stacks.drop_last(), item);
        }
    }
}

/// Paying a cost (with distinct items) that takes no stack below zero lowers
/// the total of each item in the cost by its entry, provided some stack holds
/// the item, and leaves every other item's total alone.
pub proof fn lemma_spend_deducts_cost(stacks: Seq<ItemStack>, cost: Seq<(u64, u32)>, item: u64)
    requires
        keys_distinct(cost),
        spend_ok(stacks, cost),
    ensures
        forall|k: int|
            0 <= k < cost.len() && (#[trigger] cost[k]).0 == item && first_index(stacks, item) is Some
                ==> total(spend_spec(stacks, cost), item) == total(stacks, item) - cost[k].1,
        (forall|k: int| 0 <= k < cost.len() ==> (#[trigger] cost[k]).0 != item) ==> total(
            spend_spec(stacks, cost),
            item,
        ) == total(stacks, item),
        first_index(stacks, item) is None ==> total(spend_spec(stacks, cost), item) == total(
            stacks,
            item,
        ),
    decreases cost.len(),
{
    if cost.len() > 0 {
        let rest = cost.drop_first();
        assert(keys_distinct(rest)) by {
            assert forall|i: int, j: int| 0 <= i < j < rest.len() implies (#[trigger] rest[i]).0
                != (#[trigger] rest[j]).0 by {
                assert(rest[i] == cost[i + 1]);
                assert(rest[j] == cost[j + 1]);
            }
        }
        lemma_first_index(stacks, cost[0].0);
        lemma_first_index(stacks, item);
        match first_index(stacks, cost[0].0) {
            None => {
                lemma_spend_deducts_cost(stacks, rest, item);
                assert forall|k: int|
                    0 <= k < cost.len() && (#[trigger] cost[k]).0 == item && first_index(stacks, item) is Some
                        implies total(spend_spec(stacks, cost), item) == total(stacks, item) - cost[k].1 by {
                    if k == 0 {
                    } else {
                        assert(rest[k - 1] == cost[k]);
                    }
                }
                assert((forall|k: int| 0 <= k < cost.len() ==> (#[trigger] cost[k]).0 != item) ==> (forall|
                    k: int,
                | 0 <= k < rest.len() ==> (#[trigger] rest[k]).0 != item)) by {
                    if forall|k: int| 0 <= k < cost.len() ==> (#[trigger] cost[k]).0 != item {
                        assert forall|k: int| 0 <= k < rest.len() implies (#[trigger] rest[k]).0 != item by {
                            assert(rest[k] == cost[k + 1]);
                        }
                    }
                }
            },
            Some(idx) => {
                let s2 = stacks.update(
                    idx,
                    ItemStack { item: stacks[idx].item, quantity: (stacks[idx].quantity - cost[0].1) as u32 },
                );
                lemma_total_update(stacks, idx, (stacks[idx].quantity - cost[0].1) as u32, item);
                lemma_spend_deducts_cost(s2, rest, item);
                lemma_first_index(s2, item);
                // the first stack of any item is the same before and after
                assert(first_index(s2, item) is Some <==> first_index(stacks, item) is Some) by {
                    if first_index(stacks, item) is Some {
                        let fi = first_index(stacks, item).unwrap();
                        assert(s2[fi].item == item);
                    } else {
                        assert forall|j: int| 0 <= j < s2.len() implies s2[j].item != item by {
                            assert(s2[j].item == stacks[j].item);
                        }
                    }
                }
                assert forall|k: int|
                    0 <= k < cost.len() && (#[trigger] cost[k]).0 == item && first_index(stacks, item) is Some
                        implies total(spend_spec(stacks, cost), item) == total(stacks, item) - cost[k].1 by {
                    if k == 0 {
                        assert forall|kk: int| 0 <= kk < rest.len() implies (#[trigger] rest[kk]).0 != item by {
                            assert(rest[kk] == cost[kk + 1]);
                        }
                    } else {
                        assert(rest[k - 1] == cost[k]);
                        assert(cost[0].0 != item);
                    }
                }
                assert((forall|k: int| 0 <= k < cost.len() ==> (#[trigger] cost[k]).0 != item) ==> (forall|
                    k: int,
                | 0 <= k < rest.len() ==> (#[trigger] rest[k]).0 != item)) by {
                    if forall|k: int| 0 <= k < cost.len() ==> (#[trigger] cost[k]).0 != item {
                        assert forall|k: int| 0 <= k < rest.len() implies (#[trigger] rest[k]).0 != item by {
                            assert(rest[k] == cost[k + 1]);
                        }
                    }
                }
                if first_index(stacks, item) is None {
                    assert(stacks[idx].item != item);
                }
            },
        }
    }
}


/// How many of `item` a slot's stack holds.
pub open spec fn stack_count(s: Option<ItemStack>, item: u64) -> int {
    match s {
        Some(st) => if st.item == item {
            st.quantity as int
        } else {
            0
        },
        None => 0,
    }
}

/// How many of `item` the slots hold together.
pub open spec fn slot_total(slots: Seq<Option<ItemStack>>, item: u64) -> int
    decreases slots.len(),
{
    if slots.len() == 0 {
        0
    } else {
        slot_total(slots.drop_last(), item) + stack_count(slots.last(), item)
    }
}

/// How many of `item` the stacks still to be put into slots hold.
pub open spec fn pending_total(pending: Seq<(usize, ItemStack)>, item: u64) -> int
    decreases pending.len(),
{
    if pending.len() == 0 {
        0
    } else {
        stack_count(Some(pending[0].1), item) + pending_total(pending.drop_first(), item)
    }
}

proof fn lemma_stack_count_nonneg(s: Option<ItemStack>, item: u64)
    ensures
        stack_count(s, item) >= 0,
{
}

proof fn lemma_slot_total_update(slots: Seq<Option<ItemStack>>, i: int, v: Option<ItemStack>, item: u64)
    requires
        0 <= i < slots.len(),
    ensures
        slot_total(slots.update(i, v), item) == slot_total(slots, item) - stack_count(slots[i], item)
            + stack_count(v, item),
    decreases slots.len(),
{
    let s2 = slots.update(i, v);
    if i == slots.len() - 1 {
        assert(s2.drop_last() =~= slots.drop_last());
    } else {
        assert(s2.drop_last() =~= slots.drop_last().update(i, v));
        lemma_slot_total_update(slots.drop_last(), i, v, item);
    }
}

proof fn lemma_pending_push(pending: Seq<(usize, ItemStack)>, x: (usize, ItemStack), item: u64)
    ensures
        pending_total(pending.push(x), item) == pending_total(pending, item) + stack_count(Some(x.1), item),
    decreases pending.len(),
{
    let p2 = pending.push(x);
    assert(p2[0] == if pending.len() == 0 { x } else { pending[0] });
    if pending.len() == 0 {
        assert(p2.drop_first() =~= Seq::<(usize, ItemStack)>::empty());
        assert(pending_total(p2.drop_first(), item) == 0);
    } else {
        assert(p2.drop_first() =~= pending.drop_first().push(x));
        lemma_pending_push(pending.drop_first(), x, item);
    }
}

proof fn lemma_apply_inserts_bound(live: Seq<Option<ItemStack>>, pending: Seq<(usize, ItemStack)>, item: u64)
    requires
        forall|j: int| 0 <= j < pending.len() ==> (#[trigger] pending[j]).0 < live.len(),
    ensures
        slot_total(apply_inserts(live, pending), item) <= slot_total(live, item) + pending_total(pending, item),
    decreases pending.len(),
{
    if pending.len() > 0 {
        let l2 = live.update(pending[0].0 as int, Some(pending[0].1));
        lemma_slot_total_update(live, pending[0].0 as int, Some(pending[0].1), item);
        lemma_stack_count_nonneg(live[pending[0].0 as int], item);
        assert forall|j: int| 0 <= j < pending.drop_first().len() implies (#[trigger] pending.drop_first()[j]).0
            < l2.len() by {
            assert(pending.drop_first()[j] == pending[j + 1]);
        }
        lemma_apply_inserts_bound(l2, pending.drop_first(), item);
    }
}

proof fn lemma_run_bound(
    live: Seq<Option<ItemStack>>,
    pending: Seq<(usize, ItemStack)>,
    reqs: Seq<TransferItems>,
    item: u64,
)
    requires
        requests_in_range(live.len() as int, reqs),
        forall|j: int| 0 <= j < pending.len() ==> (#[trigger] pending[j]).0 < live.len(),
    ensures
        ({
            let r = transfer_run(live, pending, reqs);
            &&& r.0.len() == live.len()
            &&& forall|j: int| 0 <= j < r.1.len() ==> (#[trigger] r.1[j]).0 < live.len()
            &&& slot_total(r.0, item) + pending_total(r.1, item) <= slot_total(live, item) + pending_total(
                pending,
                item,
            )
        }),
    decreases reqs.len(),
{
    if reqs.len() > 0 {
        let r = reqs[0];
        assert(r == reqs[0]);
        let from = r.from_slot as int;
        let to = r.to_slot as int;
        let (l2, ins) = transfer_step(live, r);
        let p2 = match ins {
            Some(x) => pending.push(x),
            None => pending,
        };
        if from != to && live[from] is Some && live[to] is Some {
            let f = live[from].unwrap();
            let t = live[to].unwrap();
            if f.item == t.item {
                let actual = min_u32(f.quantity, r.quantity);
                let l1 = live.update(from, Some(ItemStack { item: f.item, quantity: (f.quantity - actual) as u32 }));
                lemma_slot_total_update(live, from, Some(ItemStack { item: f.item, quantity: (f.quantity - actual) as u32 }), item);
                lemma_slot_total_update(l1, to, Some(ItemStack { item: t.item, quantity: saturating_add_u32(t.quantity, actual) }), item);
            }
        } else if live[from] is Some {
            let f = live[from].unwrap();
            let actual = min_u32(f.quantity, r.quantity);
            lemma_slot_total_update(live, from, Some(ItemStack { item: f.item, quantity: (f.quantity - actual) as u32 }), item);
            lemma_pending_push(pending, (r.to_slot, ItemStack { item: f.item, quantity: actual }), item);
        }
        assert forall|j: int| 0 <= j < p2.len() implies (#[trigger] p2[j]).0 < l2.len() by {
            if j < pending.len() {
                assert(p2[j] == pending[j]);
            }
        }
        assert(requests_in_range(live.len() as int, reqs.drop_first())) by {
            assert forall|i: int| 0 <= i < reqs.drop_first().len() implies (#[trigger] reqs.drop_first()[i]).from_slot
                < live.len() && reqs.drop_first()[i].to_slot < live.len() by {
                assert(reqs.drop_first()[i] == reqs[i + 1]);
            }
        }
        lemma_run_bound(l2, p2, reqs.drop_first(), item);
    }
}

/// Transfers never create items: after a batch, the slots hold no more of
/// any item than before. (Items can be lost: a saturated target, a transfer
/// of a slot onto itself, or two stacks put into the same empty slot.)
pub proof fn lemma_batch_never_creates_items(
    live: Seq<Option<ItemStack>>,
    reqs: Seq<TransferItems>,
    item: u64,
)
    requires
        requests_in_range(live.len() as int, reqs),
    ensures
        slot_total(transfer_batch(live, reqs), item) <= slot_total(live, item),
{
    lemma_run_bound(live, Seq::empty(), reqs, item);
    let r = transfer_run(live, Seq::empty(), reqs);
    lemma_apply_inserts_bound(r.0, r.1, item);
}

} // verus!
