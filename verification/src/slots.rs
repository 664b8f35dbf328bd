//! UI item slots: each slot holds at most one item entity, each item sits in
//! at most one slot, and dragging an item onto a slot swaps it with what the
//! slot held.
use vstd::prelude::*;

verus! {

/// What a drag and drop tells the slots' observers.
#[derive(Clone, Copy, Debug, PartialEq, Eq, Structural)]
pub enum SlotEvent {
    RemovedFromSlot { slot: usize, item: usize },
    AddedToSlot { slot: usize, item: usize },
}

/// The item in each slot; slots are named by index.
#[derive(Clone, Debug)]
pub struct SlotBoard {
    pub occupant: Vec<Option<usize>>,
}

/// No item sits in two slots.
pub open spec fn board_wf(b: Seq<Option<usize>>) -> bool {
    forall|i: int, j: int|
        0 <= i < b.len() && 0 <= j < b.len() && i != j && (#[trigger] b[i]) is Some ==> #[trigger] b[j]
            != b[i]
}

/// The slot that holds `item`.
pub open spec fn slot_of(b: Seq<Option<usize>>, item: usize) -> Option<int> {
    if exists|i: int| 0 <= i < b.len() && b[i] == Some(item) {
        Some(choose|i: int| 0 <= i < b.len() && b[i] == Some(item))
    } else {
        None
    }
}

/// The board after `item` is dropped on slot `dest`: if the item sits in
/// another slot, it moves to `dest` and what `dest` held (if anything) moves
/// to the item's old slot.
pub open spec fn drop_spec(b: Seq<Option<usize>>, item: usize, dest: int) -> Seq<Option<usize>> {
    match slot_of(b, item) {
        None => b,
        Some(src) => if src == dest {
            b
        } else {
            b.update(dest, Some(item)).update(src, b[dest])
        },
    }
}

/// The events of that drop, in the order the observers get them.
pub open spec fn drop_events(b: Seq<Option<usize>>, item: usize, dest: int) -> Seq<SlotEvent> {
    match slot_of(b, item) {
        None => Seq::empty(),
        Some(src) => if src == dest {
            Seq::empty()
        } else {
            let first = seq![SlotEvent::RemovedFromSlot { slot: src as usize, item }];
            let swapped = match b[dest] {
                Some(other) => seq![
                    SlotEvent::RemovedFromSlot { slot: dest as usize, item: other },
                    SlotEvent::AddedToSlot { slot: src as usize, item: other },
                ],
                None => Seq::empty(),
            };
            first + swapped + seq![SlotEvent::AddedToSlot { slot: dest as usize, item }]
        },
    }
}

proof fn lemma_slot_of_unique(b: Seq<Option<usize>>, item: usize, i: int)
    requires
        board_wf(b),
        0 <= i < b.len(),
        b[i] == Some(item),
    ensures
        slot_of(b, item) == Some(i),
{
    let k = choose|k: int| 0 <= k < b.len() && b[k] == Some(item);
    if k != i {
        assert(b[k] != b[i]);
    }
}

impl SlotBoard {
    pub open spec fn view(&self) -> Seq<Option<usize>> {
        self.occupant@
    }

    /// `item` is dropped on slot `dest`: it moves there, swapping places with
    /// the item that `dest` held, if any. Dropping an item on its own slot, or
    /// one that is in no slot, changes nothing.
    pub fn drag_and_drop(&mut self, item: usize, dest: usize) -> (events: Vec<SlotEvent>)
        requires
            board_wf(old(self)@),
            dest < old(self)@.len(),
        ensures
            final(self)@ == drop_spec(old(self)@, item, dest as int),
            events@ == drop_events(old(self)@, item, dest as int),
            board_wf(final(self)@),
    {
        let mut src: usize = 0;
        let mut found = false;
        while src < self.occupant.len()
            invariant_except_break
                !found,
            invariant
                forall|j: int| 0 <= j < src ==> self@[j] != Some(item),
                src <= self@.len(),
            ensures
                found ==> src < self@.len() && self@[src as int] == Some(item),
                !found ==> forall|j: int| 0 <= j < self@.len() ==> self@[j] != Some(item),
            decreases self.occupant.len() - src,
        {
            if self.occupant[src] == Some(item) {
                found = true;
                break;
            }
            src = src + 1;
        }
        let mut events: Vec<SlotEvent> = Vec::new();
        if !found {
            assert(events@ =~= drop_events(old(self)@, item, dest as int));
            return events;
        }
        proof {
            lemma_slot_of_unique(self@, item, src as int);
        }
        if src == dest {
            assert(events@ =~= drop_events(old(self)@, item, dest as int));
            return events;
        }
        let other = self.occupant[dest];
        self.occupant.set(dest, Some(item));
        self.occupant.set(src, other);
        events.push(SlotEvent::RemovedFromSlot { slot: src, item });
        if let Some(o) = other {
            events.push(SlotEvent::RemovedFromSlot { slot: dest, item: o });
            events.push(SlotEvent::AddedToSlot { slot: src, item: o });
        }
        events.push(SlotEvent::AddedToSlot { slot: dest, item });
        assert(events@ =~= drop_events(old(self)@, item, dest as int));
        proof {
            let b = old(self)@;
            let nb = self@;
            assert forall|i: int, j: int|
                0 <= i < nb.len() && 0 <= j < nb.len() && i != j && (#[trigger] nb[i]) is Some implies #[trigger] nb[j]
                != nb[i] by {
                if i != src && i != dest && j != src && j != dest {
                    assert(nb[i] == b[i] && nb[j] == b[j]);
                } else if i == dest {
                    if j != src {
                        assert(b[j] != b[src as int]);
                    }
                } else if j == dest {
                    if i != src {
                        assert(b[i] != b[src as int]);
                    }
                } else if i == src {
                    assert(b[j] != b[dest as int]);
                } else {
                    assert(b[i] != b[dest as int]);
                }
            }
        }
        events
    }
}

/// Dropping moves items between slots and never makes or loses one: a slot's
/// item after the drop was in some slot before, and every item held before is
/// held after.
pub proof fn lemma_drop_keeps_items(b: Seq<Option<usize>>, item: usize, dest: int)
    requires
        board_wf(b),
        0 <= dest < b.len(),
    ensures
        drop_spec(b, item, dest).len() == b.len(),
        forall|i: int| #![trigger b[i]] 0 <= i < b.len() && b[i] is Some ==> drop_spec(b, item, dest).contains(b[i]),
        forall|i: int|
            #![trigger drop_spec(b, item, dest)[i]]
            0 <= i < b.len() && drop_spec(b, item, dest)[i] is Some ==> b.contains(drop_spec(b, item, dest)[i]),
{
    let nb = drop_spec(b, item, dest);
    match slot_of(b, item) {
        None => {
            assert forall|i: int| #![trigger b[i]] 0 <= i < b.len() && b[i] is Some implies nb.contains(b[i]) by {
                assert(nb[i] == b[i]);
            }
            assert forall|i: int| #![trigger nb[i]] 0 <= i < b.len() && nb[i] is Some implies b.contains(nb[i]) by {
                assert(b[i] == nb[i]);
            }
        },
        Some(src) => {
            assert forall|i: int| #![trigger b[i]] 0 <= i < b.len() && b[i] is Some implies nb.contains(b[i]) by {
                if src == dest || (i != src && i != dest) {
                    assert(nb[i] == b[i]);
                } else if i == src {
                    assert(nb[dest] == b[i]);
                } else {
                    assert(nb[src] == b[i]);
                }
            }
            assert forall|i: int| #![trigger nb[i]] 0 <= i < b.len() && nb[i] is Some implies b.contains(nb[i]) by {
                if src == dest || (i != src && i != dest) {
                    assert(b[i] == nb[i]);
                } else if i == src {
                    assert(b[dest] == nb[i]);
                } else {
                    assert(b[src] == nb[i]);
                }
            }
        },
    }
}

/// Dropping an item back on the slot it came from undoes a drop.
pub proof fn lemma_drop_back_restores(b: Seq<Option<usize>>, item: usize, dest: int)
    requires
        board_wf(b),
        0 <= dest < b.len(),
        slot_of(b, item) is Some,
    ensures
        drop_spec(drop_spec(b, item, dest), item, slot_of(b, item).unwrap()) == b,
{
    let src = slot_of(b, item).unwrap();
    let k = choose|i: int| 0 <= i < b.len() && b[i] == Some(item);
    assert(b[src] == Some(item));
    if src != dest {
        let nb = drop_spec(b, item, dest);
        assert(nb[dest] == Some(item));
        assert(board_wf(nb)) by {
            assert forall|i: int, j: int|
                0 <= i < nb.len() && 0 <= j < nb.len() && i != j && (#[trigger] nb[i]) is Some implies #[trigger] nb[j]
                != nb[i] by {
                if i != src && i != dest && j != src && j != dest {
                    assert(nb[i] == b[i] && nb[j] == b[j]);
                } else if i == dest {
                    if j != src {
                        assert(b[j] != b[src]);
                    }
                } else if j == dest {
                    if i != src {
                        assert(b[i] != b[src]);
                    }
                } else if i == src {
                    assert(b[j] != b[dest]);
                } else {
                    assert(b[i] != b[dest]);
                }
            }
        }
        lemma_slot_of_unique(nb, item, dest);
        assert(drop_spec(nb, item, src) =~= b);
    }
}

} // verus!
