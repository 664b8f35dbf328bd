//! Porters sent out by producing structures along precomputed routes, and
//! their deliveries.
use crate::items::{one_added, one_taken, Inventory, Transport};
use crate::pathfinding::PorterPath;
use std::collections::HashMap;
use vstd::prelude::*;

verus! {

broadcast use vstd::std_specs::hash::group_hash_axioms;

/// A porter to send out: the item it carries (one of it), the input slot it
/// walks to, the route, and how it carries the item.
#[derive(Clone, Debug)]
pub struct PorterOrder {
    pub item: u64,
    pub input: usize,
    pub path: Vec<usize>,
    pub transport: Transport,
}

/// A producing structure's state for sending porters: which of its recipe's
/// outputs goes next, what it holds, and its routes in the order they are used.
#[derive(Clone, Debug)]
pub struct PorterSpawner {
    pub output_index: usize,
    pub inventory: Inventory,
    pub routes: Vec<PorterPath>,
}

impl PorterSpawner {
    /// Whether a porter is sent, given the spawn timer and the outputs of the
    /// selected recipe (in the order that the recipe lists them): the timer
    /// finished, the recipe is loaded, the output at the current index exists,
    /// is held at least once, there is a route, and the item's definition is
    /// loaded.
    pub open spec fn sends(
        &self,
        finished: bool,
        outputs: Option<Seq<u64>>,
        transports: Map<u64, Transport>,
    ) -> bool {
        &&& finished
        &&& outputs is Some
        &&& self.output_index < outputs.unwrap().len()
        &&& self.inventory@.contains_key(outputs.unwrap()[self.output_index as int])
        &&& self.inventory@[outputs.unwrap()[self.output_index as int]] > 0
        &&& self.routes@.len() > 0
        &&& transports.contains_key(outputs.unwrap()[self.output_index as int])
    }

    /// One tick of a producing structure. When it sends a porter (see
    /// `sends`), the porter carries the current output along the first route,
    /// one of that item leaves the inventory, the index moves to the next
    /// output (wrapping around) and the first route goes to the back.
    /// Otherwise nothing changes and no porter is sent. The caller resets the
    /// timer when a porter is sent.
    pub fn spawn_porter(
        &mut self,
        finished: bool,
        outputs: Option<&Vec<u64>>,
        transports: &HashMap<u64, Transport>,
    ) -> (order: Option<PorterOrder>)
        ensures
            ({
                let outs = match outputs {
                    Some(v) => Some(v@),
                    None => None,
                };
                if old(self).sends(finished, outs, transports@) {
                    let o = outs.unwrap();
                    let item = o[old(self).output_index as int];
                    &&& order is Some
                    &&& order.unwrap().item == item
                    &&& order.unwrap().input == old(self).routes@[0].input
                    &&& order.unwrap().path@ == old(self).routes@[0].path@
                    &&& order.unwrap().transport == transports@[item]
                    &&& final(self).inventory@ == one_taken(old(self).inventory@, item)
                    &&& final(self).output_index == (old(self).output_index + 1) % (o.len() as int)
                    &&& final(self).routes@ == rotate(old(self).routes@)
                } else {
                    &&& order is None
                    &&& final(self).inventory@ == old(self).inventory@
                    &&& final(self).output_index == old(self).output_index
                    &&& final(self).routes@ == old(self).routes@
                }
            }),
    {
        if !finished {
            return None;
        }
        let outs = match outputs {
            Some(v) => v,
            None => return None,
        };
        if self.output_index >= outs.len() {
            return None;
        }
        let item = outs[self.output_index];
        let quantity = match self.inventory.get(item) {
            Some(q) => q,
            None => return None,
        };
        if quantity == 0 {
            return None;
        }
        if self.routes.len() == 0 {
            return None;
        }
        let transport = match transports.get(&item) {
            Some(t) => *t,
            None => return None,
        };
        let first = self.routes.remove(0);
        let order = PorterOrder { item, input: first.input, path: first.path.clone(), transport };
        self.routes.push(first);
        self.inventory.take_one(item);
        self.output_index = (self.output_index + 1) % outs.len();
        proof {
            assert(self.routes@ =~= old(self).routes@.drop_first().push(old(self).routes@[0]));
        }
        Some(order)
    }
}

/// A porter arrived: it is despawned and the structure it walked to gains one
/// of the item it carried.
pub fn deliver(inventory: &mut Inventory, item: u64)
    requires
        old(inventory)@.contains_key(item) ==> old(inventory)@[item] < u32::MAX,
    ensures
        final(inventory)@ == one_added(old(inventory)@, item),
{
    inventory.add_one(item);
}

/// How many of `item` a structure's counts hold (none without an entry).
pub open spec fn count_of(m: Map<u64, u32>, item: u64) -> int {
    if m.contains_key(item) {
        m[item] as int
    } else {
        0
    }
}

/// Sending a porter with one item (taken from the producer) and delivering it
/// (added to the receiver) keeps every item's total over the two structures;
/// while the porter walks, it carries the one item missing from the producer.
/// A porter sent back to its own producer leaves its counts as they were.
/// (The receiver's count must stay below the `u32` limit, where adding
/// overflows.)
pub proof fn lemma_delivery_conserves_items(src: Map<u64, u32>, dst: Map<u64, u32>, item: u64, other: u64)
    requires
        src.contains_key(item),
        src[item] > 0,
        dst.contains_key(item) ==> dst[item] < u32::MAX,
    ensures
        count_of(one_taken(src, item), other) + (if other == item { 1int } else { 0 }) == count_of(src, other),
        count_of(one_taken(src, item), other) + count_of(one_added(dst, item), other) == count_of(src, other)
            + count_of(dst, other),
        one_added(one_taken(src, item), item) == src,
{
    assert(one_added(one_taken(src, item), item) =~= src);
}


/// What a walking porter's step came to.
#[derive(Clone, Copy, Debug, PartialEq, Eq, Structural)]
pub enum WalkEvent {
    /// The porter has no waypoint left to walk to.
    Idle,
    /// Its next waypoint no longer exists: the porter is lost.
    Lost,
    /// It is still on its way.
    Walking,
    /// It reached its last waypoint.
    Arrived,
}

/// One step of a porter walking its route, whose next waypoint is the last
/// entry: given whether that waypoint still exists and whether the porter
/// came within reach of it, the reached waypoint is taken off the route, and
/// the porter arrives once none is left.
pub fn walk_along_path(path: &mut Vec<usize>, goal_exists: bool, within_reach: bool) -> (e: WalkEvent)
    ensures
        old(path)@.len() == 0 ==> e == WalkEvent::Idle && final(path)@ == old(path)@,
        old(path)@.len() > 0 && !goal_exists ==> e == WalkEvent::Lost && final(path)@ == old(path)@,
        old(path)@.len() > 0 && goal_exists && !within_reach ==> e == WalkEvent::Walking && final(path)@
            == old(path)@,
        old(path)@.len() > 0 && goal_exists && within_reach ==> final(path)@ == old(path)@.drop_last() && e
            == (if old(path)@.len() == 1 {
            WalkEvent::Arrived
        } else {
            WalkEvent::Walking
        }),
{
    if path.len() == 0 {
        return WalkEvent::Idle;
    }
    if !goal_exists {
        return WalkEvent::Lost;
    }
    if !within_reach {
        return WalkEvent::Walking;
    }
    path.pop();
    proof {
        assert(path@ =~= old(path)@.drop_last());
    }
    if path.len() == 0 {
        WalkEvent::Arrived
    } else {
        WalkEvent::Walking
    }
}


/// The routes after one porter was sent: the first goes to the back.
pub open spec fn rotate<T>(s: Seq<T>) -> Seq<T> {
    if s.len() == 0 {
        s
    } else {
        s.drop_first().push(s[0])
    }
}

/// The routes after `k` porters were sent.
pub open spec fn rotate_n<T>(s: Seq<T>, k: nat) -> Seq<T>
    decreases k,
{
    if k == 0 {
        s
    } else {
        rotate(rotate_n(s, (k - 1) as nat))
    }
}

proof fn lemma_rotate_n_split<T>(s: Seq<T>, k: nat)
    requires
        k <= s.len(),
    ensures
        rotate_n(s, k) == s.subrange(k as int, s.len() as int) + s.subrange(0, k as int),
    decreases k,
{
    if k == 0 {
        assert(s.subrange(0, s.len() as int) + s.subrange(0, 0) =~= s);
    } else {
        lemma_rotate_n_split(s, (k - 1) as nat);
        let prev = rotate_n(s, (k - 1) as nat);
        assert(prev.len() == s.len());
        assert(prev[0] == s[k - 1]);
        assert(prev.drop_first().push(prev[0]) =~= s.subrange(k as int, s.len() as int) + s.subrange(
            0,
            k as int,
        ));
    }
}

/// Routes are used in turn: once as many porters were sent as there are
/// routes, the routes are back in their first order, and so is the output
/// index once as many were sent as there are outputs.
pub proof fn lemma_routes_and_outputs_cycle<T>(routes: Seq<T>, outputs: nat, index: nat)
    requires
        index < outputs,
    ensures
        rotate_n(routes, routes.len()) == routes,
        cycle_index(index, outputs, outputs) == index,
{
    lemma_rotate_n_split(routes, routes.len());
    assert(routes.subrange(routes.len() as int, routes.len() as int) + routes.subrange(0, routes.len() as int)
        =~= routes);
    lemma_cycle_index(index, outputs, outputs);
    vstd::arithmetic::div_mod::lemma_mod_add_multiples_vanish(index as int, outputs as int);
    vstd::arithmetic::div_mod::lemma_small_mod(index, outputs);
}

/// The output index after `k` porters were sent.
pub open spec fn cycle_index(index: nat, outputs: nat, k: nat) -> nat
    decreases k,
{
    if k == 0 {
        index
    } else {
        ((cycle_index(index, outputs, (k - 1) as nat) + 1) % outputs) as nat
    }
}

proof fn lemma_cycle_index(index: nat, outputs: nat, k: nat)
    requires
        index < outputs,
    ensures
        cycle_index(index, outputs, k) == (index + k) % outputs,
    decreases k,
{
    if k > 0 {
        lemma_cycle_index(index, outputs, (k - 1) as nat);
        let p = (index + k - 1) as int;
        let o = outputs as int;
        vstd::arithmetic::div_mod::lemma_add_mod_noop_right(1, p, o);
        assert(((p % o) + 1) % o == (p + 1) % o);
    } else {
        vstd::arithmetic::div_mod::lemma_small_mod(index, outputs);
    }
}

} // verus!
