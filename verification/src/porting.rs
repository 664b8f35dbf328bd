//! People working as porters: they pick an item up at their structure, walk
//! from checkpoint to checkpoint (a random walk over walkable constructions,
//! backtracking at dead ends) until a neighbouring construction has a
//! drop-off slot for the item, drop it there and walk back the way they came.
use crate::inventory::{ItemStack, TransferItems};
use crate::items::Transport;
use crate::pathfinding::{coord_in_bounds, keys_distinct, lookup, lookup_exec, Coord};
use crate::random::{choose_from_iter, choose_indexed, Seed};
use std::collections::{HashMap, HashSet};
use vstd::prelude::*;

verus! {

broadcast use vstd::std_specs::hash::group_hash_axioms;

/// How long a porter may be out before it counts as lost: 30 s.
pub const PORTER_TTL_NANOS: u128 = 30_000_000_000;

/// What a drop-off slot accepts.
#[derive(Clone, Copy, Debug, PartialEq, Eq, Structural)]
pub enum DropOff {
    /// Exactly this item.
    Item(u64),
    /// Any item with this tag.
    Tag(u64),
}

/// A slot among the descendants of an entity, with what marks it.
#[derive(Clone, Copy, Debug, PartialEq, Eq, Structural)]
pub struct SlotInfo {
    pub slot: usize,
    pub drop_off: Option<DropOff>,
    pub pickup: bool,
    pub stack: Option<ItemStack>,
}

/// What porters see of the world: entity coordinates, the construction on
/// each tile, which entities are walkable, and each entity's slots (its
/// descendants that are slots, in hierarchy order).
#[derive(Debug)]
pub struct TileWorld {
    pub coords: HashMap<usize, Coord>,
    pub constructions: Vec<(Coord, usize)>,
    pub walkable: HashSet<usize>,
    pub slots: HashMap<usize, Vec<SlotInfo>>,
}

/// Where a porter is in its errand.
#[derive(Clone, Copy, Debug, PartialEq, Eq, Structural)]
pub enum PortingState {
    PickingUpItems,
    TransportTo,
    DroppingOffItems,
    Returnal,
}

/// The animation a porter walks with: carrying an item in a box or in a
/// bag, or empty-handed.
#[derive(Clone, Copy, Debug, PartialEq, Eq, Structural)]
pub enum PorterAnimation {
    WalkItem,
    WalkBag,
    Walk,
}

/// The animation of a porter setting out with an item carried as `t`.
pub open spec fn carrying_animation(t: Transport) -> PorterAnimation {
    match t {
        Transport::Box => PorterAnimation::WalkItem,
        Transport::Bag => PorterAnimation::WalkBag,
    }
}

impl PorterAnimation {
    /// The name of the animation's tag in the porter sprite.
    pub fn tag(&self) -> (r: String)
        ensures
            r@ == match *self {
                PorterAnimation::WalkItem => "walk_item"@,
                PorterAnimation::WalkBag => "walk_bag"@,
                PorterAnimation::Walk => "walk"@,
            },
    {
        match *self {
            PorterAnimation::WalkItem => String::from_str("walk_item"),
            PorterAnimation::WalkBag => String::from_str("walk_bag"),
            PorterAnimation::Walk => String::from_str("walk"),
        }
    }
}

/// A porter's errand.
#[derive(Debug)]
pub struct Porting {
    pub item: u64,
    pub origin: usize,
    pub slot: usize,
    pub state: PortingState,
    pub ttl_nanos: u128,
    pub target: usize,
    pub backtracking: bool,
    pub visited: HashSet<usize>,
    pub path: Vec<usize>,
}

/// The cardinal directions: north, east, south, west.
pub open spec fn card_dx(d: int) -> int {
    if d == 1 {
        1
    } else if d == 3 {
        -1
    } else {
        0
    }
}

pub open spec fn card_dy(d: int) -> int {
    if d == 0 {
        1
    } else if d == 2 {
        -1
    } else {
        0
    }
}

pub open spec fn opt_push(s: Seq<usize>, o: Option<usize>) -> Seq<usize> {
    match o {
        Some(x) => s.push(x),
        None => s,
    }
}

impl TileWorld {
    /// No coordinate lies on the edge of the `i32` range, and no tile holds two
    /// constructions.
    pub open spec fn wf(&self) -> bool {
        &&& forall|e: usize| #[trigger] self.coords@.contains_key(e) ==> coord_in_bounds(self.coords@[e])
        &&& keys_distinct(self.constructions@)
    }

    pub open spec fn around(&self, c: Coord, d: int) -> Option<usize> {
        lookup(
            self.constructions@,
            Coord { x: (c.x + card_dx(d)) as i32, y: (c.y + card_dy(d)) as i32 },
        )
    }

    /// The constructions on the four tiles around `c`, in cardinal order.
    pub open spec fn neighbors(&self, c: Coord) -> Seq<usize> {
        opt_push(
            opt_push(
                opt_push(opt_push(Seq::empty(), self.around(c, 0)), self.around(c, 1)),
                self.around(c, 2),
            ),
            self.around(c, 3),
        )
    }

    pub open spec fn slots_of(&self, e: usize) -> Seq<SlotInfo> {
        if self.slots@.contains_key(e) {
            self.slots@[e]@
        } else {
            Seq::empty()
        }
    }
}

pub open spec fn drop_matches(d: DropOff, item: u64, tags: Option<Seq<u64>>) -> bool {
    match d {
        DropOff::Item(h) => h == item,
        DropOff::Tag(t) => tags is Some && tags.unwrap().contains(t),
    }
}

/// The first slot that accepts `item`.
pub open spec fn first_drop_slot(slots: Seq<SlotInfo>, item: u64, tags: Option<Seq<u64>>) -> Option<
    usize,
>
    decreases slots.len(),
{
    if slots.len() == 0 {
        None
    } else if slots[0].drop_off is Some && drop_matches(slots[0].drop_off.unwrap(), item, tags) {
        Some(slots[0].slot)
    } else {
        first_drop_slot(slots.drop_first(), item, tags)
    }
}

/// For each neighbour in turn, its first slot that accepts the item.
pub open spec fn drop_candidates(w: &TileWorld, ns: Seq<usize>, item: u64, tags: Option<Seq<u64>>) -> Seq<
    usize,
>
    decreases ns.len(),
{
    if ns.len() == 0 {
        Seq::empty()
    } else {
        opt_push(
            drop_candidates(w, ns.drop_last(), item, tags),
            first_drop_slot(w.slots_of(ns.last()), item, tags),
        )
    }
}

/// The neighbours a porter may walk to: walkable ones, and when it is not
/// backtracking, only those it has not visited.
pub open spec fn path_candidates(w: &TileWorld, ns: Seq<usize>, visited: Set<usize>, backtracking: bool) -> Seq<
    usize,
>
    decreases ns.len(),
{
    if ns.len() == 0 {
        Seq::empty()
    } else {
        let rest = path_candidates(w, ns.drop_last(), visited, backtracking);
        let e = ns.last();
        if w.walkable@.contains(e) && (backtracking || !visited.contains(e)) {
            rest.push(e)
        } else {
            rest
        }
    }
}

fn around_exec(w: &TileWorld, c: Coord, d: usize) -> (r: Option<usize>)
    requires
        coord_in_bounds(c),
        d < 4,
    ensures
        r == w.around(c, d as int),
{
    let next = if d == 0 {
        Coord { x: c.x, y: c.y + 1 }
    } else if d == 1 {
        Coord { x: c.x + 1, y: c.y }
    } else if d == 2 {
        Coord { x: c.x, y: c.y - 1 }
    } else {
        Coord { x: c.x - 1, y: c.y }
    };
    lookup_exec(&w.constructions, next)
}

fn push_opt(v: &mut Vec<usize>, o: Option<usize>)
    ensures
        final(v)@ == opt_push(old(v)@, o),
{
    if let Some(x) = o {
        v.push(x);
    }
}

/// The constructions around a tile, north, east, south, west.
pub fn neighbors(w: &TileWorld, c: Coord) -> (r: Vec<usize>)
    requires
        coord_in_bounds(c),
    ensures
        r@ == w.neighbors(c),
{
    let mut v: Vec<usize> = Vec::new();
    let a = around_exec(w, c, 0);
    push_opt(&mut v, a);
    let a = around_exec(w, c, 1);
    push_opt(&mut v, a);
    let a = around_exec(w, c, 2);
    push_opt(&mut v, a);
    let a = around_exec(w, c, 3);
    push_opt(&mut v, a);
    v
}

fn tags_contain(tags: &Vec<u64>, t: u64) -> (r: bool)
    ensures
        r == tags@.contains(t),
{
    let mut i: usize = 0;
    while i < tags.len()
        invariant
            i <= tags@.len(),
            forall|j: int| 0 <= j < i ==> tags@[j] != t,
        decreases tags.len() - i,
    {
        if tags[i] == t {
            assert(tags@[i as int] == t);
            return true;
        }
        i = i + 1;
    }
    false
}

fn first_drop_slot_exec(slots: &Vec<SlotInfo>, item: u64, tags: Option<&Vec<u64>>) -> (r: Option<usize>)
    ensures
        r == first_drop_slot(
            slots@,
            item,
            match tags {
                Some(t) => Some(t@),
                None => None,
            },
        ),
{
    let ghost tg = match tags {
        Some(t) => Some(t@),
        None => None,
    };
    let mut i: usize = 0;
    assert(slots@.subrange(0, slots@.len() as int) =~= slots@);
    while i < slots.len()
        invariant
            i <= slots@.len(),
            tg == match tags {
                Some(t) => Some(t@),
                None => None,
            },
            first_drop_slot(slots@, item, tg) == first_drop_slot(
                slots@.subrange(i as int, slots@.len() as int),
                item,
                tg,
            ),
        decreases slots.len() - i,
    {
        let ghost rest = slots@.subrange(i as int, slots@.len() as int);
        assert(rest.drop_first() =~= slots@.subrange(i + 1, slots@.len() as int));
        assert(rest[0] == slots@[i as int]);
        let s = slots[i];
        assert(s == rest[0]);
        let ok = match s.drop_off {
            Some(DropOff::Item(h)) => h == item,
            Some(DropOff::Tag(t)) => match tags {
                Some(ts) => {
                    let c = tags_contain(ts, t);
                    assert(tg == Some(ts@));
                    assert(c == (tg is Some && tg.unwrap().contains(t)));
                    c
                },
                None => false,
            },
            None => false,
        };
        assert(ok == (rest[0].drop_off is Some && drop_matches(rest[0].drop_off.unwrap(), item, tg)));
        if ok {
            return Some(s.slot);
        }
        i = i + 1;
    }
    assert(slots@.subrange(i as int, slots@.len() as int) =~= Seq::<SlotInfo>::empty());
    None
}

/// For each neighbour, its first slot that accepts the item.
pub fn drop_candidates_exec(w: &TileWorld, ns: &Vec<usize>, item: u64, tags: Option<&Vec<u64>>) -> (r:
    Vec<usize>)
    ensures
        r@ == drop_candidates(
            w,
            ns@,
            item,
            match tags {
                Some(t) => Some(t@),
                None => None,
            },
        ),
{
    let ghost tg = match tags {
        Some(t) => Some(t@),
        None => None,
    };
    let mut r: Vec<usize> = Vec::new();
    let mut i: usize = 0;
    while i < ns.len()
        invariant
            i <= ns@.len(),
            tg == match tags {
                Some(t) => Some(t@),
                None => None,
            },
            r@ == drop_candidates(w, ns@.take(i as int), item, tg),
        decreases ns.len() - i,
    {
        assert(ns@.take(i + 1).drop_last() =~= ns@.take(i as int));
        assert(ns@.take(i + 1).last() == ns@[i as int]);
        let e = ns[i];
        let found = match w.slots.get(&e) {
            Some(slots) => first_drop_slot_exec(slots, item, tags),
            None => None,
        };
        assert(found == first_drop_slot(w.slots_of(e), item, tg));
        push_opt(&mut r, found);
        i = i + 1;
    }
    assert(ns@.take(ns@.len() as int) =~= ns@);
    r
}

/// The neighbours a porter may walk on to.
pub fn path_candidates_exec(w: &TileWorld, ns: &Vec<usize>, visited: &HashSet<usize>, backtracking: bool) -> (r:
    Vec<usize>)
    ensures
        r@ == path_candidates(w, ns@, visited@, backtracking),
{
    let mut r: Vec<usize> = Vec::new();
    let mut i: usize = 0;
    while i < ns.len()
        invariant
            i <= ns@.len(),
            r@ == path_candidates(w, ns@.take(i as int), visited@, backtracking),
        decreases ns.len() - i,
    {
        assert(ns@.take(i + 1).drop_last() =~= ns@.take(i as int));
        assert(ns@.take(i + 1).last() == ns@[i as int]);
        let e = ns[i];
        if w.walkable.contains(&e) && (backtracking || !visited.contains(&e)) {
            r.push(e);
        }
        i = i + 1;
    }
    assert(ns@.take(ns@.len() as int) =~= ns@);
    r
}

/// What reaching a checkpoint came to.
#[derive(Clone, Copy, Debug, PartialEq, Eq, Structural)]
pub enum CheckpointOutcome {
    /// The porter is not carrying an item towards a drop-off.
    NotTransporting,
    /// The checkpoint has no coordinate.
    TargetUnplaced,
    /// A neighbour has a slot for the item: the porter arrives there. The
    /// other checkpoints reached in this run are left for the next one.
    Arrived { slot: usize },
    /// The porter heads for a new target.
    NextTarget,
}

impl Porting {
    /// The errand after its target is marked visited and pushed on the path.
    pub open spec fn marked(&self, visited: Set<usize>, path: Seq<usize>) -> bool {
        visited == self.visited@.insert(self.target) && path == self.path@.push(self.target)
    }

    /// Decides the rest of a checkpoint once the random choices are made:
    /// `drop_choice` is the drop-off slot chosen among the candidates and
    /// `path_choice` the next target chosen among the walkable neighbours.
    /// A drop-off choice wins; else a path choice becomes the target and ends
    /// backtracking; else the porter steps back to the last entry of its path
    /// (taking it off) and backtracks.
    pub fn settle_checkpoint(&mut self, drop_choice: Option<usize>, path_choice: Option<usize>) -> (r:
        CheckpointOutcome)
        requires
            old(self).path@.len() > 0,
        ensures
            match drop_choice {
                Some(slot) => r == (CheckpointOutcome::Arrived { slot }) && final(self).target == old(self).target && final(self).backtracking == old(self).backtracking && final(self).path@
                    == old(self).path@,
                None => r == CheckpointOutcome::NextTarget && match path_choice {
                    Some(t) => final(self).target == t && !final(self).backtracking && final(self).path@ == old(self).path@,
                    None => final(self).target == old(self).path@.last() && final(self).backtracking
                        && final(self).path@ == old(self).path@.drop_last(),
                },
            },
            final(self).item == old(self).item,
            final(self).origin == old(self).origin,
            final(self).slot == old(self).slot,
            final(self).state == old(self).state,
            final(self).ttl_nanos == old(self).ttl_nanos,
            final(self).visited@ == old(self).visited@,
    {
        if let Some(slot) = drop_choice {
            return CheckpointOutcome::Arrived { slot };
        }
        if let Some(t) = path_choice {
            self.target = t;
            self.backtracking = false;
        } else {
            let t = self.path.pop().unwrap();
            self.target = t;
            self.backtracking = true;
            proof {
                assert(self.path@ =~= old(self).path@.drop_last());
            }
        }
        CheckpointOutcome::NextTarget
    }

    /// A porter reached its checkpoint. While transporting, the checkpoint is
    /// marked visited and pushed on the path; then, if a neighbouring
    /// construction has a slot for the item, one such slot is chosen at random
    /// and the porter arrives there; otherwise a random walkable neighbour
    /// (an unvisited one, unless backtracking) becomes the target, or, when
    /// there is none, the porter backtracks.
    pub fn calculate_next_target(
        &mut self,
        w: &TileWorld,
        tags: Option<&Vec<u64>>,
        seed: &mut Seed,
    ) -> (r: CheckpointOutcome)
        requires
            w.wf(),
        ensures
            ({
                let tg = match tags {
                    Some(t) => Some(t@),
                    None => None,
                };
                if old(self).state != PortingState::TransportTo {
                    r == CheckpointOutcome::NotTransporting && final(self).visited@ == old(self).visited@
                        && final(self).path@ == old(self).path@ && final(self).target == old(self).target
                        && final(self).backtracking == old(self).backtracking
                } else {
                    let visited = old(self).visited@.insert(old(self).target);
                    let path = old(self).path@.push(old(self).target);
                    &&& final(self).visited@ == visited
                    &&& if !w.coords@.contains_key(old(self).target) {
                        &&& r == CheckpointOutcome::TargetUnplaced
                        &&& final(self).path@ == path
                        &&& final(self).target == old(self).target
                        &&& final(self).backtracking == old(self).backtracking
                    } else {
                        let ns = w.neighbors(w.coords@[old(self).target]);
                        let drops = drop_candidates(w, ns, old(self).item, tg);
                        let paths = path_candidates(w, ns, visited, old(self).backtracking);
                        if drops.len() > 0 {
                            &&& r matches CheckpointOutcome::Arrived { slot } && drops.contains(slot)
                            &&& final(self).path@ == path
                            &&& final(self).target == old(self).target
                            &&& final(self).backtracking == old(self).backtracking
                        } else if paths.len() > 0 {
                            &&& r == CheckpointOutcome::NextTarget
                            &&& paths.contains(final(self).target)
                            &&& !final(self).backtracking
                            &&& final(self).path@ == path
                        } else {
                            &&& r == CheckpointOutcome::NextTarget
                            &&& final(self).target == old(self).target
                            &&& final(self).backtracking
                            &&& final(self).path@ == old(self).path@
                        }
                    }
                }
            }),
            final(self).item == old(self).item,
            final(self).origin == old(self).origin,
            final(self).slot == old(self).slot,
            final(self).state == old(self).state,
            final(self).ttl_nanos == old(self).ttl_nanos,
    {
        if self.state != PortingState::TransportTo {
            return CheckpointOutcome::NotTransporting;
        }
        let target = self.target;
        self.visited.insert(target);
        self.path.push(target);
        let c = match w.coords.get(&target) {
            Some(c) => *c,
            None => return CheckpointOutcome::TargetUnplaced,
        };
        let ns = neighbors(w, c);
        let drops = drop_candidates_exec(w, &ns, self.item, tags);
        let drop_choice = choose_from_iter(&drops, &mut seed.0);
        let path_choice = if drop_choice.is_none() {
            let paths = path_candidates_exec(w, &ns, &self.visited, self.backtracking);
            choose_indexed(&paths, &mut seed.0)
        } else {
            None
        };
        let r = self.settle_checkpoint(drop_choice, path_choice);
        proof {
            if path_choice is None && drop_choice is None {
                assert(old(self).path@.push(target).drop_last() =~= old(self).path@);
            }
        }
        r
    }

    /// Picking up: once the porter's own slot holds some of the item it starts
    /// transporting; until then it asks for one item from the pickup slot.
    pub fn pickup_items(&mut self, porter_slot: Option<usize>, porter_stack: Option<ItemStack>) -> (r:
        Option<TransferItems>)
        ensures
            old(self).state == PortingState::PickingUpItems && porter_slot is Some && porter_stack
                is Some && porter_stack.unwrap().quantity > 0 ==> r is None && final(self).state
                == PortingState::TransportTo,
            old(self).state == PortingState::PickingUpItems && porter_slot is Some && !(porter_stack
                is Some && porter_stack.unwrap().quantity > 0) ==> r == Some(
                TransferItems { from_slot: old(self).slot, to_slot: porter_slot.unwrap(), quantity: 1 },
            ) && final(self).state == old(self).state,
            !(old(self).state == PortingState::PickingUpItems && porter_slot is Some) ==> r is None
                && final(self).state == old(self).state,
            final(self).target == old(self).target,
            final(self).path@ == old(self).path@,
            final(self).visited@ == old(self).visited@,
            final(self).item == old(self).item,
            final(self).slot == old(self).slot,
            final(self).ttl_nanos == old(self).ttl_nanos,
    {
        if self.state != PortingState::PickingUpItems {
            return None;
        }
        let ps = match porter_slot {
            Some(s) => s,
            None => return None,
        };
        if let Some(st) = porter_stack {
            if st.quantity > 0 {
                self.state = PortingState::TransportTo;
                return None;
            }
        }
        Some(TransferItems { from_slot: self.slot, to_slot: ps, quantity: 1 })
    }

    /// The porter arrived at a drop-off `slot`: it hands over one item from
    /// its own slot, turns back and walks empty-handed.
    pub fn drop_off_items(
        &mut self,
        animation: &mut PorterAnimation,
        porter_slot: Option<usize>,
        slot: usize,
    ) -> (r: Option<TransferItems>)
        ensures
            porter_slot is Some ==> r == Some(
                TransferItems { from_slot: porter_slot.unwrap(), to_slot: slot, quantity: 1 },
            ) && final(self).state == PortingState::Returnal && *final(animation) == PorterAnimation::Walk,
            porter_slot is None ==> r is None && final(self).state == old(self).state && *final(animation)
                == *old(animation),
            final(self).target == old(self).target,
            final(self).path@ == old(self).path@,
            final(self).visited@ == old(self).visited@,
            final(self).item == old(self).item,
            final(self).slot == old(self).slot,
            final(self).ttl_nanos == old(self).ttl_nanos,
    {
        match porter_slot {
            Some(ps) => {
                self.state = PortingState::Returnal;
                *animation = PorterAnimation::Walk;
                Some(TransferItems { from_slot: ps, to_slot: slot, quantity: 1 })
            },
            None => None,
        }
    }

    /// Walking back: each checkpoint reached takes the next target off the
    /// end of the path; when the path is empty the errand is over (`true`).
    pub fn returnal(&mut self) -> (finished: bool)
        ensures
            old(self).state == PortingState::Returnal ==> (finished <==> returnal_step(old(self).path@).0 is None)
                && (!finished ==> returnal_step(old(self).path@) == (Some(final(self).target), final(self).path@)),
            old(self).state != PortingState::Returnal ==> !finished && final(self).path@ == old(self).path@ && final(self).target == old(self).target,
            old(self).state == PortingState::Returnal && old(self).path@.len() > 0 ==> !finished
                && final(self).target == old(self).path@.last() && final(self).path@ == old(self).path@.drop_last(),
            old(self).state == PortingState::Returnal && old(self).path@.len() == 0 ==> finished
                && final(self).path@ == old(self).path@ && final(self).target == old(self).target,
            final(self).state == old(self).state,
            final(self).visited@ == old(self).visited@,
            final(self).item == old(self).item,
            final(self).slot == old(self).slot,
            final(self).ttl_nanos == old(self).ttl_nanos,
    {
        if self.state != PortingState::Returnal {
            return false;
        }
        match self.path.pop() {
            Some(t) => {
                self.target = t;
                proof {
                    assert(self.path@ =~= old(self).path@.drop_last());
                }
                false
            },
            None => true,
        }
    }

    /// Time passes: the remaining time drops by `delta_nanos`, stopping at
    /// zero; the porter is lost (`true`) once none is left.
    pub fn decrement_ttl(&mut self, delta_nanos: u128) -> (lost: bool)
        ensures
            final(self).ttl_nanos == (if old(self).ttl_nanos >= delta_nanos {
                old(self).ttl_nanos - delta_nanos
            } else {
                0
            }),
            lost == (final(self).ttl_nanos == 0),
            final(self).state == old(self).state,
            final(self).target == old(self).target,
            final(self).path@ == old(self).path@,
            final(self).visited@ == old(self).visited@,
            final(self).item == old(self).item,
            final(self).slot == old(self).slot,
    {
        self.ttl_nanos = self.ttl_nanos.saturating_sub(delta_nanos);
        self.ttl_nanos == 0
    }
}

/// A lost porter that is still on an errand and has a slot returns one item
/// to the slot it picked up from; its errand ends.
pub fn despawn_lost_porter(porting: Option<&Porting>, porter_slot: Option<usize>) -> (r: Option<
    TransferItems,
>)
    ensures
        porting is Some && porter_slot is Some ==> r == Some(
            TransferItems {
                from_slot: porter_slot.unwrap(),
                to_slot: porting.unwrap().slot,
                quantity: 1,
            },
        ),
        !(porting is Some && porter_slot is Some) ==> r is None,
{
    match (porting, porter_slot) {
        (Some(p), Some(ps)) => Some(TransferItems { from_slot: ps, to_slot: p.slot, quantity: 1 }),
        _ => None,
    }
}

/// A porter that sets out from a structure.
#[derive(Debug)]
pub struct Departure {
    pub person: usize,
    pub porting: Porting,
    pub transport: Transport,
    pub animation: PorterAnimation,
}

/// The first slot that is a pickup slot holding a stack.
pub open spec fn first_pickup(slots: Seq<SlotInfo>) -> Option<SlotInfo>
    decreases slots.len(),
{
    if slots.len() == 0 {
        None
    } else if slots[0].pickup && slots[0].stack is Some {
        Some(slots[0])
    } else {
        first_pickup(slots.drop_first())
    }
}

/// How many slots are pickup slots holding a stack.
pub open spec fn pickup_count(slots: Seq<SlotInfo>) -> nat
    decreases slots.len(),
{
    if slots.len() == 0 {
        0
    } else {
        pickup_count(slots.drop_last()) + if slots.last().pickup && slots.last().stack is Some {
            1nat
        } else {
            0nat
        }
    }
}

/// The first entity of a list flagged as free.
pub open spec fn first_free(assignees: Seq<(usize, bool)>) -> Option<usize>
    decreases assignees.len(),
{
    if assignees.len() == 0 {
        None
    } else if assignees[0].1 {
        Some(assignees[0].0)
    } else {
        first_free(assignees.drop_first())
    }
}

proof fn lemma_first_pickup_props(slots: Seq<SlotInfo>)
    ensures
        first_pickup(slots) is Some ==> first_pickup(slots).unwrap().pickup && first_pickup(
            slots,
        ).unwrap().stack is Some,
    decreases slots.len(),
{
    if slots.len() > 0 {
        lemma_first_pickup_props(slots.drop_first());
    }
}

proof fn lemma_first_pickup_counted(slots: Seq<SlotInfo>)
    ensures
        first_pickup(slots) is Some ==> pickup_count(slots) > 0,
{
    lemma_first_pickup_in(slots);
    if pickup_count(slots) == 0 {
        lemma_no_pickup(slots);
    }
}

proof fn lemma_no_pickup(slots: Seq<SlotInfo>)
    requires
        pickup_count(slots) == 0,
    ensures
        forall|i: int| 0 <= i < slots.len() ==> !(slots[i].pickup && slots[i].stack is Some),
    decreases slots.len(),
{
    if slots.len() > 0 {
        lemma_no_pickup(slots.drop_last());
        assert forall|i: int| 0 <= i < slots.len() implies !(slots[i].pickup && slots[i].stack is Some) by {
            if i < slots.len() - 1 {
                assert(slots[i] == slots.drop_last()[i]);
            }
        }
    }
}

proof fn lemma_first_pickup_in(slots: Seq<SlotInfo>)
    ensures
        first_pickup(slots) is Some ==> exists|i: int|
            0 <= i < slots.len() && slots[i].pickup && slots[i].stack is Some,
    decreases slots.len(),
{
    if slots.len() > 0 && !(slots[0].pickup && slots[0].stack is Some) {
        lemma_first_pickup_in(slots.drop_first());
        if first_pickup(slots) is Some {
            let i = choose|i: int|
                0 <= i < slots.drop_first().len() && slots.drop_first()[i].pickup && slots.drop_first()[i].stack is Some;
            assert(slots[i + 1] == slots.drop_first()[i]);
        }
    }
}

fn first_pickup_exec(slots: &Vec<SlotInfo>) -> (r: Option<SlotInfo>)
    ensures
        r == first_pickup(slots@),
{
    let mut i: usize = 0;
    assert(slots@.subrange(0, slots@.len() as int) =~= slots@);
    while i < slots.len()
        invariant
            i <= slots@.len(),
            first_pickup(slots@) == first_pickup(slots@.subrange(i as int, slots@.len() as int)),
        decreases slots.len() - i,
    {
        let ghost rest = slots@.subrange(i as int, slots@.len() as int);
        assert(rest.drop_first() =~= slots@.subrange(i + 1, slots@.len() as int));
        assert(rest[0] == slots@[i as int]);
        if slots[i].pickup && slots[i].stack.is_some() {
            return Some(slots[i]);
        }
        i = i + 1;
    }
    assert(slots@.subrange(i as int, slots@.len() as int) =~= Seq::<SlotInfo>::empty());
    None
}

fn pickup_count_exec(slots: &Vec<SlotInfo>) -> (r: usize)
    ensures
        r == pickup_count(slots@),
{
    let mut n: usize = 0;
    let mut i: usize = 0;
    while i < slots.len()
        invariant
            i <= slots@.len(),
            n == pickup_count(slots@.take(i as int)),
            n <= i,
        decreases slots.len() - i,
    {
        assert(slots@.take(i + 1).drop_last() =~= slots@.take(i as int));
        if slots[i].pickup && slots[i].stack.is_some() {
            n = n + 1;
        }
        i = i + 1;
    }
    assert(slots@.take(i as int) =~= slots@);
    n
}

fn first_free_exec(assignees: &Vec<(usize, bool)>) -> (r: Option<usize>)
    ensures
        r == first_free(assignees@),
{
    let mut i: usize = 0;
    assert(assignees@.subrange(0, assignees@.len() as int) =~= assignees@);
    while i < assignees.len()
        invariant
            i <= assignees@.len(),
            first_free(assignees@) == first_free(assignees@.subrange(i as int, assignees@.len() as int)),
        decreases assignees.len() - i,
    {
        let ghost rest = assignees@.subrange(i as int, assignees@.len() as int);
        assert(rest.drop_first() =~= assignees@.subrange(i + 1, assignees@.len() as int));
        assert(rest[0] == assignees@[i as int]);
        if assignees[i].1 {
            return Some(assignees[i].0);
        }
        i = i + 1;
    }
    assert(assignees@.subrange(i as int, assignees@.len() as int) =~= Seq::<(usize, bool)>::empty());
    None
}

/// The walkable constructions around a tile.
pub open spec fn walkable_neighbors(w: &TileWorld, ns: Seq<usize>) -> Seq<usize>
    decreases ns.len(),
{
    if ns.len() == 0 {
        Seq::empty()
    } else {
        let rest = walkable_neighbors(w, ns.drop_last());
        if w.walkable@.contains(ns.last()) {
            rest.push(ns.last())
        } else {
            rest
        }
    }
}

fn walkable_neighbors_exec(w: &TileWorld, ns: &Vec<usize>) -> (r: Vec<usize>)
    ensures
        r@ == walkable_neighbors(w, ns@),
{
    let mut r: Vec<usize> = Vec::new();
    let mut i: usize = 0;
    while i < ns.len()
        invariant
            i <= ns@.len(),
            r@ == walkable_neighbors(w, ns@.take(i as int)),
        decreases ns.len() - i,
    {
        assert(ns@.take(i + 1).drop_last() =~= ns@.take(i as int));
        assert(ns@.take(i + 1).last() == ns@[i as int]);
        if w.walkable.contains(&ns[i]) {
            r.push(ns[i]);
        }
        i = i + 1;
    }
    assert(ns@.take(ns@.len() as int) =~= ns@);
    r
}

/// A structure with porters, deciding on its cooldown tick whether one sets
/// out: the first free porter among its assignees (`(person, free)`), with the
/// item of its first pickup slot, when that slot is not empty, the item's
/// definition is loaded, and some construction around the structure is
/// walkable (one of them, chosen at random, becomes the first target). The
/// output index then moves on, wrapping around the number of pickup slots.
pub fn spawn_porter(
    finished: bool,
    structure: usize,
    coord: Coord,
    output_index: &mut usize,
    assignees: &Vec<(usize, bool)>,
    w: &TileWorld,
    transports: &HashMap<u64, Transport>,
    seed: &mut Seed,
) -> (r: Option<Departure>)
    requires
        coord_in_bounds(coord),
        *old(output_index) < usize::MAX,
    ensures
        ({
            let slots = w.slots_of(structure);
            let pick = first_pickup(slots);
            let pick_quantity = match pick {
                Some(p) => match p.stack {
                    Some(st) => st.quantity,
                    None => 0,
                },
                None => 0,
            };
            let ns = walkable_neighbors(w, w.neighbors(coord));
            if finished && first_free(assignees@) is Some && pick_quantity > 0 && transports@.contains_key(pick.unwrap().stack.unwrap().item) && ns.len() > 0 {
                let item = pick.unwrap().stack.unwrap().item;
                &&& r is Some
                &&& r.unwrap().person == first_free(assignees@).unwrap()
                &&& r.unwrap().transport == transports@[item]
                &&& r.unwrap().animation == carrying_animation(transports@[item])
                &&& r.unwrap().porting.item == item
                &&& r.unwrap().porting.origin == structure
                &&& r.unwrap().porting.slot == pick.unwrap().slot
                &&& r.unwrap().porting.state == PortingState::PickingUpItems
                &&& r.unwrap().porting.ttl_nanos == PORTER_TTL_NANOS
                &&& ns.contains(r.unwrap().porting.target)
                &&& !r.unwrap().porting.backtracking
                &&& r.unwrap().porting.visited@ == Set::<usize>::empty()
                &&& r.unwrap().porting.path@ == Seq::<usize>::empty()
                &&& *final(output_index) == (*old(output_index) + 1) % (pickup_count(slots) as int)
            } else {
                &&& r is None
                &&& *final(output_index) == *old(output_index)
            }
        }),
{
    if !finished {
        return None;
    }
    let person = match first_free_exec(assignees) {
        Some(p) => p,
        None => return None,
    };
    let empty: Vec<SlotInfo> = Vec::new();
    let slots = match w.slots.get(&structure) {
        Some(s) => s,
        None => &empty,
    };
    assert(slots@ == w.slots_of(structure));
    let pick = match first_pickup_exec(slots) {
        Some(s) => s,
        None => return None,
    };
    proof {
        lemma_first_pickup_props(slots@);
    }
    let stack = pick.stack.unwrap();
    if stack.quantity == 0 {
        return None;
    }
    let transport = match transports.get(&stack.item) {
        Some(t) => *t,
        None => return None,
    };
    let ns = neighbors(w, coord);
    let walk = walkable_neighbors_exec(w, &ns);
    let target = match choose_from_iter(&walk, &mut seed.0) {
        Some(t) => t,
        None => return None,
    };
    let count = pickup_count_exec(slots);
    proof {
        lemma_first_pickup_counted(slots@);
    }
    *output_index = (*output_index + 1) % count;
    Some(
        Departure {
            person,
            transport,
            animation: match transport {
                Transport::Box => PorterAnimation::WalkItem,
                Transport::Bag => PorterAnimation::WalkBag,
            },
            porting: Porting {
                item: stack.item,
                origin: structure,
                slot: pick.slot,
                state: PortingState::PickingUpItems,
                ttl_nanos: PORTER_TTL_NANOS,
                target,
                backtracking: false,
                visited: HashSet::new(),
                path: Vec::new(),
            },
        },
    )
}


/// The first neighbour whose selected recipe takes `item` as an input.
pub open spec fn first_accepting(ns: Seq<usize>, recipe_inputs: Map<usize, Vec<u64>>, item: u64) -> Option<
    usize,
>
    decreases ns.len(),
{
    if ns.len() == 0 {
        None
    } else if recipe_inputs.contains_key(ns[0]) && recipe_inputs[ns[0]]@.contains(item) {
        Some(ns[0])
    } else {
        first_accepting(ns.drop_first(), recipe_inputs, item)
    }
}

fn first_accepting_exec(ns: &Vec<usize>, recipe_inputs: &HashMap<usize, Vec<u64>>, item: u64) -> (r:
    Option<usize>)
    ensures
        r == first_accepting(ns@, recipe_inputs@, item),
{
    let mut i: usize = 0;
    assert(ns@.subrange(0, ns@.len() as int) =~= ns@);
    while i < ns.len()
        invariant
            i <= ns@.len(),
            first_accepting(ns@, recipe_inputs@, item) == first_accepting(
                ns@.subrange(i as int, ns@.len() as int),
                recipe_inputs@,
                item,
            ),
        decreases ns.len() - i,
    {
        let ghost rest = ns@.subrange(i as int, ns@.len() as int);
        assert(rest.drop_first() =~= ns@.subrange(i + 1, ns@.len() as int));
        assert(rest[0] == ns@[i as int]);
        if let Some(inputs) = recipe_inputs.get(&ns[i]) {
            if tags_contain(inputs, item) {
                return Some(ns[i]);
            }
        }
        i = i + 1;
    }
    assert(ns@.subrange(i as int, ns@.len() as int) =~= Seq::<usize>::empty());
    None
}

impl Porting {
    /// A porter reached its checkpoint (routing by recipes): the checkpoint is
    /// marked visited and pushed on the path; if a neighbouring structure's
    /// selected recipe takes the item, the porter arrives there (returned);
    /// either way a random walkable neighbour (an unvisited one, unless
    /// backtracking) becomes the next target, or, when there is none, the
    /// porter backtracks. `recipe_inputs` gives the inputs of each
    /// structure's selected, loaded recipe.
    pub fn calculate_next_target_by_recipe(
        &mut self,
        w: &TileWorld,
        recipe_inputs: &HashMap<usize, Vec<u64>>,
        seed: &mut Seed,
    ) -> (arrived: Option<usize>)
        requires
            w.wf(),
        ensures
            ({
                let visited = old(self).visited@.insert(old(self).target);
                let path = old(self).path@.push(old(self).target);
                &&& final(self).visited@ == visited
                &&& if !w.coords@.contains_key(old(self).target) {
                    &&& arrived is None
                    &&& final(self).path@ == path
                    &&& final(self).target == old(self).target
                    &&& final(self).backtracking == old(self).backtracking
                } else {
                    let ns = w.neighbors(w.coords@[old(self).target]);
                    let paths = path_candidates(w, ns, visited, old(self).backtracking);
                    &&& arrived == first_accepting(ns, recipe_inputs@, old(self).item)
                    &&& if paths.len() > 0 {
                        &&& paths.contains(final(self).target)
                        &&& !final(self).backtracking
                        &&& final(self).path@ == path
                    } else {
                        &&& final(self).target == old(self).target
                        &&& final(self).backtracking
                        &&& final(self).path@ == old(self).path@
                    }
                }
            }),
            final(self).item == old(self).item,
            final(self).origin == old(self).origin,
            final(self).slot == old(self).slot,
            final(self).state == old(self).state,
            final(self).ttl_nanos == old(self).ttl_nanos,
    {
        let target = self.target;
        self.visited.insert(target);
        self.path.push(target);
        let c = match w.coords.get(&target) {
            Some(c) => *c,
            None => return None,
        };
        let ns = neighbors(w, c);
        let arrived = first_accepting_exec(&ns, recipe_inputs, self.item);
        let paths = path_candidates_exec(w, &ns, &self.visited, self.backtracking);
        let path_choice = choose_indexed(&paths, &mut seed.0);
        self.settle_checkpoint(None, path_choice);
        proof {
            if path_choice is None {
                assert(old(self).path@.push(target).drop_last() =~= old(self).path@);
            }
        }
        arrived
    }
}


/// One step of walking back: the next target taken off the end of the path,
/// and the path left.
pub open spec fn returnal_step(path: Seq<usize>) -> (Option<usize>, Seq<usize>) {
    if path.len() > 0 {
        (Some(path.last()), path.drop_last())
    } else {
        (None, path)
    }
}

/// The targets of the first `k` steps of walking back.
pub open spec fn retrace(path: Seq<usize>, k: nat) -> Seq<usize>
    decreases k,
{
    match returnal_step(path).0 {
        Some(t) => if k == 0 {
            Seq::empty()
        } else {
            seq![t] + retrace(returnal_step(path).1, (k - 1) as nat)
        },
        None => Seq::empty(),
    }
}

/// A porter walking back visits the checkpoints of its way out in reverse
/// order, and is done after as many steps as there were checkpoints.
pub proof fn lemma_returnal_retraces(path: Seq<usize>)
    ensures
        retrace(path, path.len()) == path.reverse(),
        returnal_step(rest_after(path, path.len())).0 is None,
    decreases path.len(),
{
    if path.len() > 0 {
        lemma_returnal_retraces(path.drop_last());
        assert(retrace(path, path.len()) =~= seq![path.last()] + path.drop_last().reverse());
        assert(seq![path.last()] + path.drop_last().reverse() =~= path.reverse());
        assert(rest_after(path, path.len()) == rest_after(path.drop_last(), path.drop_last().len()));
    }
}

/// The path left after `k` steps of walking back.
pub open spec fn rest_after(path: Seq<usize>, k: nat) -> Seq<usize>
    decreases k,
{
    if k == 0 {
        path
    } else {
        rest_after(returnal_step(path).1, (k - 1) as nat)
    }
}

/// The neighbours considered at a checkpoint `c` are exactly the
/// constructions standing on the four tiles next to it: north `(x, y+1)`,
/// east `(x+1, y)`, south `(x, y-1)` and west `(x-1, y)`.
pub proof fn lemma_neighbors_are_the_four_tiles(w: &TileWorld, c: Coord, e: usize)
    requires
        coord_in_bounds(c),
    ensures
        w.neighbors(c).contains(e) <==> (lookup(w.constructions@, Coord { x: c.x, y: (c.y + 1) as i32 })
            == Some(e) || lookup(w.constructions@, Coord { x: (c.x + 1) as i32, y: c.y }) == Some(e)
            || lookup(w.constructions@, Coord { x: c.x, y: (c.y - 1) as i32 }) == Some(e) || lookup(
            w.constructions@,
            Coord { x: (c.x - 1) as i32, y: c.y },
        ) == Some(e)),
        w.neighbors(c).len() <= 4,
{
    let s0 = opt_push(Seq::empty(), w.around(c, 0));
    let s1 = opt_push(s0, w.around(c, 1));
    let s2 = opt_push(s1, w.around(c, 2));
    let s3 = opt_push(s2, w.around(c, 3));
    assert(w.around(c, 0) == lookup(w.constructions@, Coord { x: c.x, y: (c.y + 1) as i32 }));
    assert(w.around(c, 1) == lookup(w.constructions@, Coord { x: (c.x + 1) as i32, y: c.y }));
    assert(w.around(c, 2) == lookup(w.constructions@, Coord { x: c.x, y: (c.y - 1) as i32 }));
    assert(w.around(c, 3) == lookup(w.constructions@, Coord { x: (c.x - 1) as i32, y: c.y }));
    lemma_opt_push_contains(Seq::empty(), w.around(c, 0), e);
    lemma_opt_push_contains(s0, w.around(c, 1), e);
    lemma_opt_push_contains(s1, w.around(c, 2), e);
    lemma_opt_push_contains(s2, w.around(c, 3), e);
    assert(!Seq::<usize>::empty().contains(e));
    assert(s3 == w.neighbors(c));
}

proof fn lemma_opt_push_contains(s: Seq<usize>, o: Option<usize>, e: usize)
    ensures
        opt_push(s, o).contains(e) <==> (s.contains(e) || o == Some(e)),
        opt_push(s, o).len() <= s.len() + 1,
{
    match o {
        Some(x) => {
            let t = s.push(x);
            if t.contains(e) {
                let i = choose|i: int| 0 <= i < t.len() && t[i] == e;
                if i < s.len() {
                    assert(s[i] == e);
                }
            }
            if s.contains(e) {
                let i = choose|i: int| 0 <= i < s.len() && s[i] == e;
                assert(t[i] == e);
            }
            if x == e {
                assert(t[s.len() as int] == e);
            }
        },
        None => {},
    }
}

/// A porter routed by recipes arrives at a neighbour only when that
/// neighbour's selected recipe takes the item it carries, and then at the
/// first such neighbour; it arrives nowhere exactly when no neighbour's
/// recipe takes the item.
pub proof fn lemma_first_accepting_takes_the_item(ns: Seq<usize>, recipe_inputs: Map<usize, Vec<u64>>, item: u64)
    ensures
        first_accepting(ns, recipe_inputs, item) matches Some(s) ==> {
            &&& recipe_inputs.contains_key(s)
            &&& recipe_inputs[s]@.contains(item)
            &&& exists|i: int|
                0 <= i < ns.len() && ns[i] == s && forall|j: int|
                    0 <= j < i ==> !(recipe_inputs.contains_key(#[trigger] ns[j]) && recipe_inputs[ns[j]]@.contains(
                        item,
                    ))
        },
        first_accepting(ns, recipe_inputs, item) is None <==> forall|i: int|
            0 <= i < ns.len() ==> !(recipe_inputs.contains_key(#[trigger] ns[i]) && recipe_inputs[ns[i]]@.contains(
                item,
            )),
    decreases ns.len(),
{
    if ns.len() > 0 {
        let rest = ns.drop_first();
        lemma_first_accepting_takes_the_item(rest, recipe_inputs, item);
        if recipe_inputs.contains_key(ns[0]) && recipe_inputs[ns[0]]@.contains(item) {
            assert(ns[0] == ns[0]);
        } else {
            assert forall|i: int| 1 <= i < ns.len() implies ns[i] == rest[i - 1] by {}
            if first_accepting(rest, recipe_inputs, item) is Some {
                let i = choose|i: int|
                    0 <= i < rest.len() && rest[i] == first_accepting(rest, recipe_inputs, item).unwrap() && forall|
                        j: int,
                    | 0 <= j < i ==> !(recipe_inputs.contains_key(#[trigger] rest[j])
                        && recipe_inputs[rest[j]]@.contains(item));
                assert(ns[i + 1] == rest[i]);
                assert forall|j: int| 0 <= j < i + 1 implies !(recipe_inputs.contains_key(#[trigger] ns[j])
                    && recipe_inputs[ns[j]]@.contains(item)) by {
                    if j > 0 {
                        assert(ns[j] == rest[j - 1]);
                    }
                }
            } else {
                assert forall|i: int| 0 <= i < ns.len() implies !(recipe_inputs.contains_key(#[trigger] ns[i])
                    && recipe_inputs[ns[i]]@.contains(item)) by {
                    if i > 0 {
                        assert(ns[i] == rest[i - 1]);
                    }
                }
            }
        }
    }
}

} // verus!
