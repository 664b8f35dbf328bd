//! The set of buildings selected for dismantling.
use std::collections::HashSet;
use vstd::std_specs::hash::spec_hash_keys_iter;
use vstd::std_specs::iter::IteratorSpec;
use vstd::prelude::*;

verus! {

broadcast use vstd::std_specs::hash::group_hash_axioms;

/// The selected buildings.
#[derive(Debug)]
pub struct Selection {
    pub entities: HashSet<usize>,
}

impl Selection {
    pub open spec fn view(&self) -> Set<usize> {
        self.entities@
    }

    pub fn new() -> (r: Selection)
        ensures
            r@ == Set::<usize>::empty(),
    {
        Selection { entities: HashSet::new() }
    }

    /// The pointer moved over `target`: a building joins the selection.
    pub fn pointer_over(&mut self, target: usize, is_building: bool)
        ensures
            final(self)@ == (if is_building {
                old(self)@.insert(target)
            } else {
                old(self)@
            }),
    {
        if is_building {
            self.entities.insert(target);
        }
    }

    /// The pointer left `target`: it leaves the selection, unless left shift
    /// is held.
    pub fn pointer_out(&mut self, target: usize, shift_held: bool)
        ensures
            final(self)@ == (if shift_held {
                old(self)@
            } else {
                old(self)@.remove(target)
            }),
    {
        if !shift_held {
            self.entities.remove(&target);
        }
    }

    /// Escape clears the selection.
    pub fn clear(&mut self)
        ensures
            final(self)@ == Set::<usize>::empty(),
    {
        self.entities.clear();
    }

    /// The dismantle key was held long enough: every selected building is
    /// despawned (returned, each once) and the selection is cleared.
    pub fn dismantle(&mut self) -> (despawned: Vec<usize>)
        ensures
            despawned@.to_set() == old(self)@,
            despawned@.no_duplicates(),
            final(self)@ == Set::<usize>::empty(),
    {
        let mut all: Vec<usize> = Vec::new();
        let ghost keys = self.entities@;
        for e in it: self.entities.iter()
            invariant
                keys == self.entities@,
                it.seq() == spec_hash_keys_iter(&self.entities).remaining(),
                all@ == it.seq().take(it.index()).unref(),
        {
            proof {
                assert(it.seq().take(it.index() + 1).unref() =~= it.seq().take(it.index()).unref().push(
                    *it.seq()[it.index()],
                ));
            }
            all.push(*e);
        }
        proof {
            let r = spec_hash_keys_iter(&self.entities).remaining();
            assert(r.take(r.len() as int) =~= r);
            assert(all@ =~= r.unref());
            assert(r.unref().to_set() == keys);
        }
        self.entities.clear();
        all
    }
}

/// The pointer passing over a building and leaving it again without shift
/// held takes the building out of the selection: for a building that was not
/// selected before, the selection is as it was.
pub proof fn lemma_hover_and_leave(selected: Set<usize>, building: usize)
    ensures
        selected.insert(building).remove(building) == selected.remove(building),
        !selected.contains(building) ==> selected.insert(building).remove(building) == selected,
{
    assert(selected.insert(building).remove(building) =~= selected.remove(building));
    if !selected.contains(building) {
        assert(selected.remove(building) =~= selected);
    }
}

} // verus!
