//! The hotbar: which slot is selected, what its action is, and which
//! actions stay selected after use.
use std::collections::{HashMap, HashSet};
use vstd::prelude::*;

verus! {

broadcast use vstd::std_specs::hash::group_hash_axioms;

/// What a hotbar action does when a tile is clicked.
#[derive(Clone, Copy, Debug, PartialEq, Eq, Structural)]
pub enum HotbarActionKind {
    /// Place the structure with this definition.
    PlaceStructure(u64),
    PlacePath,
}

/// Sent when the selected hotbar slot changes.
#[derive(Clone, Copy, Debug, PartialEq, Eq, Structural)]
pub struct HotbarSelectionChanged {
    pub previous: Option<usize>,
    pub current: Option<usize>,
}

/// Selecting: choosing the selected slot again clears the selection;
/// choosing another (or none) selects it. A change is announced, except when
/// nothing was selected and nothing is chosen.
pub open spec fn select_spec(selected: Option<usize>, entity: Option<usize>) -> (
    Option<usize>,
    Option<HotbarSelectionChanged>,
) {
    if selected == entity {
        if selected is Some {
            (None, Some(HotbarSelectionChanged { previous: selected, current: None }))
        } else {
            (selected, None)
        }
    } else {
        (entity, Some(HotbarSelectionChanged { previous: selected, current: entity }))
    }
}

/// Selects a hotbar slot (or none); see `select_spec`.
pub fn select(selected: &mut Option<usize>, entity: Option<usize>) -> (changed: Option<
    HotbarSelectionChanged,
>)
    ensures
        (*final(selected), changed) == select_spec(*old(selected), entity),
{
    if *selected == entity {
        if selected.is_some() {
            let change = HotbarSelectionChanged { previous: *selected, current: None };
            *selected = None;
            Some(change)
        } else {
            None
        }
    } else {
        let change = HotbarSelectionChanged { previous: *selected, current: entity };
        *selected = entity;
        Some(change)
    }
}

/// Choosing the same slot twice, starting with no slot selected, selects it
/// and then clears the selection again.
pub proof fn lemma_select_twice_toggles(e: usize)
    ensures
        select_spec(None, Some(e)).0 == Some(e),
        select_spec(select_spec(None, Some(e)).0, Some(e)).0 == None::<usize>,
{
}

/// Whatever was selected, choosing a slot other than the selected one
/// selects it, and clearing never leaves anything selected.
pub proof fn lemma_select_outcome(selected: Option<usize>, entity: Option<usize>)
    ensures
        selected != entity ==> select_spec(selected, entity).0 == entity,
        select_spec(selected, None).0 == None::<usize>,
        select_spec(selected, entity).1 matches Some(c) ==> c.previous == selected && c.current
            == select_spec(selected, entity).0,
{
}

/// Selections made by pressing shortcuts: each slot whose shortcut was just
/// pressed is chosen in turn, from `selected` on.
pub open spec fn shortcut_selections(
    selected: Option<usize>,
    slots: Seq<(usize, u32)>,
    pressed: Set<u32>,
) -> (Option<usize>, Seq<HotbarSelectionChanged>)
    decreases slots.len(),
{
    if slots.len() == 0 {
        (selected, Seq::empty())
    } else {
        let rest = shortcut_selections(selected, slots.drop_last(), pressed);
        if pressed.contains(slots.last().1) {
            let (next, change) = select_spec(rest.0, Some(slots.last().0));
            (next, match change {
                Some(c) => rest.1.push(c),
                None => rest.1,
            })
        } else {
            rest
        }
    }
}

/// The hotbar slots (with their shortcut keys), visited in order: each one
/// whose key was just pressed is chosen as by `select`. Returns the changes
/// announced, in order.
pub fn select_on_keyboard_shortcuts(
    selected: &mut Option<usize>,
    slots: &Vec<(usize, u32)>,
    just_pressed: &HashSet<u32>,
) -> (changes: Vec<HotbarSelectionChanged>)
    ensures
        (*final(selected), changes@) == shortcut_selections(*old(selected), slots@, just_pressed@),
{
    let mut changes: Vec<HotbarSelectionChanged> = Vec::new();
    let mut i: usize = 0;
    while i < slots.len()
        invariant
            i <= slots@.len(),
            (*selected, changes@) == shortcut_selections(*old(selected), slots@.take(i as int), just_pressed@),
        decreases slots.len() - i,
    {
        assert(slots@.take(i + 1).drop_last() =~= slots@.take(i as int));
        let (slot, key) = slots[i];
        if just_pressed.contains(&key) {
            match select(selected, Some(slot)) {
                Some(c) => changes.push(c),
                None => {},
            }
        }
        i = i + 1;
    }
    assert(slots@.take(slots@.len() as int) =~= slots@);
    changes
}

/// What the hotbar's selection refers to: the selected slot, each slot's
/// action entity, and each action entity's kind.
pub struct HotbarSelection {
    pub selected: Option<usize>,
    pub slot_actions: HashMap<usize, usize>,
    pub kinds: HashMap<usize, HotbarActionKind>,
}

impl HotbarSelection {
    /// The action of the selected hotbar slot: the slot's action entity, and
    /// that entity's kind.
    pub fn action(&self) -> (r: Option<HotbarActionKind>)
        ensures
            r == (match self.selected {
                Some(s) => if self.slot_actions@.contains_key(s) && self.kinds@.contains_key(
                    self.slot_actions@[s],
                ) {
                    Some(self.kinds@[self.slot_actions@[s]])
                } else {
                    None
                },
                None => None,
            }),
    {
        let s = match self.selected {
            Some(s) => s,
            None => return None,
        };
        let a = match self.slot_actions.get(&s) {
            Some(a) => *a,
            None => return None,
        };
        match self.kinds.get(&a) {
            Some(k) => Some(*k),
            None => None,
        }
    }
}

/// A tile click places a path only while the selected action is placing
/// paths.
pub fn places_path(action: Option<HotbarActionKind>) -> (r: bool)
    ensures
        r == (action == Some(HotbarActionKind::PlacePath)),
{
    match action {
        Some(HotbarActionKind::PlacePath) => true,
        _ => false,
    }
}

/// After a tile was clicked: the selection is cleared, unless the selected
/// slot has no action or its action persists after use.
pub fn deselect_on_use(
    selected: &mut Option<usize>,
    slot_actions: &HashMap<usize, usize>,
    persisted: &HashSet<usize>,
) -> (changed: Option<HotbarSelectionChanged>)
    ensures
        (match *old(selected) {
            Some(s) => slot_actions@.contains_key(s) && !persisted@.contains(slot_actions@[s]),
            None => false,
        }) ==> (*final(selected), changed) == select_spec(*old(selected), None),
        !(match *old(selected) {
            Some(s) => slot_actions@.contains_key(s) && !persisted@.contains(slot_actions@[s]),
            None => false,
        }) ==> *final(selected) == *old(selected) && changed is None,
{
    let s = match *selected {
        Some(s) => s,
        None => return None,
    };
    let a = match slot_actions.get(&s) {
        Some(a) => *a,
        None => return None,
    };
    if persisted.contains(&a) {
        return None;
    }
    select(selected, None)
}

/// An action put into a hotbar slot: the slot, what the action does, the
/// sprite file its icon is drawn from, and whether it stays selected after
/// use.
#[derive(Clone, Debug)]
pub struct HotbarActionSpawn {
    pub slot: usize,
    pub kind: HotbarActionKind,
    pub sprite: String,
    pub persist: bool,
}

/// The sprite file of the structure with definition id `id`.
pub open spec fn structure_sprite(id: Seq<char>) -> Seq<char> {
    "sprites/structures/"@ + id + ".aseprite"@
}

/// The sprite file of the path action's icon.
pub open spec fn path_sprite() -> Seq<char> {
    "sprites/logistics/path_segments.aseprite"@
}

fn structure_sprite_path(id: &String) -> (path: String)
    ensures
        path@ == structure_sprite(id@),
{
    let mut path = String::from_str("sprites/structures/");
    path.append(id.as_str());
    path.append(".aseprite");
    path
}

/// Hotbar slots that have no action yet receive the structures (each its
/// definition asset and id), in order, one each, as far as both last: each
/// action places its structure, shows the structure's sprite, and does not
/// stay selected after use.
pub fn assign_structures(empty_slots: &Vec<usize>, structures: &Vec<(u64, String)>) -> (r: Vec<
    HotbarActionSpawn,
>)
    ensures
        r@.len() == if empty_slots@.len() <= structures@.len() {
            empty_slots@.len()
        } else {
            structures@.len()
        },
        forall|i: int|
            0 <= i < r@.len() ==> {
                &&& (#[trigger] r@[i]).slot == empty_slots@[i]
                &&& r@[i].kind == HotbarActionKind::PlaceStructure(structures@[i].0)
                &&& r@[i].sprite@ == structure_sprite(structures@[i].1@)
                &&& !r@[i].persist
            },
{
    let mut r: Vec<HotbarActionSpawn> = Vec::new();
    let mut i: usize = 0;
    while i < empty_slots.len() && i < structures.len()
        invariant
            i <= empty_slots@.len(),
            i <= structures@.len(),
            r@.len() == i,
            forall|k: int|
                0 <= k < i ==> {
                    &&& (#[trigger] r@[k]).slot == empty_slots@[k]
                    &&& r@[k].kind == HotbarActionKind::PlaceStructure(structures@[k].0)
                    &&& r@[k].sprite@ == structure_sprite(structures@[k].1@)
                    &&& !r@[k].persist
                },
        decreases empty_slots.len() - i,
    {
        let sprite = structure_sprite_path(&structures[i].1);
        r.push(
            HotbarActionSpawn {
                slot: empty_slots[i],
                kind: HotbarActionKind::PlaceStructure(structures[i].0),
                sprite,
                persist: false,
            },
        );
        i = i + 1;
    }
    r
}

/// The path action goes into the first hotbar slot that still has no action:
/// it places paths, shows the path segment sprite, and stays selected after
/// use.
pub fn assign_path_slot(empty_slots: &Vec<usize>) -> (r: Option<HotbarActionSpawn>)
    ensures
        empty_slots@.len() == 0 ==> r is None,
        empty_slots@.len() > 0 ==> (r matches Some(a) && a.slot == empty_slots@[0] && a.kind
            == HotbarActionKind::PlacePath && a.sprite@ == path_sprite() && a.persist),
{
    proof {
        reveal_strlit("sprites/logistics/path_segments.aseprite");
    }
    if empty_slots.len() > 0 {
        Some(
            HotbarActionSpawn {
                slot: empty_slots[0],
                kind: HotbarActionKind::PlacePath,
                sprite: String::from_str("sprites/logistics/path_segments.aseprite"),
                persist: true,
            },
        )
    } else {
        None
    }
}

/// Which slot loses its highlight and which gains it: the highlighted slot
/// loses it every frame, and the selected slot (if any) gains it and becomes
/// the highlighted one; with nothing selected the remembered slot stays.
pub fn highlight_selected_slot(highlighted: &mut Option<usize>, selected: Option<usize>) -> (r: (
    Option<usize>,
    Option<usize>,
))
    ensures
        r == (*old(highlighted), selected),
        *final(highlighted) == (if selected is Some {
            selected
        } else {
            *old(highlighted)
        }),
{
    let removed = *highlighted;
    if selected.is_some() {
        *highlighted = selected;
    }
    (removed, selected)
}

} // verus!
