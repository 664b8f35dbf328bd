//! Item and structure definitions, and the item counts that a structure
//! keeps.
use crate::manifest::Indexable;
use std::collections::HashMap;
use vstd::prelude::*;

verus! {

broadcast use vstd::std_specs::hash::group_hash_axioms;

/// Which taxonomy an item belongs to.
#[derive(Clone, Copy, Debug, PartialEq, Eq, Structural)]
pub enum Taxonomy {
    Fauna,
    Flora,
    Minerale,
}

/// How a porter carries an item.
#[derive(Clone, Copy, Debug, PartialEq, Eq, Structural)]
pub enum Transport {
    Box,
    Bag,
}

/// An item definition as written in an `.item.toml` file.
#[derive(Clone, Debug)]
pub struct ItemRaw {
    pub id: String,
    pub name: String,
    pub description: String,
    pub sprite: String,
    pub stack_size: u32,
    pub taxonomy: Taxonomy,
    pub transport: Transport,
}

/// A loaded item definition; `sprite` names the loaded sprite asset.
#[derive(Clone, Debug)]
pub struct ItemDef {
    pub id: String,
    pub name: String,
    pub description: String,
    pub sprite: u64,
    pub stack_size: u32,
    pub taxonomy: Taxonomy,
    pub transport: Transport,
}

/// The sprite of an item definition that names none.
pub fn placeholder_sprite() -> (s: String)
    ensures
        s@ == "sprites/items/placeholder.png"@,
{
    String::from_str("sprites/items/placeholder.png")
}

impl ItemDef {
    /// Builds a definition from its file contents and the asset that its
    /// sprite path was loaded as.
    pub fn from_toml(raw: ItemRaw, sprite: u64) -> (def: ItemDef)
        ensures
            def.id == raw.id,
            def.name == raw.name,
            def.description == raw.description,
            def.sprite == sprite,
            def.stack_size == raw.stack_size,
            def.taxonomy == raw.taxonomy,
            def.transport == raw.transport,
    {
        ItemDef {
            id: raw.id,
            name: raw.name,
            description: raw.description,
            sprite,
            stack_size: raw.stack_size,
            taxonomy: raw.taxonomy,
            transport: raw.transport,
        }
    }

}

impl Indexable for ItemDef {
    /// Definitions are indexed by their id.
    open spec fn index_key(&self) -> Seq<char> {
        self.id@
    }

    fn index(&self) -> (r: &String) {
        &self.id
    }
}

/// A structure definition as written in a `.structure.toml` file.
#[derive(Clone, Debug)]
pub struct StructureDef {
    pub id: String,
    pub name: String,
    pub default_recipe: Option<String>,
}

impl Indexable for StructureDef {
    /// Structure definitions are indexed by their id.
    open spec fn index_key(&self) -> Seq<char> {
        self.id@
    }

    fn index(&self) -> (r: &String) {
        &self.id
    }
}

/// How many of each item a structure holds.
#[derive(Clone, Debug)]
pub struct Inventory {
    pub items: HashMap<u64, u32>,
}

impl Inventory {
    pub open spec fn view(&self) -> Map<u64, u32> {
        self.items@
    }

    pub fn new() -> (r: Inventory)
        ensures
            r@ == Map::<u64, u32>::empty(),
    {
        Inventory { items: HashMap::new() }
    }

    /// An inventory holding `quantity` of one item.
    pub fn with_single(item: u64, quantity: u32) -> (r: Inventory)
        ensures
            r@ == Map::<u64, u32>::empty().insert(item, quantity),
    {
        let mut items = HashMap::new();
        items.insert(item, quantity);
        Inventory { items }
    }

    /// How many of `item` are held, if the item has an entry.
    pub fn get(&self, item: u64) -> (r: Option<u32>)
        ensures
            r == (if self@.contains_key(item) {
                Some(self@[item])
            } else {
                None
            }),
    {
        match self.items.get(&item) {
            Some(q) => Some(*q),
            None => None,
        }
    }

    /// Adds one of `item`, starting its entry at one.
    pub fn add_one(&mut self, item: u64)
        requires
            old(self)@.contains_key(item) ==> old(self)@[item] < u32::MAX,
        ensures
            final(self)@ == one_added(old(self)@, item),
    {
        let q = match self.items.get(&item) {
            Some(q) => *q + 1,
            None => 1,
        };
        self.items.insert(item, q);
    }

    /// Takes one of `item`, which must be held.
    pub fn take_one(&mut self, item: u64)
        requires
            old(self)@.contains_key(item),
            old(self)@[item] > 0,
        ensures
            final(self)@ == one_taken(old(self)@, item),
    {
        let q = *self.items.get(&item).unwrap();
        self.items.insert(item, q - 1);
    }
}


/// The quantities after one of `item` is added: its entry goes up by one, or
/// starts at one.
pub open spec fn one_added(m: Map<u64, u32>, item: u64) -> Map<u64, u32> {
    m.insert(
        item,
        if m.contains_key(item) {
            (m[item] + 1) as u32
        } else {
            1
        },
    )
}

/// The quantities after one of `item` is taken: its entry goes down by one.
pub open spec fn one_taken(m: Map<u64, u32>, item: u64) -> Map<u64, u32> {
    m.insert(item, (m[item] - 1) as u32)
}

/// Taking one of an item right after adding one gives back the quantities as
/// they were, for an item that already had an entry. (An item without one is
/// left with an entry of zero.)
pub proof fn lemma_take_undoes_add(m: Map<u64, u32>, item: u64)
    requires
        m.contains_key(item),
        m[item] < u32::MAX,
    ensures
        one_taken(one_added(m, item), item) == m,
{
    assert(one_taken(one_added(m, item), item) =~= m);
}

/// Where the definition of a registered item is read from.
pub open spec fn item_manifest_path(name: Seq<char>) -> Seq<char> {
    "manifests/"@ + name + ".item.toml"@
}

/// The path of the manifest of the item `name`.
pub fn manifest_path(name: &String) -> (path: String)
    ensures
        path@ == item_manifest_path(name@),
{
    let mut path = String::from_str("manifests/");
    path.append(name.as_str());
    path.append(".item.toml");
    path
}

fn registry_entry(name: &str) -> (r: (String, String))
    ensures
        r.0@ == name@,
        r.1@ == item_manifest_path(name@),
{
    let n = String::from_str(name);
    let p = manifest_path(&n);
    (n, p)
}

/// The registered items, each by name with the path its definition is loaded
/// from.
pub struct ItemRegistry {
    pub items: Vec<(String, String)>,
}

/// The items registered at start-up, each with the path its definition is
/// loaded from.
pub fn load_item_definitions() -> (registry: ItemRegistry)
    ensures
        registry.items@.len() == 6,
        registry.items@[0].0@ == "doll"@,
        registry.items@[1].0@ == "fauna_a"@,
        registry.items@[2].0@ == "flora_a"@,
        registry.items@[3].0@ == "quintessence"@,
        registry.items@[4].0@ == "ritual_doll"@,
        registry.items@[5].0@ == "sack"@,
        forall|i: int|
            0 <= i < 6 ==> (#[trigger] registry.items@[i]).1@ == item_manifest_path(registry.items@[i].0@),
{
    let mut items: Vec<(String, String)> = Vec::new();
    items.push(registry_entry("doll"));
    items.push(registry_entry("fauna_a"));
    items.push(registry_entry("flora_a"));
    items.push(registry_entry("quintessence"));
    items.push(registry_entry("ritual_doll"));
    items.push(registry_entry("sack"));
    ItemRegistry { items }
}

} // verus!
