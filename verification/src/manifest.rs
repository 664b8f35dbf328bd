//! Manifests: definitions keyed by string ids, and the index from a
//! definition's own id to its loaded asset.
use vstd::prelude::*;

verus! {

broadcast use vstd::std_specs::hash::group_hash_axioms;

/// The id of a definition.
#[derive(Clone, Debug)]
pub struct Id {
    pub value: String,
}

impl Id {
    pub fn new(value: String) -> (r: Id)
        ensures
            r.value == value,
    {
        Id { value }
    }

    /// A copy of the id.
    pub fn copy(&self) -> (r: Id)
        ensures
            r == *self,
    {
        Id { value: self.value.clone() }
    }

    /// Ids are equal when their strings are.
    pub fn same(&self, other: &Id) -> (r: bool)
        ensures
            r == (self.value@ == other.value@),
    {
        self.value == other.value
    }
}

/// The id a definition has before its manifest is loaded.
pub fn unset_id() -> (r: Id)
    ensures
        r.value@ == "<unset>"@,
{
    Id { value: String::from_str("<unset>") }
}

/// A definition and the id it is filed under.
#[derive(Clone, Debug)]
pub struct Definition<T> {
    pub id: Id,
    pub value: T,
}

/// The definitions of a manifest file, under their ids (each id once).
#[derive(Clone, Debug)]
pub struct Manifest<T> {
    pub entries: Vec<(Id, Definition<T>)>,
}

/// The first entry filed under `id`.
pub open spec fn find_entry<T>(entries: Seq<(Id, Definition<T>)>, id: Seq<char>) -> Option<int>
    decreases entries.len(),
{
    if entries.len() == 0 {
        None
    } else if entries[0].0.value@ == id {
        Some(0)
    } else {
        match find_entry(entries.drop_first(), id) {
            Some(i) => Some(i + 1),
            None => None,
        }
    }
}

proof fn lemma_find_entry<T>(entries: Seq<(Id, Definition<T>)>, id: Seq<char>)
    ensures
        match find_entry(entries, id) {
            Some(i) => 0 <= i < entries.len() && entries[i].0.value@ == id && forall|j: int|
                0 <= j < i ==> entries[j].0.value@ != id,
            None => forall|j: int| 0 <= j < entries.len() ==> entries[j].0.value@ != id,
        },
    decreases entries.len(),
{
    if entries.len() > 0 && entries[0].0.value@ != id {
        lemma_find_entry(entries.drop_first(), id);
        assert forall|j: int| 1 <= j < entries.len() implies entries[j] == entries.drop_first()[j - 1] by {}
    }
}

/// No id is filed twice.
pub open spec fn ids_distinct<T>(entries: Seq<(Id, Definition<T>)>) -> bool {
    forall|i: int, j: int|
        0 <= i < j < entries.len() ==> (#[trigger] entries[i]).0.value@ != (#[trigger] entries[j]).0.value@
}

impl<T> Manifest<T> {
    /// A manifest files each id once, and each definition carries the id it is
    /// filed under.
    pub open spec fn wf(&self) -> bool {
        &&& ids_distinct(self.entries@)
        &&& forall|i: int|
            0 <= i < self.entries@.len() ==> (#[trigger] self.entries@[i]).1.id.value@
                == self.entries@[i].0.value@
    }

    /// Builds a manifest from the parsed entries (a table, so no id comes
    /// twice); each definition takes the id it is filed under.
    pub fn from_entries(entries: Vec<(Id, Definition<T>)>) -> (m: Manifest<T>)
        requires
            ids_distinct(entries@),
        ensures
            m.wf(),
            m.entries@.len() == entries@.len(),
            forall|i: int|
                0 <= i < entries@.len() ==> (#[trigger] m.entries@[i]).0 == entries@[i].0
                    && m.entries@[i].1.id == entries@[i].0 && m.entries@[i].1.value == entries@[i].1.value,
    {
        let mut entries = entries;
        let ghost orig = entries@;
        let mut out: Vec<(Id, Definition<T>)> = Vec::new();
        while entries.len() > 0
            invariant
                out@.len() + entries@.len() == orig.len(),
                forall|i: int| 0 <= i < entries@.len() ==> entries@[i] == orig[out@.len() + i],
                forall|i: int|
                    0 <= i < out@.len() ==> (#[trigger] out@[i]).0 == orig[i].0 && out@[i].1.id == orig[i].0
                        && out@[i].1.value == orig[i].1.value,
            decreases entries.len(),
        {
            let (id, def) = entries.remove(0);
            let key = id.copy();
            out.push((id, Definition { id: key, value: def.value }));
        }
        proof {
            assert forall|i: int, j: int|
                0 <= i < j < out@.len() implies (#[trigger] out@[i]).0.value@ != (#[trigger] out@[j]).0.value@ by {
                assert(orig[i].0 == out@[i].0);
                assert(orig[j].0 == out@[j].0);
            }
        }
        Manifest { entries: out }
    }

    /// The definition filed under `id`, if any; it carries that id.
    pub fn get(&self, id: &Id) -> (r: Option<&Definition<T>>)
        requires
            self.wf(),
        ensures
            r == (match find_entry(self.entries@, id.value@) {
                Some(i) => Some(&self.entries@[i].1),
                None => None,
            }),
            r is Some <==> exists|i: int| 0 <= i < self.entries@.len() && self.entries@[i].0.value@ == id.value@,
            r matches Some(d) ==> d.id.value@ == id.value@,
    {
        proof {
            lemma_find_entry(self.entries@, id.value@);
        }
        let mut i: usize = 0;
        while i < self.entries.len()
            invariant
                self.wf(),
                i <= self.entries@.len(),
                forall|j: int| 0 <= j < i ==> self.entries@[j].0.value@ != id.value@,
                match find_entry(self.entries@, id.value@) {
                    Some(k) => 0 <= k < self.entries@.len() && self.entries@[k].0.value@ == id.value@
                        && forall|j: int| 0 <= j < k ==> self.entries@[j].0.value@ != id.value@,
                    None => forall|j: int|
                        0 <= j < self.entries@.len() ==> self.entries@[j].0.value@ != id.value@,
                },
            decreases self.entries.len() - i,
        {
            if self.entries[i].0.same(id) {
                return Some(&self.entries[i].1);
            }
            i = i + 1;
        }
        None
    }

    /// Whether a definition is filed under `id`.
    pub fn contains(&self, id: &Id) -> (r: bool)
        requires
            self.wf(),
        ensures
            r == find_entry(self.entries@, id.value@) is Some,
    {
        self.get(id).is_some()
    }
}

/// An asset that names the key it is indexed under.
pub trait Indexable {
    spec fn index_key(&self) -> Seq<char>;

    fn index(&self) -> (r: &String)
        ensures
            r@ == self.index_key(),
    ;
}

/// What happened to an asset of some kind.
#[derive(Clone, Copy, Debug, PartialEq, Eq, Structural)]
pub enum AssetEvent {
    Added(u64),
    Modified(u64),
    Removed(u64),
    Unused(u64),
    LoadedWithDependencies(u64),
}

/// The index after the events, in order: each added asset that is still
/// loaded is indexed under its key.
pub open spec fn populate_spec<T: Indexable>(
    index: Map<Seq<char>, u64>,
    events: Seq<AssetEvent>,
    assets: Map<u64, T>,
) -> Map<Seq<char>, u64>
    decreases events.len(),
{
    if events.len() == 0 {
        index
    } else {
        let prev = populate_spec(index, events.drop_last(), assets);
        match events.last() {
            AssetEvent::Added(id) => if assets.contains_key(id) {
                prev.insert(assets[id].index_key(), id)
            } else {
                prev
            },
            _ => prev,
        }
    }
}

/// Keeps the index up to date with the asset events: an added asset that is
/// loaded is indexed under its key, replacing what was indexed there.
pub fn populate_index<T: Indexable>(
    events: &Vec<AssetEvent>,
    assets: &std::collections::HashMap<u64, T>,
    index_map: &mut IndexMap,
)
    ensures
        final(index_map)@ == populate_spec(old(index_map)@, events@, assets@),
{
    let mut i: usize = 0;
    while i < events.len()
        invariant
            i <= events@.len(),
            index_map@ == populate_spec(old(index_map)@, events@.take(i as int), assets@),
        decreases events.len() - i,
    {
        assert(events@.take(i + 1).drop_last() =~= events@.take(i as int));
        assert(events@.take(i + 1).last() == events@[i as int]);
        if let AssetEvent::Added(id) = events[i] {
            match assets.get(&id) {
                Some(asset) => {
                    let key = asset.index().clone();
                    index_map.insert(key, id);
                },
                None => {},
            }
        }
        i = i + 1;
    }
    assert(events@.take(events@.len() as int) =~= events@);
}

/// Loaded assets of a kind, by the id their definitions give themselves.
#[derive(Clone, Debug)]
pub struct IndexMap {
    pub entries: Vec<(String, u64)>,
}

impl IndexMap {
    pub open spec fn view(&self) -> Map<Seq<char>, u64>
        decreases self.entries@.len(),
    {
        index_view(self.entries@)
    }

    pub fn new() -> (r: IndexMap)
        ensures
            r@ == Map::<Seq<char>, u64>::empty(),
    {
        IndexMap { entries: Vec::new() }
    }

    /// An asset was added: it is indexed under its definition's id, replacing
    /// an asset indexed under the same id.
    pub fn insert(&mut self, index: String, asset: u64)
        ensures
            final(self)@ == old(self)@.insert(index@, asset),
    {
        self.entries.push((index, asset));
        proof {
            assert(self.entries@.drop_last() == old(self).entries@);
        }
    }

    /// The asset indexed under `index`.
    pub fn get(&self, index: &String) -> (r: Option<u64>)
        ensures
            r == (if self@.contains_key(index@) {
                Some(self@[index@])
            } else {
                None
            }),
    {
        proof {
            lemma_index_view_last(self.entries@, index@);
        }
        let mut i = self.entries.len();
        assert(self.entries@.take(i as int) =~= self.entries@);
        while i > 0
            invariant
                i <= self.entries@.len(),
                last_value(self.entries@, index@) == last_value(self.entries@.take(i as int), index@),
                last_value(self.entries@, index@) == (if self@.contains_key(index@) {
                    Some(self@[index@])
                } else {
                    None
                }),
            decreases i,
        {
            let ghost before = self.entries@.take(i as int);
            assert(before.drop_last() =~= self.entries@.take(i - 1));
            assert(before.last() == self.entries@[i - 1]);
            if self.entries[i - 1].0 == *index {
                return Some(self.entries[i - 1].1);
            }
            i = i - 1;
        }
        None
    }
}

/// Later entries win.
pub open spec fn index_view(entries: Seq<(String, u64)>) -> Map<Seq<char>, u64>
    decreases entries.len(),
{
    if entries.len() == 0 {
        Map::empty()
    } else {
        index_view(entries.drop_last()).insert(entries.last().0@, entries.last().1)
    }
}

/// The value of the last entry under `k`.
pub open spec fn last_value(entries: Seq<(String, u64)>, k: Seq<char>) -> Option<u64>
    decreases entries.len(),
{
    if entries.len() == 0 {
        None
    } else if entries.last().0@ == k {
        Some(entries.last().1)
    } else {
        last_value(entries.drop_last(), k)
    }
}

proof fn lemma_index_view_last(entries: Seq<(String, u64)>, k: Seq<char>)
    ensures
        last_value(entries, k) == (if index_view(entries).contains_key(k) {
            Some(index_view(entries)[k])
        } else {
            None
        }),
    decreases entries.len(),
{
    if entries.len() > 0 {
        lemma_index_view_last(entries.drop_last(), k);
    }
}

} // verus!
