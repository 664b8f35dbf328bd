//! Names for new people: a queue refilled with shuffled names, handed out from
//! its end, with a fallback when it runs dry.
use crate::profession::Profession;
use crate::random::{shuffle_strings, Seed};
use vstd::prelude::*;

verus! {

/// Names are reloaded when no more than this many are queued.
pub const REFILL_THRESHOLD: usize = 50;

/// The queue of names still to hand out.
#[derive(Clone, Debug)]
pub struct NameManager {
    pub name_queue: Vec<String>,
}

/// The name for a new person when the queue is empty.
pub open spec fn default_name() -> Seq<char> {
    "Unknown"@
}

/// The name handed out next and the queue left afterwards.
pub open spec fn next_spec(queue: Seq<Seq<char>>) -> (Seq<char>, Seq<Seq<char>>) {
    if queue.len() > 0 {
        (queue.last(), queue.drop_last())
    } else {
        (default_name(), queue)
    }
}

/// The names of `k` people made one after the other, and the queue left.
pub open spec fn draw_spec(queue: Seq<Seq<char>>, k: nat) -> (Seq<Seq<char>>, Seq<Seq<char>>)
    decreases k,
{
    if k == 0 {
        (Seq::empty(), queue)
    } else {
        let (first, rest) = next_spec(queue);
        let (names, left) = draw_spec(rest, (k - 1) as nat);
        (seq![first] + names, left)
    }
}

/// Names queued behind the others are handed out first, newest first:
/// drawing as many names as were appended gives them back in reverse order
/// (so each of them exactly once) and leaves the earlier queue as it was.
pub proof fn lemma_draw_appended(q: Seq<Seq<char>>, p: Seq<Seq<char>>)
    ensures
        draw_spec(q + p, p.len()) == (p.reverse(), q),
        draw_spec(q + p, p.len()).0.to_multiset() == p.to_multiset(),
    decreases p.len(),
{
    if p.len() == 0 {
        assert(q + p =~= q);
        assert(p.reverse() =~= Seq::<Seq<char>>::empty());
    } else {
        let qp = q + p;
        assert(qp.drop_last() =~= q + p.drop_last());
        assert(qp.last() == p.last());
        lemma_draw_appended(q, p.drop_last());
        assert(seq![p.last()] + p.drop_last().reverse() =~= p.reverse());
    }
    p.lemma_reverse_to_multiset();
}

impl NameManager {
    pub open spec fn view(&self) -> Seq<Seq<char>> {
        self.name_queue@.map_values(|s: String| s@)
    }

    pub fn new() -> (r: NameManager)
        ensures
            r@ == Seq::<Seq<char>>::empty(),
    {
        let r = NameManager { name_queue: Vec::new() };
        assert(r@ =~= Seq::<Seq<char>>::empty());
        r
    }

    /// Takes the last queued name, or "Unknown" when none is queued.
    pub fn next(&mut self) -> (name: String)
        ensures
            (name@, final(self)@) == next_spec(old(self)@),
    {
        proof {
            reveal_strlit("Unknown");
        }
        match self.name_queue.pop() {
            Some(n) => {
                assert(self@ =~= old(self)@.drop_last());
                n
            },
            None => String::from_str("Unknown"),
        }
    }

    /// Whether the queue is low enough to be refilled.
    pub fn name_queue_low(&self) -> (r: bool)
        ensures
            r == (self@.len() <= REFILL_THRESHOLD),
    {
        self.name_queue.len() <= REFILL_THRESHOLD
    }

    /// Appends names to the queue, in the order given.
    pub fn append_names(&mut self, names: Vec<String>)
        ensures
            final(self)@ == old(self)@ + names@.map_values(|s: String| s@),
    {
        let mut names = names;
        let ghost added = names@.map_values(|s: String| s@);
        self.name_queue.append(&mut names);
        assert(self@ =~= old(self)@ + added);
    }

    /// Refills the queue from the loaded name list, if it is loaded: a copy of
    /// the list, shuffled, goes behind the queued names.
    pub fn load_names(&mut self, names: Option<&Vec<String>>, seed: &mut Seed)
        ensures
            names is None ==> final(self)@ == old(self)@,
            names matches Some(list) ==> {
                &&& final(self)@.len() == old(self)@.len() + list@.len()
                &&& final(self)@.subrange(0, old(self)@.len() as int) == old(self)@
                &&& final(self).name_queue@.subrange(
                    old(self).name_queue@.len() as int,
                    final(self).name_queue@.len() as int,
                ).to_multiset() == list@.to_multiset()
            },
    {
        if let Some(list) = names {
            let mut shuffled: Vec<String> = Vec::new();
            let mut i: usize = 0;
            while i < list.len()
                invariant
                    i <= list@.len(),
                    shuffled@ == list@.take(i as int),
                decreases list.len() - i,
            {
                shuffled.push(list[i].clone());
                assert(list@.take(i + 1) =~= list@.take(i as int).push(list@[i as int]));
                i = i + 1;
            }
            assert(list@.take(i as int) =~= list@);
            shuffle_strings(&mut shuffled, &mut seed.0);
            let ghost after = shuffled@;
            let ghost q = self.name_queue@;
            self.name_queue.append(&mut shuffled);
            proof {
                assert(self.name_queue@ == q + after);
                assert(self@ =~= old(self)@ + after.map_values(|s: String| s@));
                assert(self@.subrange(0, old(self)@.len() as int) =~= old(self)@);
                assert(self.name_queue@.subrange(q.len() as int, self.name_queue@.len() as int) =~= after);
            }
        }
    }
}

/// Each newly constructed structure houses three new people, named in turn
/// from the queue, who are assigned to it as porters. Returns
/// `(name, structure, profession)` per person.
pub fn house_people(names: &mut NameManager, structures: &Vec<usize>) -> (people: Vec<(String, usize, Profession)>)
    ensures
        people@.len() == 3 * structures@.len(),
        forall|i: int| 0 <= i < people@.len() ==> #[trigger] people@[i].1 == structures@[i / 3],
        forall|i: int| 0 <= i < people@.len() ==> (#[trigger] people@[i]).2 == Profession::Porter,
        people@.map_values(|p: (String, usize, Profession)| p.0@) == draw_spec(
            old(names)@,
            (3 * structures@.len()) as nat,
        ).0,
        final(names)@ == draw_spec(old(names)@, (3 * structures@.len()) as nat).1,
{
    let mut people: Vec<(String, usize, Profession)> = Vec::new();
    let mut i: usize = 0;
    let ghost q0 = names@;
    while i < structures.len()
        invariant
            i <= structures@.len(),
            q0 == old(names)@,
            people@.len() == 3 * i,
            forall|j: int| 0 <= j < people@.len() ==> #[trigger] people@[j].1 == structures@[j / 3],
            forall|j: int| 0 <= j < people@.len() ==> (#[trigger] people@[j]).2 == Profession::Porter,
            draw_spec(q0, (3 * structures@.len()) as nat) == ({
                let d = draw_spec(names@, (3 * (structures@.len() - i)) as nat);
                (people@.map_values(|p: (String, usize, Profession)| p.0@) + d.0, d.1)
            }),
        decreases structures.len() - i,
    {
        let s = structures[i];
        let mut k: usize = 0;
        while k < 3
            invariant
                k <= 3,
                i < structures@.len(),
                s == structures@[i as int],
                people@.len() == 3 * i + k,
                forall|j: int| 0 <= j < people@.len() ==> #[trigger] people@[j].1 == structures@[j / 3],
                forall|j: int| 0 <= j < people@.len() ==> (#[trigger] people@[j]).2 == Profession::Porter,
                draw_spec(q0, (3 * structures@.len()) as nat) == ({
                    let d = draw_spec(names@, (3 * (structures@.len() - i) - k) as nat);
                    (people@.map_values(|p: (String, usize, Profession)| p.0@) + d.0, d.1)
                }),
            decreases 3 - k,
        {
            let ghost before = names@;
            let ghost old_people = people@;
            let name = names.next();
            proof {
                let m = (3 * (structures@.len() - i) - k) as nat;
                assert(m > 0);
                let d0 = draw_spec(before, m);
                let d1 = draw_spec(names@, (m - 1) as nat);
                assert(d0.0 == seq![name@] + d1.0);
                assert(d0.1 == d1.1);
            }
            people.push((name, s, Profession::Porter));
            proof {
                let m = (3 * (structures@.len() - i) - k) as nat;
                let d1 = draw_spec(names@, (m - 1) as nat);
                let pv = people@.map_values(|p: (String, usize, Profession)| p.0@);
                let opv = old_people.map_values(|p: (String, usize, Profession)| p.0@);
                assert(pv =~= opv.push(people@.last().0@));
                assert(opv + (seq![people@.last().0@] + d1.0) =~= pv + d1.0);
                assert(people@[people@.len() - 1].1 == structures@[(people@.len() - 1) / 3]);
            }
            k = k + 1;
        }
        i = i + 1;
    }
    proof {
        let d = draw_spec(names@, 0);
        assert(people@.map_values(|p: (String, usize, Profession)| p.0@) + d.0 =~= people@.map_values(
            |p: (String, usize, Profession)| p.0@,
        ));
    }
    people
}

} // verus!
