//! The item compendium lists every item definition ordered by name.
use vstd::multiset::Multiset;
use vstd::prelude::*;
use vstd::string::StrSliceExecFns;

verus! {

/// A line of the compendium: an item's name and stack size.
#[derive(Clone, Debug)]
pub struct CompendiumEntry {
    pub name: String,
    pub stack_size: u32,
}

/// Names are ordered character by character (by code point, which for UTF-8
/// strings is also their byte order); a name comes before its extensions.
pub open spec fn name_le(a: Seq<char>, b: Seq<char>) -> bool
    decreases a.len(),
{
    if a.len() == 0 {
        true
    } else if b.len() == 0 {
        false
    } else if (a[0] as u32) < (b[0] as u32) {
        true
    } else if (a[0] as u32) > (b[0] as u32) {
        false
    } else {
        name_le(a.drop_first(), b.drop_first())
    }
}

pub open spec fn entries_sorted(s: Seq<CompendiumEntry>) -> bool {
    forall|i: int, j: int| 0 <= i < j < s.len() ==> name_le((#[trigger] s[i]).name@, (#[trigger] s[j]).name@)
}

/// The order is total.
pub proof fn lemma_name_le_total(a: Seq<char>, b: Seq<char>)
    ensures
        name_le(a, b) || name_le(b, a),
    decreases a.len(),
{
    if a.len() > 0 && b.len() > 0 && (a[0] as u32) == (b[0] as u32) {
        lemma_name_le_total(a.drop_first(), b.drop_first());
    }
}

/// The order is transitive.
pub proof fn lemma_name_le_transitive(a: Seq<char>, b: Seq<char>, c: Seq<char>)
    requires
        name_le(a, b),
        name_le(b, c),
    ensures
        name_le(a, c),
    decreases a.len(),
{
    if a.len() > 0 && b.len() > 0 && c.len() > 0 {
        if (a[0] as u32) == (b[0] as u32) && (b[0] as u32) == (c[0] as u32) {
            lemma_name_le_transitive(a.drop_first(), b.drop_first(), c.drop_first());
        }
    }
}

/// Whether `a` is ordered no later than `b`.
pub fn name_le_exec(a: &String, b: &String) -> (r: bool)
    ensures
        r == name_le(a@, b@),
{
    let sa = a.as_str();
    let sb = b.as_str();
    let la = sa.unicode_len();
    let lb = sb.unicode_len();
    let mut i: usize = 0;
    assert(a@.skip(0) =~= a@);
    assert(b@.skip(0) =~= b@);
    while i < la && i < lb
        invariant
            la == a@.len(),
            lb == b@.len(),
            sa@ == a@,
            sb@ == b@,
            i <= la,
            i <= lb,
            name_le(a@, b@) == name_le(a@.skip(i as int), b@.skip(i as int)),
        decreases la - i,
    {
        let ca = sa.get_char(i);
        let cb = sb.get_char(i);
        let ghost ra = a@.skip(i as int);
        let ghost rb = b@.skip(i as int);
        assert(ra[0] == ca && rb[0] == cb);
        assert(ra.drop_first() =~= a@.skip(i + 1));
        assert(rb.drop_first() =~= b@.skip(i + 1));
        if (ca as u32) < (cb as u32) {
            return true;
        }
        if (ca as u32) > (cb as u32) {
            return false;
        }
        i = i + 1;
    }
    proof {
        if i == la {
            assert(a@.skip(i as int).len() == 0);
        } else {
            assert(b@.skip(i as int).len() == 0);
        }
    }
    i == la
}

/// Orders the compendium's entries by name. The result holds the same
/// entries.
pub fn sort_by_name(entries: Vec<CompendiumEntry>) -> (sorted: Vec<CompendiumEntry>)
    ensures
        sorted@.to_multiset() == entries@.to_multiset(),
        entries_sorted(sorted@),
{
    broadcast use vstd::seq_lib::group_to_multiset_ensures;

    let mut sorted: Vec<CompendiumEntry> = Vec::new();
    let mut rest = entries;
    let ghost orig = rest@;
    while rest.len() > 0
        invariant
            sorted@.to_multiset().add(rest@.to_multiset()) == orig.to_multiset(),
            entries_sorted(sorted@),
        decreases rest.len(),
    {
        let ghost before_rest = rest@;
        let x = rest.pop().unwrap();
        proof {
            assert(before_rest =~= rest@.push(x));
        }
        let mut j = sorted.len();
        while j > 0 && !name_le_exec(&sorted[j - 1].name, &x.name)
            invariant
                j <= sorted@.len(),
                forall|k: int| j <= k < sorted@.len() ==> !name_le(#[trigger] sorted@[k].name@, x.name@),
            decreases j,
        {
            j = j - 1;
        }
        let ghost old_sorted = sorted@;
        proof {
            assert forall|k: int| j <= k < old_sorted.len() implies name_le(x.name@, #[trigger] old_sorted[k].name@) by {
                lemma_name_le_total(x.name@, old_sorted[k].name@);
            }
            if j > 0 {
                assert(name_le(old_sorted[j - 1].name@, x.name@));
            }
        }
        sorted.insert(j, x);
        proof {
            let s = sorted@;
            assert(s =~= old_sorted.insert(j as int, x));
            assert forall|a: int, b: int| 0 <= a < b < s.len() implies name_le((#[trigger] s[a]).name@, (#[trigger] s[b]).name@) by {
                if a < j && b < j {
                    assert(s[a] == old_sorted[a] && s[b] == old_sorted[b]);
                } else if a < j && b == j {
                    assert(s[a] == old_sorted[a]);
                    if a < j - 1 {
                        lemma_name_le_transitive(old_sorted[a].name@, old_sorted[j - 1].name@, x.name@);
                    }
                } else if a < j {
                    assert(s[a] == old_sorted[a] && s[b] == old_sorted[b - 1]);
                } else if a == j {
                    assert(s[b] == old_sorted[b - 1]);
                } else {
                    assert(s[a] == old_sorted[a - 1] && s[b] == old_sorted[b - 1]);
                }
            }
            vstd::seq_lib::to_multiset_insert(old_sorted, j as int, x);
            vstd::seq_lib::to_multiset_build(rest@, x);
            assert(s.to_multiset() =~= old_sorted.to_multiset().insert(x));
            assert(before_rest.to_multiset() =~= rest@.to_multiset().insert(x));
            assert(sorted@.to_multiset().add(rest@.to_multiset()) =~= orig.to_multiset());
        }
    }
    proof {
        assert(rest@.to_multiset() =~= Multiset::empty());
        assert(sorted@.to_multiset() =~= orig.to_multiset());
    }
    sorted
}

} // verus!
