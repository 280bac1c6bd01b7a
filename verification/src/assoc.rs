//! Lists of entries keyed by name, where each name occurs at most once.
use vstd::prelude::*;

verus! {

/// Names that occur at most once.
pub open spec fn names_distinct<V>(s: Seq<(String, V)>) -> bool {
    forall|i: int, j: int| 0 <= i < j < s.len() ==> s[i].0@ != s[j].0@
}

/// Where `name` is in a list of entries, if it is.
pub fn find_name<V>(entries: &Vec<(String, V)>, name: &String) -> (r: Option<usize>)
    ensures
        r matches Some(i) ==> i < entries@.len() && entries@[i as int].0@ == name@,
        r is None ==> forall|i: int| 0 <= i < entries@.len() ==> entries@[i].0@ != name@,
{
    let mut i: usize = 0;
    while i < entries.len()
        invariant
            i <= entries@.len(),
            forall|j: int| 0 <= j < i ==> entries@[j].0@ != name@,
        decreases entries@.len() - i,
    {
        if entries[i].0 == *name {
            return Some(i);
        }
        i = i + 1;
    }
    None
}

/// The map that a list of entries stands for, each value passed through `f`;
/// where a name occurs twice, the later entry wins.
pub open spec fn entries_map<V, W>(s: Seq<(String, V)>, f: spec_fn(V) -> W) -> Map<Seq<char>, W>
    decreases s.len(),
{
    if s.len() == 0 {
        Map::empty()
    } else {
        entries_map(s.drop_last(), f).insert(s.last().0@, f(s.last().1))
    }
}

/// In a list of distinct names, a name is a key of the map exactly when some
/// entry holds it, and it maps to that entry's value.
pub proof fn lemma_entries_map<V, W>(s: Seq<(String, V)>, f: spec_fn(V) -> W, k: Seq<char>)
    requires
        names_distinct(s),
    ensures
        entries_map(s, f).contains_key(k) <==> exists|i: int| 0 <= i < s.len() && s[i].0@ == k,
        forall|i: int| 0 <= i < s.len() && s[i].0@ == k ==> entries_map(s, f)[k] == f(s[i].1),
    decreases s.len(),
{
    if s.len() > 0 {
        lemma_entries_map(s.drop_last(), f, k);
        if entries_map(s.drop_last(), f).contains_key(k) {
            let i = choose|i: int| 0 <= i < s.len() - 1 && s.drop_last()[i].0@ == k;
            assert(s[i].0@ == k);
        }
        if exists|i: int| 0 <= i < s.len() && s[i].0@ == k {
            let i = choose|i: int| 0 <= i < s.len() && s[i].0@ == k;
            if i < s.len() - 1 {
                assert(s.drop_last()[i].0@ == k);
            }
        }
    }
}

} // verus!
