//! A map keyed by names, kept as a list in which no name occurs twice.

use crate::text::same_text;
use vstd::prelude::*;
use vstd::string::*;

verus! {

/// Map from names to values.
#[derive(Debug)]
pub struct NameMap<V> {
    entries: Vec<(String, V)>,
}

/// The map that a list of pairs describes; a later pair overrides an earlier one.
pub open spec fn map_of<V>(s: Seq<(String, V)>) -> Map<Seq<char>, V>
    decreases s.len(),
{
    if s.len() == 0 {
        Map::empty()
    } else {
        map_of(s.drop_last()).insert(s.last().0@, s.last().1)
    }
}

/// Whether no name occurs twice in the list.
pub open spec fn distinct_names<V>(s: Seq<(String, V)>) -> bool {
    forall|i: int, j: int|
        0 <= i < j < s.len() ==> (#[trigger] s[i]).0@ != (#[trigger] s[j]).0@
}

/// A name is in the map exactly if some pair of the list holds it.
pub proof fn lemma_map_of_domain<V>(s: Seq<(String, V)>, k: Seq<char>)
    ensures
        map_of(s).contains_key(k) <==> exists|i: int| 0 <= i < s.len() && (#[trigger] s[i]).0@ == k,
    decreases s.len(),
{
    if s.len() > 0 {
        let t = s.drop_last();
        lemma_map_of_domain(t, k);
        if map_of(s).contains_key(k) {
            if s.last().0@ == k {
                assert(s[s.len() - 1].0@ == k);
            } else {
                let i = choose|i: int| 0 <= i < t.len() && (#[trigger] t[i]).0@ == k;
                assert(s[i].0@ == k);
            }
        }
        if exists|i: int| 0 <= i < s.len() && (#[trigger] s[i]).0@ == k {
            let i = choose|i: int| 0 <= i < s.len() && (#[trigger] s[i]).0@ == k;
            if i < t.len() {
                assert(t[i].0@ == k);
            }
        }
    }
}

/// Where names are distinct, every pair of the list is in the map.
pub proof fn lemma_map_of_value<V>(s: Seq<(String, V)>, i: int)
    requires
        distinct_names(s),
        0 <= i < s.len(),
    ensures
        map_of(s).contains_key(s[i].0@),
        map_of(s)[s[i].0@] == s[i].1,
    decreases s.len(),
{
    if i < s.len() - 1 {
        let t = s.drop_last();
        assert(distinct_names(t)) by {
            assert forall|a: int, b: int| 0 <= a < b < t.len() implies (#[trigger] t[a]).0@ != (
            #[trigger] t[b]).0@ by {
                assert(s[a].0@ != s[b].0@);
            }
        }
        lemma_map_of_value(t, i);
        assert(s[i].0@ != s[s.len() - 1].0@);
    }
}

/// Where names are distinct, the map has as many names as the list has pairs.
pub proof fn lemma_map_of_len<V>(s: Seq<(String, V)>)
    requires
        distinct_names(s),
    ensures
        map_of(s).dom().finite(),
        map_of(s).len() == s.len(),
    decreases s.len(),
{
    if s.len() > 0 {
        let t = s.drop_last();
        assert(distinct_names(t)) by {
            assert forall|a: int, b: int| 0 <= a < b < t.len() implies (#[trigger] t[a]).0@ != (
            #[trigger] t[b]).0@ by {
                assert(s[a].0@ != s[b].0@);
            }
        }
        lemma_map_of_len(t);
        lemma_map_of_domain(t, s.last().0@);
        if map_of(t).contains_key(s.last().0@) {
            let i = choose|i: int| 0 <= i < t.len() && (#[trigger] t[i]).0@ == s.last().0@;
            assert(s[i].0@ != s[s.len() - 1].0@);
        }
    }
}

/// Replacing the value of one pair replaces the value of its name.
proof fn lemma_map_of_update<V>(s: Seq<(String, V)>, i: int, pair: (String, V))
    requires
        distinct_names(s),
        0 <= i < s.len(),
        pair.0@ == s[i].0@,
    ensures
        distinct_names(s.update(i, pair)),
        map_of(s.update(i, pair)) == map_of(s).insert(pair.0@, pair.1),
{
    let t = s.update(i, pair);
    assert(distinct_names(t)) by {
        assert forall|a: int, b: int| 0 <= a < b < t.len() implies (#[trigger] t[a]).0@ != (
        #[trigger] t[b]).0@ by {
            assert(s[a].0@ != s[b].0@);
        }
    }
    let m = map_of(s).insert(pair.0@, pair.1);
    assert forall|k: Seq<char>| #[trigger]
        map_of(t).dom().contains(k) == m.dom().contains(k) by {
        lemma_map_of_domain(t, k);
        lemma_map_of_domain(s, k);
        if exists|a: int| 0 <= a < t.len() && (#[trigger] t[a]).0@ == k {
            let a = choose|a: int| 0 <= a < t.len() && (#[trigger] t[a]).0@ == k;
            assert(s[a].0@ == k);
        }
        if exists|a: int| 0 <= a < s.len() && (#[trigger] s[a]).0@ == k {
            let a = choose|a: int| 0 <= a < s.len() && (#[trigger] s[a]).0@ == k;
            assert(t[a].0@ == k);
        }
        assert(t[i].0@ == pair.0@);
    }
    assert forall|k: Seq<char>| #[trigger] map_of(t).dom().contains(k) implies map_of(t)[k]
        == m[k] by {
        lemma_map_of_domain(t, k);
        let a = choose|a: int| 0 <= a < t.len() && (#[trigger] t[a]).0@ == k;
        lemma_map_of_value(t, a);
        lemma_map_of_value(s, a);
        if a != i {
            assert(t[a].0@ != t[i].0@);
        }
    }
    assert(map_of(t) =~= m);
}

impl<V> View for NameMap<V> {
    type V = Map<Seq<char>, V>;

    closed spec fn view(&self) -> Map<Seq<char>, V> {
        map_of(self.entries@)
    }
}

impl<V> NameMap<V> {
    #[verifier::type_invariant]
    spec fn inv(self) -> bool {
        distinct_names(self.entries@)
    }

    /// An empty map.
    pub fn new() -> (m: Self)
        ensures
            m@ == Map::<Seq<char>, V>::empty(),
    {
        NameMap { entries: Vec::new() }
    }

    fn position(&self, name: &str) -> (r: Option<usize>)
        ensures
            r matches Some(i) ==> i < self.entries@.len() && self.entries@[i as int].0@ == name@,
            r is None ==> forall|i: int|
                0 <= i < self.entries@.len() ==> (#[trigger] self.entries@[i]).0@ != name@,
    {
        let mut i: usize = 0;
        while i < self.entries.len()
            invariant
                i <= self.entries@.len(),
                forall|j: int| 0 <= j < i ==> (#[trigger] self.entries@[j]).0@ != name@,
            decreases self.entries@.len() - i,
        {
            if same_text(self.entries[i].0.as_str(), name) {
                return Some(i);
            }
            i += 1;
        }
        None
    }

    /// The value of `name`, if it has one.
    pub fn get(&self, name: &str) -> (r: Option<&V>)
        ensures
            r matches Some(v) ==> self@.contains_key(name@) && self@[name@] == *v,
            r is None ==> !self@.contains_key(name@),
    {
        proof {
            use_type_invariant(self);
            lemma_map_of_domain(self.entries@, name@);
        }
        match self.position(name) {
            Some(i) => {
                proof {
                    lemma_map_of_value(self.entries@, i as int);
                }
                Some(&self.entries[i].1)
            },
            None => None,
        }
    }

    /// Number of names.
    pub fn len(&self) -> (n: usize)
        ensures
            n == self@.len(),
            self@.dom().finite(),
    {
        proof {
            use_type_invariant(self);
            lemma_map_of_len(self.entries@);
        }
        self.entries.len()
    }

    /// Give `name` the value `value`, whether or not it had one.
    pub fn insert(&mut self, name: String, value: V)
        ensures
            final(self)@ == old(self)@.insert(name@, value),
    {
        proof {
            use_type_invariant(&*self);
        }
        let found: Option<usize> = self.position(name.as_str());
        let mut entries: Vec<(String, V)> = Vec::new();
        std::mem::swap(&mut self.entries, &mut entries);
        let ghost before = entries@;
        match found {
            Some(i) => {
                let pair: (String, V) = (name, value);
                proof {
                    lemma_map_of_update(before, i as int, pair);
                }
                entries.set(i, pair);
            },
            None => {
                entries.push((name, value));
                proof {
                    assert(entries@.drop_last() =~= before);
                    assert(distinct_names(entries@));
                }
            },
        }
        self.entries = entries;
    }

    /// Give `name` the value `value` unless it has one already.
    pub fn insert_if_absent(&mut self, name: String, value: V)
        ensures
            final(self)@ == if old(self)@.contains_key(name@) {
                old(self)@
            } else {
                old(self)@.insert(name@, value)
            },
    {
        let present: bool = self.get(name.as_str()).is_some();
        if !present {
            self.insert(name, value);
        }
    }

    /// The pairs of the map, in no particular order; every name occurs once.
    pub fn entries(&self) -> (s: &[(String, V)])
        ensures
            distinct_names(s@),
            map_of(s@) == self@,
    {
        proof {
            use_type_invariant(self);
        }
        self.entries.as_slice()
    }
}

impl<V: Copy> Clone for NameMap<V> {
    fn clone(&self) -> (r: Self)
        ensures
            r@ == self@,
    {
        proof {
            use_type_invariant(self);
        }
        let mut entries: Vec<(String, V)> = Vec::new();
        let mut i: usize = 0;
        while i < self.entries.len()
            invariant
                i <= self.entries@.len(),
                entries@ == self.entries@.take(i as int),
            decreases self.entries@.len() - i,
        {
            entries.push((self.entries[i].0.clone(), self.entries[i].1));
            i += 1;
            assert(entries@ =~= self.entries@.take(i as int));
        }
        assert(entries@ =~= self.entries@);
        NameMap { entries }
    }
}

} // verus!
