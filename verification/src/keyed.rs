//! A small string-keyed map kept as a vector of distinct keys, in insertion
//! order.
use vstd::prelude::*;

verus! {

/// The value of the first entry whose key is `k`.
pub open spec fn lookup<V>(s: Seq<(String, V)>, k: Seq<char>) -> Option<V>
    decreases s.len(),
{
    if s.len() == 0 {
        None
    } else if s[0].0@ == k {
        Some(s[0].1)
    } else {
        lookup(s.drop_first(), k)
    }
}

/// No key occurs twice.
pub open spec fn keys_distinct<V>(s: Seq<(String, V)>) -> bool {
    forall|i: int, j: int| 0 <= i < j < s.len() ==> (#[trigger] s[i]).0@ != (#[trigger] s[j]).0@
}

/// The map that a sequence of entries describes.
pub open spec fn entries_map<V>(s: Seq<(String, V)>) -> Map<Seq<char>, V> {
    Map::new(|k: Seq<char>| lookup(s, k) is Some, |k: Seq<char>| lookup(s, k)->0)
}

pub proof fn lemma_lookup_some<V>(s: Seq<(String, V)>, k: Seq<char>)
    ensures
        lookup(s, k) is Some <==> exists|i: int| 0 <= i < s.len() && (#[trigger] s[i]).0@ == k,
    decreases s.len(),
{
    if s.len() > 0 {
        lemma_lookup_some(s.drop_first(), k);
        if lookup(s.drop_first(), k) is Some {
            let i = choose|i: int|
                0 <= i < s.drop_first().len() && (#[trigger] s.drop_first()[i]).0@ == k;
            assert(s[i + 1] == s.drop_first()[i]);
        }
        if s[0].0@ != k {
            assert forall|i: int| 0 <= i < s.len() && (#[trigger] s[i]).0@ == k implies exists|
                j: int,
            | 0 <= j < s.drop_first().len() && (#[trigger] s.drop_first()[j]).0@ == k by {
                assert(i > 0);
                assert(s.drop_first()[i - 1] == s[i]);
            }
        }
    }
}

pub proof fn lemma_lookup_index<V>(s: Seq<(String, V)>, i: int)
    requires
        keys_distinct(s),
        0 <= i < s.len(),
    ensures
        lookup(s, s[i].0@) == Some(s[i].1),
    decreases s.len(),
{
    if i > 0 {
        let t = s.drop_first();
        assert(keys_distinct(t)) by {
            assert forall|a: int, b: int| 0 <= a < b < t.len() implies (#[trigger] t[a]).0@ != (
            #[trigger] t[b]).0@ by {
                assert(t[a] == s[a + 1]);
                assert(t[b] == s[b + 1]);
            }
        }
        assert(t[i - 1] == s[i]);
        assert(s[0].0@ != s[i].0@);
        lemma_lookup_index(t, i - 1);
    }
}

pub proof fn lemma_lookup_push<V>(s: Seq<(String, V)>, e: (String, V), k: Seq<char>)
    ensures
        lookup(s.push(e), k) == if lookup(s, k) is Some {
            lookup(s, k)
        } else if e.0@ == k {
            Some(e.1)
        } else {
            None
        },
    decreases s.len(),
{
    if s.len() > 0 {
        assert(s.push(e).drop_first() =~= s.drop_first().push(e));
        assert(s.push(e)[0] == s[0]);
        lemma_lookup_push(s.drop_first(), e, k);
    } else {
        assert(s.push(e)[0] == e);
        assert(s.push(e).drop_first() =~= Seq::<(String, V)>::empty());
        assert(lookup(Seq::<(String, V)>::empty(), k) is None);
    }
}

pub proof fn lemma_lookup_update<V>(s: Seq<(String, V)>, i: int, e: (String, V), k: Seq<char>)
    requires
        0 <= i < s.len(),
        e.0@ == s[i].0@,
        keys_distinct(s),
    ensures
        lookup(s.update(i, e), k) == if e.0@ == k {
            Some(e.1)
        } else {
            lookup(s, k)
        },
    decreases s.len(),
{
    if i == 0 {
        assert(s.update(i, e).drop_first() =~= s.drop_first());
    } else {
        let t = s.drop_first();
        assert(keys_distinct(t)) by {
            assert forall|a: int, b: int| 0 <= a < b < t.len() implies (#[trigger] t[a]).0@ != (
            #[trigger] t[b]).0@ by {
                assert(t[a] == s[a + 1]);
                assert(t[b] == s[b + 1]);
            }
        }
        assert(s.update(i, e).drop_first() =~= t.update(i - 1, e));
        assert(t[i - 1] == s[i]);
        assert(s[0].0@ != s[i].0@);
        lemma_lookup_update(t, i - 1, e, k);
    }
}

/// A map from strings to values that keeps its keys distinct and in the
/// order they were first inserted.
#[derive(Debug)]
pub struct KeyedList<V> {
    entries: Vec<(String, V)>,
}

impl<V> View for KeyedList<V> {
    type V = Map<Seq<char>, V>;

    closed spec fn view(&self) -> Map<Seq<char>, V> {
        entries_map(self.entries@)
    }
}

impl<V> KeyedList<V> {
    /// The representation invariant: keys are distinct.
    #[verifier::type_invariant]
    pub closed spec fn wf(self) -> bool {
        keys_distinct(self.entries@)
    }

    /// The entries in insertion order.
    pub closed spec fn entry_seq(self) -> Seq<(String, V)> {
        self.entries@
    }

    /// The keys in insertion order.
    pub open spec fn key_seq(self) -> Seq<Seq<char>> {
        self.entry_seq().map_values(|e: (String, V)| e.0@)
    }

    /// The view is the map of the entries, whose keys are distinct.
    pub proof fn lemma_view(self)
        requires
            self.wf(),
        ensures
            self@ == entries_map(self.entry_seq()),
            keys_distinct(self.entry_seq()),
    {
    }

    /// An empty map.
    pub fn new() -> (r: Self)
        ensures
            r@ == Map::<Seq<char>, V>::empty(),
            r.entry_seq().len() == 0,
    {
        let r = KeyedList { entries: Vec::new() };
        assert(r@ =~= Map::<Seq<char>, V>::empty());
        r
    }

    /// Position of `key` among the entries.
    fn find(&self, key: &str) -> (r: Option<usize>)
        ensures
            r matches Some(i) ==> i < self.entries@.len() && self.entries@[i as int].0@ == key@,
            r is None ==> forall|i: int|
                0 <= i < self.entries@.len() ==> (#[trigger] self.entries@[i]).0@ != key@,
    {
        let mut i: usize = 0;
        while i < self.entries.len()
            invariant
                i <= self.entries@.len(),
                forall|j: int| 0 <= j < i ==> (#[trigger] self.entries@[j]).0@ != key@,
            decreases self.entries.len() - i,
        {
            if crate::text::str_eq(self.entries[i].0.as_str(), key) {
                return Some(i);
            }
            i = i + 1;
        }
        None
    }

    /// The value stored under `key`.
    pub fn get(&self, key: &str) -> (r: Option<&V>)
        ensures
            r is Some <==> self@.contains_key(key@),
            r matches Some(v) ==> *v == self@[key@],
    {
        proof {
            use_type_invariant(self);
            lemma_lookup_some(self.entries@, key@);
        }
        match self.find(key) {
            Some(i) => {
                proof {
                    lemma_lookup_index(self.entries@, i as int);
                }
                Some(&self.entries[i].1)
            },
            None => None,
        }
    }

    /// Whether `key` is stored.
    pub fn contains_key(&self, key: &str) -> (b: bool)
        ensures
            b == self@.contains_key(key@),
    {
        self.get(key).is_some()
    }

    /// Stores `value` under `key`, replacing an earlier value in place or
    /// appending a new entry.
    pub fn insert(&mut self, key: String, value: V)
        ensures
            final(self)@ == old(self)@.insert(key@, value),
            old(self)@.contains_key(key@) ==> final(self).key_seq() == old(self).key_seq(),
            !old(self)@.contains_key(key@) ==> final(self).key_seq() == old(self).key_seq().push(
                key@,
            ),
    {
        proof {
            use_type_invariant(&*self);
            lemma_lookup_some(self.entries@, key@);
        }
        let ghost old_entries = self.entries@;
        let ghost k = key@;
        match self.find(key.as_str()) {
            Some(i) => {
                let ghost e = (key, value);
                proof {
                    assert forall|x: Seq<char>| #![auto]
                        lookup(old_entries.update(i as int, e), x) == if k == x {
                            Some(value)
                        } else {
                            lookup(old_entries, x)
                        } by {
                        lemma_lookup_update(old_entries, i as int, e, x);
                    }
                    assert(keys_distinct(old_entries.update(i as int, e))) by {
                        let u = old_entries.update(i as int, e);
                        assert forall|a: int, b: int| 0 <= a < b < u.len() implies (
                        #[trigger] u[a]).0@ != (#[trigger] u[b]).0@ by {
                            if a != i {
                                assert(u[a] == old_entries[a]);
                            }
                            if b != i {
                                assert(u[b] == old_entries[b]);
                            }
                        }
                    }
                }
                let mut entries: Vec<(String, V)> = Vec::new();
                std::mem::swap(&mut entries, &mut self.entries);
                entries.set(i, (key, value));
                assert(entries@ == old_entries.update(i as int, e));
                self.entries = entries;
                assert(self@ =~= old(self)@.insert(k, value));
                assert(self.key_seq() =~= old(self).key_seq());
            },
            None => {
                let ghost e = (key, value);
                proof {
                    assert forall|x: Seq<char>| #![auto]
                        lookup(old_entries.push(e), x) == if lookup(old_entries, x) is Some {
                            lookup(old_entries, x)
                        } else if k == x {
                            Some(value)
                        } else {
                            None
                        } by {
                        lemma_lookup_push(old_entries, e, x);
                    }
                    assert(lookup(old_entries, k) is None);
                    assert(keys_distinct(old_entries.push(e))) by {
                        let u = old_entries.push(e);
                        assert forall|a: int, b: int| 0 <= a < b < u.len() implies (
                        #[trigger] u[a]).0@ != (#[trigger] u[b]).0@ by {
                            assert(u[a] == old_entries[a]);
                            if b < old_entries.len() {
                                assert(u[b] == old_entries[b]);
                            }
                        }
                    }
                }
                let mut entries: Vec<(String, V)> = Vec::new();
                std::mem::swap(&mut entries, &mut self.entries);
                entries.push((key, value));
                assert(entries@ == old_entries.push(e));
                self.entries = entries;
                assert(self@ =~= old(self)@.insert(k, value));
                assert(self.key_seq() =~= old(self).key_seq().push(k));
            },
        }
    }

    /// Number of entries.
    pub fn len(&self) -> (n: usize)
        ensures
            n == self.entry_seq().len(),
    {
        self.entries.len()
    }

    /// Whether there are no entries.
    pub fn is_empty(&self) -> (b: bool)
        ensures
            b == (self.entry_seq().len() == 0),
            b == (self@ == Map::<Seq<char>, V>::empty()),
    {
        proof {
            use_type_invariant(self);
            if self.entries@.len() > 0 {
                lemma_lookup_index(self.entries@, 0);
                assert(self@.contains_key(self.entries@[0].0@));
            } else {
                assert(self@ =~= Map::<Seq<char>, V>::empty());
            }
        }
        self.entries.len() == 0
    }

    /// The `i`-th entry in insertion order.
    pub fn entry(&self, i: usize) -> (r: (&String, &V))
        requires
            i < self.entry_seq().len(),
        ensures
            *r.0 == self.entry_seq()[i as int].0,
            *r.1 == self.entry_seq()[i as int].1,
    {
        (&self.entries[i].0, &self.entries[i].1)
    }
}

} // verus!
