//! The in-memory key-value store: a mutable mapping from string key to
//! string value, the single long-lived entity of the system.
//!
//! The store is owned by whoever holds it; callers that share it across
//! concurrent tasks must wrap it in a mutual-exclusion primitive, so that
//! every call here happens under exclusive access (which `&mut self` makes
//! explicit). Its abstract state is a `Map<Seq<char>, Seq<char>>`.

use vstd::prelude::*;

verus! {

/// One key-value pair held by the store.
#[derive(Debug)]
struct Entry {
    key: String,
    value: String,
}

/// The mapping denoted by a sequence of entries: each entry binds its key to
/// its value, later entries winning.
spec fn entries_map(s: Seq<Entry>) -> Map<Seq<char>, Seq<char>>
    decreases s.len(),
{
    if s.len() == 0 {
        Map::empty()
    } else {
        entries_map(s.drop_last()).insert(s.last().key@, s.last().value@)
    }
}

/// No two entries bind the same key.
spec fn distinct_keys(s: Seq<Entry>) -> bool {
    forall|i: int, j: int| 0 <= i < j < s.len() ==> s[i].key@ != s[j].key@
}

/// A key is in the mapping exactly when some entry binds it.
proof fn lemma_entries_map_contains(s: Seq<Entry>, k: Seq<char>)
    ensures
        entries_map(s).contains_key(k) <==> exists|i: int|
            0 <= i < s.len() && (#[trigger] s[i]).key@ == k,
    decreases s.len(),
{
    if s.len() > 0 {
        lemma_entries_map_contains(s.drop_last(), k);
        if s.last().key@ == k {
            assert(s[s.len() - 1].key@ == k);
        } else if exists|i: int| 0 <= i < s.len() && (#[trigger] s[i]).key@ == k {
            let i = choose|i: int| 0 <= i < s.len() && (#[trigger] s[i]).key@ == k;
            assert(s.drop_last()[i] == s[i]);
        }
    }
}

/// With distinct keys, the entry that binds a key gives its value.
proof fn lemma_entries_map_value(s: Seq<Entry>, i: int)
    requires
        distinct_keys(s),
        0 <= i < s.len(),
    ensures
        entries_map(s).contains_key(s[i].key@),
        entries_map(s)[s[i].key@] == s[i].value@,
    decreases s.len(),
{
    lemma_entries_map_contains(s, s[i].key@);
    if i < s.len() - 1 {
        assert(s.drop_last()[i] == s[i]);
        lemma_entries_map_value(s.drop_last(), i);
    }
}

/// Overwriting the value of the entry at `i` updates the mapping at that
/// entry's key, in place.
proof fn lemma_entries_map_update(s: Seq<Entry>, i: int, e: Entry)
    requires
        distinct_keys(s),
        0 <= i < s.len(),
        e.key@ == s[i].key@,
    ensures
        entries_map(s.update(i, e)) =~= entries_map(s).insert(e.key@, e.value@),
    decreases s.len(),
{
    let t = s.update(i, e);
    if i == s.len() - 1 {
        assert(t.drop_last() =~= s.drop_last());
        assert(t.last() == e);
    } else {
        assert(t.drop_last() =~= s.drop_last().update(i, e));
        assert(t.last() == s.last());
        lemma_entries_map_update(s.drop_last(), i, e);
        assert(s.drop_last()[i] == s[i]);
        assert(s.last().key@ != e.key@);
    }
}

/// Appending an entry inserts its binding into the mapping.
proof fn lemma_entries_map_push(s: Seq<Entry>, e: Entry)
    ensures
        entries_map(s.push(e)) =~= entries_map(s).insert(e.key@, e.value@),
{
    assert(s.push(e).drop_last() =~= s);
    assert(s.push(e).last() == e);
}

/// With distinct keys, removing the entry at `i` removes that entry's key
/// from the mapping.
proof fn lemma_entries_map_remove(s: Seq<Entry>, i: int)
    requires
        distinct_keys(s),
        0 <= i < s.len(),
    ensures
        entries_map(s.remove(i)) =~= entries_map(s).remove(s[i].key@),
    decreases s.len(),
{
    let k = s[i].key@;
    let t = s.remove(i);
    if i == s.len() - 1 {
        assert(t =~= s.drop_last());
        lemma_entries_map_contains(s.drop_last(), k);
        assert(forall|j: int|
            0 <= j < s.drop_last().len() ==> (#[trigger] s.drop_last()[j]).key@ != k);
    } else {
        assert(t.drop_last() =~= s.drop_last().remove(i));
        assert(t.last() == s.last());
        lemma_entries_map_remove(s.drop_last(), i);
        assert(s.drop_last()[i] == s[i]);
        assert(s.last().key@ != k);
    }
}

/// The key-value store.
#[derive(Debug)]
pub struct Store {
    entries: Vec<Entry>,
}

impl View for Store {
    type V = Map<Seq<char>, Seq<char>>;

    closed spec fn view(&self) -> Map<Seq<char>, Seq<char>> {
        entries_map(self.entries@)
    }
}

impl Store {
    /// The store's internal invariant: no key is bound twice.
    pub closed spec fn wf(&self) -> bool {
        distinct_keys(self.entries@)
    }

    /// Creates an empty store.
    pub fn new() -> (s: Store)
        ensures
            s.wf(),
            s@ == Map::<Seq<char>, Seq<char>>::empty(),
    {
        Store { entries: Vec::new() }
    }

    /// Index of the entry binding `key`, if any.
    fn find(&self, key: &String) -> (r: Option<usize>)
        ensures
            r matches Some(i) ==> i < self.entries@.len() && self.entries@[i as int].key@ == key@,
            r is None ==> forall|j: int|
                0 <= j < self.entries@.len() ==> (#[trigger] self.entries@[j]).key@ != key@,
    {
        let n = self.entries.len();
        let mut i: usize = 0;
        while i < n
            invariant
                n == self.entries@.len(),
                i <= n,
                forall|j: int| 0 <= j < i ==> (#[trigger] self.entries@[j]).key@ != key@,
            decreases n - i,
        {
            if self.entries[i].key == *key {
                return Some(i);
            }
            i += 1;
        }
        None
    }

    /// Binds `key` to `value`, overwriting any existing binding; always
    /// succeeds.
    pub fn insert(&mut self, key: String, value: String)
        requires
            old(self).wf(),
        ensures
            final(self).wf(),
            final(self)@ == old(self)@.insert(key@, value@),
    {
        let ghost s0 = self.entries@;
        let found = self.find(&key);
        let e = Entry { key, value };
        let ghost ge = e;
        match found {
            Some(i) => {
                proof {
                    lemma_entries_map_update(s0, i as int, ge);
                }
                self.entries[i] = e;
                proof {
                    assert(self.entries@ =~= s0.update(i as int, ge));
                    assert(forall|j: int|
                        0 <= j < s0.len() ==> (#[trigger] self.entries@[j]).key@ == s0[j].key@);
                }
            },
            None => {
                proof {
                    lemma_entries_map_push(s0, ge);
                }
                self.entries.push(e);
            },
        }
    }

    /// Returns the value bound to `key`, or `None` when the key is absent;
    /// never mutates.
    pub fn lookup(&self, key: &String) -> (r: Option<String>)
        requires
            self.wf(),
        ensures
            r matches Some(v) ==> self@.contains_key(key@) && v@ == self@[key@],
            r is None ==> !self@.contains_key(key@),
    {
        let found = self.find(key);
        proof {
            lemma_entries_map_contains(self.entries@, key@);
        }
        match found {
            Some(i) => {
                proof {
                    lemma_entries_map_value(self.entries@, i as int);
                }
                Some(self.entries[i].value.clone())
            },
            None => None,
        }
    }

    /// Removes the binding of `key` if present; removing an absent key is a
    /// no-op, not an error.
    pub fn delete(&mut self, key: &String)
        requires
            old(self).wf(),
        ensures
            final(self).wf(),
            final(self)@ == old(self)@.remove(key@),
    {
        let ghost s0 = self.entries@;
        let found = self.find(key);
        match found {
            Some(i) => {
                proof {
                    lemma_entries_map_remove(s0, i as int);
                }
                self.entries.remove(i);
                proof {
                    s0.remove_ensures(i as int);
                    assert(forall|a: int, b: int|
                        0 <= a < b < self.entries@.len() ==> (#[trigger] self.entries@[a]).key@
                            != (#[trigger] self.entries@[b]).key@);
                }
            },
            None => {
                proof {
                    lemma_entries_map_contains(s0, key@);
                    assert(self@ =~= self@.remove(key@));
                }
            },
        }
    }
}

} // verus!
