//! The key-value store: a mapping from string keys to string values with
//! the operations `get`, `set` and `delete`. The store is modelled as a
//! `Map<Seq<char>, Seq<char>>`; each operation's contract pins the new map
//! down exactly. One instance is meant to be shared behind a single
//! mutual-exclusion guard; each operation is one atomic step of that guard.

use vstd::prelude::*;

use crate::strops::str_eq;

verus! {

/// One key together with its current value.
pub(crate) struct Entry {
    pub key: String,
    pub value: String,
}

/// The mapping described by a sequence of pairs; a later pair for the same
/// key overrides an earlier one.
pub open spec fn map_of_pairs(ps: Seq<(Seq<char>, Seq<char>)>) -> Map<Seq<char>, Seq<char>>
    decreases ps.len(),
{
    if ps.len() == 0 {
        Map::empty()
    } else {
        map_of_pairs(ps.drop_last()).insert(ps.last().0, ps.last().1)
    }
}

/// No key occurs twice.
pub open spec fn distinct_keys(ps: Seq<(Seq<char>, Seq<char>)>) -> bool {
    forall|i: int, j: int|
        0 <= i < j < ps.len() ==> (#[trigger] ps[i]).0 != (#[trigger] ps[j]).0
}

/// The pairs held by a sequence of entries, in order.
pub(crate) open spec fn pairs_of(es: Seq<Entry>) -> Seq<(Seq<char>, Seq<char>)> {
    es.map_values(|e: Entry| (e.key@, e.value@))
}

/// The shared mapping from keys to values.
pub struct KeyValueStore {
    pub(crate) entries: Vec<Entry>,
}

/// The error channel of `delete`. No operation of this store actually fails;
/// the channel exists so that a caller can surface a failure as an error
/// line if one is ever introduced.
pub struct StoreError {}

impl View for KeyValueStore {
    type V = Map<Seq<char>, Seq<char>>;

    closed spec fn view(&self) -> Map<Seq<char>, Seq<char>> {
        map_of_pairs(pairs_of(self.entries@))
    }
}

/// A pair list contains a key exactly when its map does.
proof fn lemma_contains(ps: Seq<(Seq<char>, Seq<char>)>, k: Seq<char>)
    ensures
        map_of_pairs(ps).contains_key(k) <==> exists|i: int|
            0 <= i < ps.len() && (#[trigger] ps[i]).0 == k,
    decreases ps.len(),
{
    if ps.len() > 0 {
        lemma_contains(ps.drop_last(), k);
        assert(forall|i: int|
            0 <= i < ps.len() - 1 ==> #[trigger] ps.drop_last()[i] == ps[i]);
        if ps.last().0 == k {
            assert(ps[ps.len() - 1].0 == k);
        } else if exists|i: int| 0 <= i < ps.len() && (#[trigger] ps[i]).0 == k {
            let i = choose|i: int| 0 <= i < ps.len() && (#[trigger] ps[i]).0 == k;
            assert(ps.drop_last()[i].0 == k);
        }
    }
}

/// With distinct keys, the map's value for a key is the value of the one
/// entry that holds it.
proof fn lemma_value(ps: Seq<(Seq<char>, Seq<char>)>, k: Seq<char>, i: int)
    requires
        distinct_keys(ps),
        0 <= i < ps.len(),
        ps[i].0 == k,
    ensures
        map_of_pairs(ps).contains_key(k),
        map_of_pairs(ps)[k] == ps[i].1,
    decreases ps.len(),
{
    if i == ps.len() - 1 {
    } else {
        assert(ps.drop_last()[i] == ps[i]);
        assert(distinct_keys(ps.drop_last())) by {
            assert(forall|a: int|
                0 <= a < ps.len() - 1 ==> #[trigger] ps.drop_last()[a] == ps[a]);
        }
        lemma_value(ps.drop_last(), k, i);
        assert(ps.last().0 != k);
    }
}

/// Removing the one entry that holds a key removes the key from the map and
/// keeps the remaining keys distinct.
proof fn lemma_remove(ps: Seq<(Seq<char>, Seq<char>)>, k: Seq<char>, i: int)
    requires
        distinct_keys(ps),
        0 <= i < ps.len(),
        ps[i].0 == k,
    ensures
        map_of_pairs(ps.remove(i)) == map_of_pairs(ps).remove(k),
        distinct_keys(ps.remove(i)),
    decreases ps.len(),
{
    assert(forall|a: int|
        0 <= a < ps.len() - 1 ==> #[trigger] ps.remove(i)[a] == (if a < i {
            ps[a]
        } else {
            ps[a + 1]
        }));
    if i == ps.len() - 1 {
        assert(ps.remove(i) =~= ps.drop_last());
        lemma_contains(ps.drop_last(), k);
        assert(forall|a: int|
            0 <= a < ps.len() - 1 ==> #[trigger] ps.drop_last()[a] == ps[a]);
        assert(!map_of_pairs(ps.drop_last()).contains_key(k));
        assert(map_of_pairs(ps.drop_last()).insert(k, ps.last().1).remove(k)
            =~= map_of_pairs(ps.drop_last()));
    } else {
        assert(forall|a: int|
            0 <= a < ps.len() - 1 ==> #[trigger] ps.drop_last()[a] == ps[a]);
        assert(distinct_keys(ps.drop_last()));
        assert(ps.drop_last()[i] == ps[i]);
        lemma_remove(ps.drop_last(), k, i);
        assert(ps.remove(i).drop_last() =~= ps.drop_last().remove(i));
        assert(ps.remove(i).last() == ps.last());
        assert(ps.last().0 != k);
        assert(map_of_pairs(ps.drop_last()).remove(k).insert(ps.last().0, ps.last().1)
            =~= map_of_pairs(ps.drop_last()).insert(ps.last().0, ps.last().1).remove(k));
    }
}

/// What the store's abstract map and well-formedness mean in terms of its
/// entry list; the definitions stay hidden outside the crate.
pub(crate) proof fn lemma_view_def(s: &KeyValueStore)
    ensures
        s@ == map_of_pairs(pairs_of(s.entries@)),
        s.wf() == distinct_keys(pairs_of(s.entries@)),
{
}

impl KeyValueStore {
    /// Each key occurs in at most one entry.
    pub closed spec fn wf(&self) -> bool {
        distinct_keys(pairs_of(self.entries@))
    }

    /// A fresh store holds nothing: together with `get`'s contract, a `GET`
    /// of a key never set returns "not found".
    pub fn new() -> (s: KeyValueStore)
        ensures
            s@ == Map::<Seq<char>, Seq<char>>::empty(),
            s.wf(),
    {
        let s = KeyValueStore { entries: Vec::new() };
        proof {
            assert(pairs_of(s.entries@) =~= Seq::<(Seq<char>, Seq<char>)>::empty());
        }
        s
    }

    /// The index of the entry holding `key`, if any.
    fn find(&self, key: &str) -> (r: Option<usize>)
        ensures
            match r {
                Some(i) => i < self.entries@.len() && self.entries@[i as int].key@ == key@,
                None => forall|j: int|
                    0 <= j < self.entries@.len() ==> (#[trigger] self.entries@[j]).key@ != key@,
            },
    {
        let n = self.entries.len();
        let mut i: usize = 0;
        while i < n
            invariant
                n == self.entries@.len(),
                i <= n,
                forall|j: int| 0 <= j < i ==> (#[trigger] self.entries@[j]).key@ != key@,
            decreases n - i,
        {
            if str_eq(self.entries[i].key.as_str(), key) {
                return Some(i);
            }
            i = i + 1;
        }
        None
    }

    /// Look a key up; the result is `Some` exactly when the store holds the
    /// key, and then carries the stored value.
    pub fn get(&self, key: &str) -> (r: Option<String>)
        requires
            self.wf(),
        ensures
            match r {
                Some(v) => self@.contains_key(key@) && v@ == self@[key@],
                None => !self@.contains_key(key@),
            },
    {
        match self.find(key) {
            Some(i) => {
                proof {
                    assert(pairs_of(self.entries@)[i as int]
                        == (self.entries@[i as int].key@, self.entries@[i as int].value@));
                    lemma_value(pairs_of(self.entries@), key@, i as int);
                }
                Some(self.entries[i].value.clone())
            },
            None => {
                proof {
                    assert(forall|j: int|
                        0 <= j < self.entries@.len()
                            ==> (#[trigger] pairs_of(self.entries@)[j]).0 != key@);
                    lemma_contains(pairs_of(self.entries@), key@);
                }
                None
            },
        }
    }

    /// Remove a key. Always succeeds; `Ok(true)` exactly when the key was
    /// present, and afterwards the key is gone and nothing else changed.
    pub fn delete(&mut self, key: &str) -> (r: Result<bool, StoreError>)
        requires
            old(self).wf(),
        ensures
            final(self).wf(),
            final(self)@ == old(self)@.remove(key@),
            (match r {
                Ok(removed) => removed == old(self)@.contains_key(key@),
                Err(_) => false,
            }),
    {
        match self.find(key) {
            Some(i) => {
                proof {
                    assert(pairs_of(self.entries@)[i as int]
                        == (self.entries@[i as int].key@, self.entries@[i as int].value@));
                    lemma_value(pairs_of(self.entries@), key@, i as int);
                    lemma_remove(pairs_of(self.entries@), key@, i as int);
                }
                let ghost before = self.entries@;
                self.entries.remove(i);
                proof {
                    assert(pairs_of(self.entries@) =~= pairs_of(before).remove(i as int));
                }
                Ok(true)
            },
            None => {
                proof {
                    assert(forall|j: int|
                        0 <= j < self.entries@.len()
                            ==> (#[trigger] pairs_of(self.entries@)[j]).0 != key@);
                    lemma_contains(pairs_of(self.entries@), key@);
                    assert(self@.remove(key@) =~= self@);
                }
                Ok(false)
            },
        }
    }

    /// Insert or overwrite a key. Always succeeds; afterwards the store maps
    /// `key` to `value` and is otherwise unchanged.
    pub fn set(&mut self, key: String, value: String)
        requires
            old(self).wf(),
        ensures
            final(self).wf(),
            final(self)@ == old(self)@.insert(key@, value@),
    {
        let _ = self.delete(key.as_str());
        proof {
            lemma_contains(pairs_of(self.entries@), key@);
        }
        let ghost mid = self.entries@;
        let ghost mid_map = self@;
        self.entries.push(Entry { key, value });
        proof {
            assert(pairs_of(self.entries@).drop_last() =~= pairs_of(mid));
            assert(pairs_of(self.entries@).last()
                == (self.entries@.last().key@, self.entries@.last().value@));
            assert(forall|j: int|
                0 <= j < mid.len() ==> #[trigger] pairs_of(self.entries@)[j] == pairs_of(mid)[j]);
            assert(self@ =~= old(self)@.insert(self.entries@.last().key@,
                self.entries@.last().value@));
        }
    }
}

/// A key that was never set is absent: a fresh store holds no keys, and
/// neither a `SET` of a different key nor any `DELETE` makes one appear, so
/// `GET k` answers "not found" until the first `SET k`.
pub proof fn lemma_never_set_is_absent(
    m: Map<Seq<char>, Seq<char>>,
    k: Seq<char>,
    k2: Seq<char>,
    v: Seq<char>,
)
    requires
        !m.contains_key(k),
        k2 != k,
    ensures
        !Map::<Seq<char>, Seq<char>>::empty().contains_key(k),
        !m.insert(k2, v).contains_key(k),
        !m.remove(k2).contains_key(k),
        !m.remove(k).contains_key(k),
{
}

/// Read-your-write: once `SET k v` has completed, a `GET k` with no
/// intervening writer returns exactly `v`.
pub proof fn lemma_read_your_write(m: Map<Seq<char>, Seq<char>>, k: Seq<char>, v: Seq<char>)
    ensures
        m.insert(k, v).contains_key(k),
        m.insert(k, v)[k] == v,
{
}

/// Deleting a key removes it, so a later `GET` misses; deleting an absent
/// key leaves the store exactly as it was.
pub proof fn lemma_delete_then_get(m: Map<Seq<char>, Seq<char>>, k: Seq<char>)
    ensures
        !m.remove(k).contains_key(k),
        !m.contains_key(k) ==> m.remove(k) == m,
{
    if !m.contains_key(k) {
        assert(m.remove(k) =~= m);
    }
}

/// Two `SET`s of the same key are serialized by the store's single guard in
/// one of the two orders; either order leaves the key mapped to one of the
/// two values, whole, and the rest of the store as both writers left it.
pub proof fn lemma_concurrent_set_outcomes(
    m: Map<Seq<char>, Seq<char>>,
    k: Seq<char>,
    v1: Seq<char>,
    v2: Seq<char>,
)
    ensures
        m.insert(k, v1).insert(k, v2)[k] == v2,
        m.insert(k, v2).insert(k, v1)[k] == v1,
        m.insert(k, v1).insert(k, v2)[k] == v1 || m.insert(k, v1).insert(k, v2)[k] == v2,
        m.insert(k, v2).insert(k, v1)[k] == v1 || m.insert(k, v2).insert(k, v1)[k] == v2,
        m.insert(k, v1).insert(k, v2).remove(k) == m.remove(k),
        m.insert(k, v2).insert(k, v1).remove(k) == m.remove(k),
{
    assert(m.insert(k, v1).insert(k, v2).remove(k) =~= m.remove(k));
    assert(m.insert(k, v2).insert(k, v1).remove(k) =~= m.remove(k));
}

} // verus!
