//! Insertion-ordered association table keyed by `DbIndex`.
//!
//! The persisted maps of the state model need a reproducible iteration order
//! (the storage encoding walks the entries), so they are kept as a vector of
//! key/value pairs with unique keys rather than a hash map.  The view of a
//! table is the sequence of entries; `to_map` abstracts it to a `Map` once the
//! keys are known to be unique.

use vstd::prelude::*;
use crate::models::DbIndex;

verus! {

/// `k` occurs as a key somewhere in the entry sequence.
pub open spec fn has_key<T>(s: Seq<(DbIndex, T)>, k: DbIndex) -> bool {
    exists|i: int| 0 <= i < s.len() && s[i].0 == k
}

/// Index of the entry holding key `k` (meaningful when `has_key` and the keys
/// are unique).
pub open spec fn key_index<T>(s: Seq<(DbIndex, T)>, k: DbIndex) -> int {
    choose|i: int| 0 <= i < s.len() && s[i].0 == k
}

/// No key occurs twice.
pub open spec fn keys_unique<T>(s: Seq<(DbIndex, T)>) -> bool {
    forall|i: int, j: int| 0 <= i < j < s.len() ==> s[i].0 != s[j].0
}

/// The mapping an entry sequence denotes (later entries win, which is
/// irrelevant once the keys are unique).
pub open spec fn to_map<T>(s: Seq<(DbIndex, T)>) -> Map<DbIndex, T>
    decreases s.len(),
{
    if s.len() == 0 {
        Map::empty()
    } else {
        to_map(s.drop_last()).insert(s.last().0, s.last().1)
    }
}

pub proof fn lemma_to_map_contains<T>(s: Seq<(DbIndex, T)>, k: DbIndex)
    ensures
        to_map(s).contains_key(k) <==> has_key(s, k),
    decreases s.len(),
{
    if s.len() == 0 {
    } else {
        lemma_to_map_contains(s.drop_last(), k);
        if s.last().0 == k {
            assert(s[s.len() - 1].0 == k);
        } else {
            if has_key(s, k) {
                let i = choose|i: int| 0 <= i < s.len() && s[i].0 == k;
                assert(s.drop_last()[i] == s[i]);
            }
            if has_key(s.drop_last(), k) {
                let i = choose|i: int| 0 <= i < s.drop_last().len() && s.drop_last()[i].0 == k;
                assert(s[i].0 == k);
            }
        }
    }
}

pub proof fn lemma_keys_unique_drop_last<T>(s: Seq<(DbIndex, T)>)
    requires
        keys_unique(s),
        s.len() > 0,
    ensures
        keys_unique(s.drop_last()),
{
    assert forall|i: int, j: int| 0 <= i < j < s.drop_last().len() implies s.drop_last()[i].0
        != s.drop_last()[j].0 by {
        assert(s.drop_last()[i] == s[i]);
        assert(s.drop_last()[j] == s[j]);
    }
}

pub proof fn lemma_to_map_index<T>(s: Seq<(DbIndex, T)>, i: int)
    requires
        keys_unique(s),
        0 <= i < s.len(),
    ensures
        to_map(s).contains_key(s[i].0),
        to_map(s)[s[i].0] == s[i].1,
    decreases s.len(),
{
    lemma_to_map_contains(s, s[i].0);
    if i == s.len() - 1 {
    } else {
        lemma_keys_unique_drop_last(s);
        assert(s.drop_last()[i] == s[i]);
        lemma_to_map_index(s.drop_last(), i);
        assert(s.last().0 != s[i].0);
    }
}

pub proof fn lemma_key_index_of<T>(s: Seq<(DbIndex, T)>, i: int)
    requires
        keys_unique(s),
        0 <= i < s.len(),
    ensures
        key_index(s, s[i].0) == i,
{
    let k = s[i].0;
    assert(has_key(s, k));
    let j = key_index(s, k);
    assert(0 <= j < s.len() && s[j].0 == k);
    if j < i {
        assert(false);
    } else if i < j {
        assert(false);
    }
}

pub proof fn lemma_to_map_push<T>(s: Seq<(DbIndex, T)>, p: (DbIndex, T))
    ensures
        to_map(s.push(p)) == to_map(s).insert(p.0, p.1),
{
    assert(s.push(p).drop_last() =~= s);
    assert(s.push(p).last() == p);
}

pub proof fn lemma_to_map_remove<T>(s: Seq<(DbIndex, T)>, i: int)
    requires
        keys_unique(s),
        0 <= i < s.len(),
    ensures
        to_map(s.remove(i)) == to_map(s).remove(s[i].0),
    decreases s.len(),
{
    let k = s[i].0;
    lemma_keys_unique_drop_last(s);
    if i == s.len() - 1 {
        assert(s.remove(i) =~= s.drop_last());
        lemma_to_map_contains(s.drop_last(), k);
        if has_key(s.drop_last(), k) {
            let j = choose|j: int| 0 <= j < s.drop_last().len() && s.drop_last()[j].0 == k;
            assert(s[j].0 == k);
            assert(false);
        }
        assert(to_map(s.drop_last()).remove(k) =~= to_map(s.drop_last()));
        assert(to_map(s).remove(k) =~= to_map(s.drop_last()).insert(k, s.last().1).remove(k));
    } else {
        assert(s.remove(i).drop_last() =~= s.drop_last().remove(i));
        assert(s.remove(i).last() == s.last());
        assert(s.drop_last()[i] == s[i]);
        lemma_to_map_remove(s.drop_last(), i);
        assert(s.last().0 != k);
        assert(to_map(s.remove(i)) == to_map(s.drop_last().remove(i)).insert(
            s.last().0,
            s.last().1,
        ));
        assert(to_map(s.drop_last()).remove(k).insert(s.last().0, s.last().1) =~= to_map(
            s.drop_last(),
        ).insert(s.last().0, s.last().1).remove(k));
    }
}

pub proof fn lemma_to_map_update<T>(s: Seq<(DbIndex, T)>, i: int, v: T)
    requires
        keys_unique(s),
        0 <= i < s.len(),
    ensures
        to_map(s.update(i, (s[i].0, v))) == to_map(s).insert(s[i].0, v),
    decreases s.len(),
{
    let k = s[i].0;
    lemma_keys_unique_drop_last(s);
    if i == s.len() - 1 {
        assert(s.update(i, (k, v)).drop_last() =~= s.drop_last());
        assert(s.update(i, (k, v)).last() == (k, v));
        assert(to_map(s.drop_last()).insert(k, v) =~= to_map(s.drop_last()).insert(
            k,
            s.last().1,
        ).insert(k, v));
    } else {
        assert(s.update(i, (k, v)).drop_last() =~= s.drop_last().update(i, (k, v)));
        assert(s.update(i, (k, v)).last() == s.last());
        assert(s.drop_last()[i] == s[i]);
        lemma_to_map_update(s.drop_last(), i, v);
        assert(s.last().0 != k);
        assert(to_map(s.drop_last()).insert(k, v).insert(s.last().0, s.last().1) =~= to_map(
            s.drop_last(),
        ).insert(s.last().0, s.last().1).insert(k, v));
    }
}

pub proof fn lemma_has_key_remove<T>(s: Seq<(DbIndex, T)>, i: int, k: DbIndex)
    requires
        keys_unique(s),
        0 <= i < s.len(),
    ensures
        has_key(s.remove(i), k) <==> (has_key(s, k) && k != s[i].0),
{
    if has_key(s.remove(i), k) {
        let j = choose|j: int| 0 <= j < s.remove(i).len() && s.remove(i)[j].0 == k;
        let j0: int = if j < i {
            j
        } else {
            j + 1
        };
        assert(s[j0].0 == k);
    }
    if has_key(s, k) && k != s[i].0 {
        let j = choose|j: int| 0 <= j < s.len() && s[j].0 == k;
        let j1: int = if j < i {
            j
        } else {
            j - 1
        };
        assert(s.remove(i)[j1].0 == k);
    }
}

pub proof fn lemma_keys_unique_remove<T>(s: Seq<(DbIndex, T)>, i: int)
    requires
        keys_unique(s),
        0 <= i < s.len(),
    ensures
        keys_unique(s.remove(i)),
{
    assert forall|p: int, q: int| 0 <= p < q < s.remove(i).len() implies s.remove(i)[p].0
        != s.remove(i)[q].0 by {
        let p0: int = if p < i {
            p
        } else {
            p + 1
        };
        let q0: int = if q < i {
            q
        } else {
            q + 1
        };
        assert(s.remove(i)[p] == s[p0]);
        assert(s.remove(i)[q] == s[q0]);
    }
}

/// Entry list with unique `DbIndex` keys, in insertion order.
#[derive(Clone, Debug, PartialEq)]
pub struct Table<V> {
    pub entries: Vec<(DbIndex, V)>,
}

/// The entry sequence a raw entry vector denotes.
pub open spec fn entries_view<V: View>(entries: Seq<(DbIndex, V)>) -> Seq<(DbIndex, V::V)> {
    Seq::new(entries.len(), |i: int| (entries[i].0, entries[i].1@))
}

impl<V: View> View for Table<V> {
    type V = Seq<(DbIndex, V::V)>;

    open spec fn view(&self) -> Seq<(DbIndex, V::V)> {
        entries_view(self.entries@)
    }
}

impl<V: View> Table<V> {
    pub fn new() -> (r: Table<V>)
        ensures
            r@ == Seq::<(DbIndex, V::V)>::empty(),
    {
        let r = Table { entries: Vec::new() };
        proof {
            assert(r@ =~= Seq::<(DbIndex, V::V)>::empty());
        }
        r
    }

    /// Wraps raw entries without any key check; the caller decides afterwards
    /// whether the keys are unique (the decoder validates the whole state).
    pub fn from_entries(entries: Vec<(DbIndex, V)>) -> (r: Table<V>)
        ensures
            r@ == entries_view(entries@),
    {
        Table { entries }
    }

    pub fn len(&self) -> (n: usize)
        ensures
            n == self@.len(),
    {
        self.entries.len()
    }

    pub fn contains_key(&self, key: &DbIndex) -> (b: bool)
        ensures
            b == has_key(self@, *key),
    {
        let n = self.entries.len();
        let mut i: usize = 0;
        while i < n
            invariant
                n == self@.len(),
                0 <= i <= n,
                forall|j: int| 0 <= j < i ==> self@[j].0 != *key,
            decreases n - i,
        {
            if self.entries[i].0 == *key {
                assert(self@[i as int].0 == *key);
                return true;
            }
            i += 1;
        }
        false
    }

    pub fn get(&self, key: &DbIndex) -> (r: Option<&V>)
        requires
            keys_unique(self@),
        ensures
            match r {
                Some(v) => has_key(self@, *key) && to_map(self@).contains_key(*key) && v@
                    == to_map(self@)[*key],
                None => !has_key(self@, *key),
            },
    {
        let n = self.entries.len();
        let mut i: usize = 0;
        while i < n
            invariant
                n == self@.len(),
                0 <= i <= n,
                keys_unique(self@),
                forall|j: int| 0 <= j < i ==> self@[j].0 != *key,
            decreases n - i,
        {
            if self.entries[i].0 == *key {
                proof {
                    assert(self@[i as int].0 == *key);
                    lemma_to_map_index(self@, i as int);
                }
                return Some(&self.entries[i].1);
            }
            i += 1;
        }
        None
    }

    pub fn insert(&mut self, key: DbIndex, value: V)
        requires
            keys_unique(old(self)@),
            !has_key(old(self)@, key),
        ensures
            final(self)@ == old(self)@.push((key, value@)),
            keys_unique(final(self)@),
            to_map(final(self)@) == to_map(old(self)@).insert(key, value@),
    {
        proof {
            lemma_to_map_push(old(self)@, (key, value@));
        }
        self.entries.push((key, value));
        proof {
            assert(self@ =~= old(self)@.push((key, value@)));
            assert forall|i: int, j: int| 0 <= i < j < self@.len() implies self@[i].0
                != self@[j].0 by {
                if j == self@.len() - 1 {
                    assert(self@[i] == old(self)@[i]);
                    assert(!has_key(old(self)@, key));
                }
            }
        }
    }

    pub fn remove(&mut self, key: &DbIndex) -> (r: Option<V>)
        requires
            keys_unique(old(self)@),
        ensures
            match r {
                Some(v) => {
                    &&& has_key(old(self)@, *key)
                    &&& v@ == to_map(old(self)@)[*key]
                    &&& final(self)@ == old(self)@.remove(key_index(old(self)@, *key))
                    &&& keys_unique(final(self)@)
                    &&& to_map(final(self)@) == to_map(old(self)@).remove(*key)
                },
                None => !has_key(old(self)@, *key) && final(self)@ == old(self)@,
            },
    {
        let n = self.entries.len();
        let mut i: usize = 0;
        while i < n
            invariant
                n == self@.len(),
                0 <= i <= n,
                keys_unique(self@),
                self@ == old(self)@,
                forall|j: int| 0 <= j < i ==> self@[j].0 != *key,
            decreases n - i,
        {
            if self.entries[i].0 == *key {
                proof {
                    assert(old(self)@[i as int].0 == *key);
                    lemma_key_index_of(old(self)@, i as int);
                    lemma_to_map_index(old(self)@, i as int);
                    lemma_to_map_remove(old(self)@, i as int);
                }
                let entry = self.entries.remove(i);
                proof {
                    assert(self@ =~= old(self)@.remove(i as int));
                    assert forall|p: int, q: int| 0 <= p < q < self@.len() implies self@[p].0
                        != self@[q].0 by {
                        let s = old(self)@;
                        let p0: int = if p < i as int { p } else { p + 1 };
                        let q0: int = if q < i as int { q } else { q + 1 };
                        assert(self@[p] == s[p0]);
                        assert(self@[q] == s[q0]);
                    }
                }
                return Some(entry.1);
            }
            i += 1;
        }
        None
    }

    pub fn set_value(&mut self, key: &DbIndex, value: V)
        requires
            keys_unique(old(self)@),
            has_key(old(self)@, *key),
        ensures
            final(self)@ == old(self)@.update(key_index(old(self)@, *key), (*key, value@)),
            keys_unique(final(self)@),
            to_map(final(self)@) == to_map(old(self)@).insert(*key, value@),
    {
        let n = self.entries.len();
        let mut i: usize = 0;
        while i < n
            invariant
                n == self@.len(),
                0 <= i <= n,
                keys_unique(self@),
                self@ == old(self)@,
                has_key(self@, *key),
                forall|j: int| 0 <= j < i ==> self@[j].0 != *key,
            decreases n - i,
        {
            if self.entries[i].0 == *key {
                proof {
                    assert(old(self)@[i as int].0 == *key);
                    lemma_key_index_of(old(self)@, i as int);
                    lemma_to_map_update(old(self)@, i as int, value@);
                }
                self.entries[i] = (*key, value);
                proof {
                    assert(self@ =~= old(self)@.update(i as int, (*key, value@)));
                    assert forall|p: int, q: int| 0 <= p < q < self@.len() implies self@[p].0
                        != self@[q].0 by {
                        assert(old(self)@[p].0 != old(self)@[q].0);
                    }
                }
                return ;
            }
            i += 1;
        }
        proof {
            let j = key_index(self@, *key);
            assert(0 <= j < self@.len() && self@[j].0 == *key);
            assert(false);
        }
    }

    pub fn check_keys_unique(&self) -> (b: bool)
        ensures
            b == keys_unique(self@),
    {
        let n = self.entries.len();
        let mut i: usize = 0;
        while i < n
            invariant
                n == self@.len(),
                0 <= i <= n,
                forall|p: int, q: int| 0 <= p < q < i ==> self@[p].0 != self@[q].0,
            decreases n - i,
        {
            let mut j: usize = 0;
            while j < i
                invariant
                    n == self@.len(),
                    0 <= j <= i < n,
                    forall|p: int| 0 <= p < j ==> self@[p].0 != self@[i as int].0,
                decreases i - j,
            {
                if self.entries[j].0 == self.entries[i].0 {
                    assert(self@[j as int].0 == self@[i as int].0);
                    return false;
                }
                j += 1;
            }
            i += 1;
        }
        true
    }
}

} // verus!
