//! A map that records every change in an undo history, so that it can be
//! rolled back to any earlier point.

use vstd::prelude::*;

verus! {

/// A key of a [`HistoryMap`]. Two keys are the same key exactly when their
/// views are equal.
pub trait Key: View + Sized {
    /// Compares two keys by their views.
    fn key_eq(&self, other: &Self) -> (same: bool)
        ensures
            same == (self@ == other@),
    ;

    /// Makes a copy of the key with the same view.
    fn key_clone(&self) -> (copy: Self)
        ensures
            copy@ == self@,
    ;
}

impl Key for u64 {
    fn key_eq(&self, other: &Self) -> (same: bool) {
        *self == *other
    }

    fn key_clone(&self) -> (copy: Self) {
        *self
    }
}

impl Key for i32 {
    fn key_eq(&self, other: &Self) -> (same: bool) {
        *self == *other
    }

    fn key_clone(&self) -> (copy: Self) {
        *self
    }
}

/// One key with its current value.
pub struct Entry<K, V> {
    pub key: K,
    pub value: V,
}

/// One undo record: a key and the value it had before the change, or `None`
/// where the key was absent.
pub struct Undo<K, V> {
    pub key: K,
    pub previous: Option<V>,
}

/// A map with an undo history. Every change is recorded; `rollback` reverses
/// the records above a given history length, newest first.
///
/// The entries are kept in a vector, each key once, in the order in which
/// the keys first came. Keys are compared by their views, so that a key may
/// be an address as well as an integer, and the entries can be gone through
/// by their places, as the state tree does when it writes its cache.
pub struct HistoryMap<K, V> {
    entries: Vec<Entry<K, V>>,
    history: Vec<Undo<K, V>>,
}

/// The position of key `k` among `entries`, if it occurs.
pub open spec fn position<K: View, V>(entries: Seq<Entry<K, V>>, k: K::V) -> int {
    choose|i: int| 0 <= i < entries.len() && entries[i].key@ == k
}

/// Whether key `k` occurs among `entries`.
pub open spec fn occurs<K: View, V>(entries: Seq<Entry<K, V>>, k: K::V) -> bool {
    exists|i: int| 0 <= i < entries.len() && #[trigger] entries[i].key@ == k
}

/// No key occurs twice among `entries`.
pub open spec fn distinct_keys<K: View, V>(entries: Seq<Entry<K, V>>) -> bool {
    forall|i: int, j: int|
        0 <= i < entries.len() && 0 <= j < entries.len() && #[trigger] entries[i].key@
            == #[trigger] entries[j].key@ ==> i == j
}

/// The mapping that a list of entries with distinct keys stands for.
pub open spec fn entries_map<K: View, V>(entries: Seq<Entry<K, V>>) -> Map<K::V, V> {
    Map::new(|k: K::V| occurs(entries, k), |k: K::V| entries[position(entries, k)].value)
}

/// The undo records as plain pairs.
pub open spec fn history_view<K: View, V>(history: Seq<Undo<K, V>>) -> Seq<(K::V, Option<V>)> {
    Seq::new(history.len(), |i: int| (history[i].key@, history[i].previous))
}

/// The mapping after one undo record has been reversed.
pub open spec fn undo_one<KV, V>(m: Map<KV, V>, record: (KV, Option<V>)) -> Map<KV, V> {
    match record.1 {
        Some(v) => m.insert(record.0, v),
        None => m.remove(record.0),
    }
}

/// The mapping after every record of `h` above `height` has been reversed,
/// newest first.
pub open spec fn rolled_back<KV, V>(m: Map<KV, V>, h: Seq<(KV, Option<V>)>, height: nat) -> Map<
    KV,
    V,
>
    decreases h.len(),
{
    if h.len() <= height {
        m
    } else {
        rolled_back(undo_one(m, h.last()), h.drop_last(), height)
    }
}

/// The undo record that `insert(k, _)` appends to a map whose contents are `m`.
pub open spec fn record_of<KV, V>(m: Map<KV, V>, k: KV) -> (KV, Option<V>) {
    (
        k,
        if m.contains_key(k) {
            Some(m[k])
        } else {
            None
        },
    )
}

/// Whether a map with contents `later` and history `later_history` has come
/// from one with contents `earlier` and history `earlier_history` by
/// recorded changes alone: the earlier history is how the later one begins,
/// and reversing what was recorded since gives the earlier contents.
pub open spec fn extends<KV, V>(
    later: Map<KV, V>,
    later_history: Seq<(KV, Option<V>)>,
    earlier: Map<KV, V>,
    earlier_history: Seq<(KV, Option<V>)>,
) -> bool {
    &&& earlier_history.len() <= later_history.len()
    &&& later_history.take(earlier_history.len() as int) == earlier_history
    &&& rolled_back(later, later_history, earlier_history.len()) == earlier
}

/// A map has come from itself.
pub proof fn lemma_extends_self<KV, V>(m: Map<KV, V>, h: Seq<(KV, Option<V>)>)
    ensures
        extends(m, h, m, h),
{
    assert(h.take(h.len() as int) =~= h);
}

/// Rolling back in two steps is rolling back.
pub proof fn lemma_rolled_back_twice<KV, V>(
    m: Map<KV, V>,
    h: Seq<(KV, Option<V>)>,
    mid: nat,
    low: nat,
)
    requires
        low <= mid <= h.len(),
    ensures
        rolled_back(m, h, low) == rolled_back(rolled_back(m, h, mid), h.take(mid as int), low),
    decreases h.len(),
{
    if h.len() <= mid {
        assert(h.take(mid as int) =~= h);
    } else {
        lemma_rolled_back_twice(undo_one(m, h.last()), h.drop_last(), mid, low);
        assert(h.drop_last().take(mid as int) =~= h.take(mid as int));
    }
}

/// A map that has come from one that has come from a third has come from
/// the third.
pub proof fn lemma_extends_trans<KV, V>(
    c: Map<KV, V>,
    ch: Seq<(KV, Option<V>)>,
    b: Map<KV, V>,
    bh: Seq<(KV, Option<V>)>,
    a: Map<KV, V>,
    ah: Seq<(KV, Option<V>)>,
)
    requires
        extends(c, ch, b, bh),
        extends(b, bh, a, ah),
    ensures
        extends(c, ch, a, ah),
{
    assert(ch.take(ah.len() as int) =~= bh.take(ah.len() as int));
    lemma_rolled_back_twice(c, ch, bh.len(), ah.len());
}

/// An insertion is a recorded change.
pub proof fn lemma_extends_insert<KV, V>(m: Map<KV, V>, h: Seq<(KV, Option<V>)>, k: KV, v: V)
    ensures
        extends(m.insert(k, v), h.push(record_of(m, k)), m, h),
{
    reveal_with_fuel(rolled_back, 2);
    let later = m.insert(k, v);
    let later_history = h.push(record_of(m, k));
    assert(later_history.take(h.len() as int) =~= h);
    assert(later_history.drop_last() =~= h);
    assert(undo_one(later, later_history.last()) =~= m);
}

/// What holds of every pair of a map and of every value recorded above a
/// height holds of every pair of the map rolled back to that height.
pub proof fn lemma_rolled_back_holds<KV, V>(
    m: Map<KV, V>,
    h: Seq<(KV, Option<V>)>,
    height: nat,
    holds: spec_fn(KV, V) -> bool,
)
    requires
        forall|k: KV| m.contains_key(k) ==> #[trigger] holds(k, m[k]),
        forall|i: int|
            height <= i < h.len() ==> ((#[trigger] h[i]).1 matches Some(v) ==> holds(h[i].0, v)),
    ensures
        forall|k: KV|
            rolled_back(m, h, height).contains_key(k) ==> #[trigger] holds(
                k,
                rolled_back(m, h, height)[k],
            ),
    decreases h.len(),
{
    if h.len() > height {
        let record = h.last();
        let undone = undo_one(m, record);
        assert forall|k: KV| undone.contains_key(k) implies #[trigger] holds(k, undone[k]) by {
            if k == record.0 {
                assert(h[h.len() - 1] == record);
            } else {
                assert(m.contains_key(k) && undone[k] == m[k]);
            }
        }
        assert forall|i: int| height <= i < h.drop_last().len() implies ((
        #[trigger] h.drop_last()[i]).1 matches Some(v) ==> holds(h.drop_last()[i].0, v)) by {
            assert(h.drop_last()[i] == h[i]);
        }
        lemma_rolled_back_holds(undone, h.drop_last(), height, holds);
        assert(rolled_back(m, h, height) == rolled_back(undone, h.drop_last(), height));
        assert forall|k: KV| rolled_back(m, h, height).contains_key(k) implies #[trigger] holds(
            k,
            rolled_back(m, h, height)[k],
        ) by {
            assert(holds(k, rolled_back(undone, h.drop_last(), height)[k]));
        }
    } else {
        assert(rolled_back(m, h, height) == m);
    }
}

proof fn lemma_entries_map_at<K: View, V>(entries: Seq<Entry<K, V>>, i: int)
    requires
        distinct_keys(entries),
        0 <= i < entries.len(),
    ensures
        entries_map(entries).contains_key(entries[i].key@),
        entries_map(entries)[entries[i].key@] == entries[i].value,
        position(entries, entries[i].key@) == i,
{
    let k = entries[i].key@;
    assert(occurs(entries, k));
    let p = position(entries, k);
    assert(0 <= p < entries.len() && entries[p].key@ == k);
}

proof fn lemma_entries_map_absent<K: View, V>(entries: Seq<Entry<K, V>>, k: K::V)
    requires
        forall|i: int| 0 <= i < entries.len() ==> #[trigger] entries[i].key@ != k,
    ensures
        !entries_map(entries).contains_key(k),
{
}

proof fn lemma_entries_map_push<K: View, V>(entries: Seq<Entry<K, V>>, e: Entry<K, V>)
    requires
        distinct_keys(entries),
        !entries_map(entries).contains_key(e.key@),
    ensures
        distinct_keys(entries.push(e)),
        entries_map(entries.push(e)) == entries_map(entries).insert(e.key@, e.value),
{
    let after = entries.push(e);
    assert forall|i: int, j: int|
        0 <= i < after.len() && 0 <= j < after.len() && #[trigger] after[i].key@
            == #[trigger] after[j].key@ implies i == j by {
        if i < entries.len() {
            assert(occurs(entries, entries[i].key@));
        }
        if j < entries.len() {
            assert(occurs(entries, entries[j].key@));
        }
    }
    assert forall|k: K::V| #[trigger]
        entries_map(after).contains_key(k) == entries_map(entries).insert(
            e.key@,
            e.value,
        ).contains_key(k) by {
        if occurs(after, k) {
            let i = choose|i: int| 0 <= i < after.len() && #[trigger] after[i].key@ == k;
            if i < entries.len() {
                assert(entries[i].key@ == k);
            }
        }
        if occurs(entries, k) {
            let i = choose|i: int| 0 <= i < entries.len() && #[trigger] entries[i].key@ == k;
            assert(after[i].key@ == k);
        }
        if k == e.key@ {
            assert(after[entries.len() as int].key@ == k);
        }
    }
    assert forall|k: K::V| #[trigger] entries_map(after).contains_key(k) implies entries_map(
        after,
    )[k] == entries_map(entries).insert(e.key@, e.value)[k] by {
        let p = position(after, k);
        assert(0 <= p < after.len() && after[p].key@ == k);
        lemma_entries_map_at(after, p);
        if p < entries.len() {
            lemma_entries_map_at(entries, p);
        }
    }
    assert(entries_map(after) =~= entries_map(entries).insert(e.key@, e.value));
}

proof fn lemma_entries_map_update<K: View, V>(
    entries: Seq<Entry<K, V>>,
    i: int,
    e: Entry<K, V>,
)
    requires
        distinct_keys(entries),
        0 <= i < entries.len(),
        e.key@ == entries[i].key@,
    ensures
        distinct_keys(entries.update(i, e)),
        entries_map(entries.update(i, e)) == entries_map(entries).insert(e.key@, e.value),
{
    let after = entries.update(i, e);
    assert forall|a: int, b: int|
        0 <= a < after.len() && 0 <= b < after.len() && #[trigger] after[a].key@
            == #[trigger] after[b].key@ implies a == b by {
        assert(entries[a].key@ == after[a].key@);
        assert(entries[b].key@ == after[b].key@);
    }
    assert forall|k: K::V| #[trigger]
        entries_map(after).contains_key(k) == entries_map(entries).insert(
            e.key@,
            e.value,
        ).contains_key(k) by {
        if occurs(after, k) {
            let a = choose|a: int| 0 <= a < after.len() && #[trigger] after[a].key@ == k;
            assert(entries[a].key@ == k);
        }
        if occurs(entries, k) {
            let a = choose|a: int| 0 <= a < entries.len() && #[trigger] entries[a].key@ == k;
            assert(after[a].key@ == k);
        }
        if k == e.key@ {
            assert(after[i].key@ == k);
        }
    }
    assert forall|k: K::V| #[trigger] entries_map(after).contains_key(k) implies entries_map(
        after,
    )[k] == entries_map(entries).insert(e.key@, e.value)[k] by {
        let p = position(after, k);
        assert(0 <= p < after.len() && after[p].key@ == k);
        lemma_entries_map_at(after, p);
        assert(entries[p].key@ == k);
        lemma_entries_map_at(entries, p);
    }
    assert(entries_map(after) =~= entries_map(entries).insert(e.key@, e.value));
}

proof fn lemma_entries_map_remove<K: View, V>(entries: Seq<Entry<K, V>>, i: int)
    requires
        distinct_keys(entries),
        0 <= i < entries.len(),
    ensures
        distinct_keys(entries.remove(i)),
        entries_map(entries.remove(i)) == entries_map(entries).remove(entries[i].key@),
{
    let after = entries.remove(i);
    let gone = entries[i].key@;
    assert forall|a: int| 0 <= a < after.len() implies #[trigger] after[a] == entries[if a < i {
        a
    } else {
        a + 1
    }] by {}
    assert forall|a: int, b: int|
        0 <= a < after.len() && 0 <= b < after.len() && #[trigger] after[a].key@
            == #[trigger] after[b].key@ implies a == b by {
        let a0 = if a < i { a } else { a + 1 };
        let b0 = if b < i { b } else { b + 1 };
        assert(after[a] == entries[a0]);
        assert(after[b] == entries[b0]);
        assert(entries[a0].key@ == entries[b0].key@);
    }
    assert forall|k: K::V| #[trigger]
        entries_map(after).contains_key(k) == entries_map(entries).remove(gone).contains_key(
            k,
        ) by {
        if occurs(after, k) {
            let a = choose|a: int| 0 <= a < after.len() && #[trigger] after[a].key@ == k;
            let a0 = if a < i { a } else { a + 1 };
            assert(after[a] == entries[a0]);
            assert(entries[a0].key@ == k);
            if k == gone {
                assert(entries[a0].key@ == entries[i].key@);
            }
        }
        if occurs(entries, k) && k != gone {
            let a = choose|a: int| 0 <= a < entries.len() && #[trigger] entries[a].key@ == k;
            let a1 = if a < i { a } else { a - 1 };
            assert(after[a1] == entries[a]);
            assert(after[a1].key@ == k);
        }
    }
    assert forall|k: K::V| #[trigger] entries_map(after).contains_key(k) implies entries_map(
        after,
    )[k] == entries_map(entries).remove(gone)[k] by {
        let p = position(after, k);
        assert(0 <= p < after.len() && after[p].key@ == k);
        lemma_entries_map_at(after, p);
        let p0 = if p < i { p } else { p + 1 };
        assert(after[p] == entries[p0]);
        lemma_entries_map_at(entries, p0);
    }
    assert(entries_map(after) =~= entries_map(entries).remove(gone));
}

impl<K: Key, V> Default for HistoryMap<K, V> {
    fn default() -> (m: Self)
        ensures
            m.inv(),
            m.contents() == Map::<K::V, V>::empty(),
            m.history() == Seq::<(K::V, Option<V>)>::empty(),
    {
        HistoryMap::new()
    }
}

impl<K: Key, V> HistoryMap<K, V> {
    /// The invariant of the map: no key is held twice.
    pub closed spec fn inv(&self) -> bool {
        distinct_keys(self.entries@)
    }

    /// The current contents.
    pub closed spec fn contents(&self) -> Map<K::V, V> {
        entries_map(self.entries@)
    }

    /// The undo records, oldest first.
    pub closed spec fn history(&self) -> Seq<(K::V, Option<V>)> {
        history_view(self.history@)
    }

    /// The keys in the order in which the map holds them.
    pub closed spec fn key_order(&self) -> Seq<K::V> {
        Seq::new(self.entries@.len(), |i: int| self.entries@[i].key@)
    }

    /// An empty map with an empty history.
    pub fn new() -> (m: Self)
        ensures
            m.inv(),
            m.contents() == Map::<K::V, V>::empty(),
            m.history() == Seq::<(K::V, Option<V>)>::empty(),
    {
        let m = HistoryMap { entries: Vec::new(), history: Vec::new() };
        assert(m.contents() =~= Map::<K::V, V>::empty());
        assert(m.history() =~= Seq::<(K::V, Option<V>)>::empty());
        m
    }

    /// The index of `k` among the entries, if it is held.
    fn find(&self, k: &K) -> (r: Option<usize>)
        requires
            self.inv(),
        ensures
            match r {
                Some(i) => i < self.entries@.len() && self.entries@[i as int].key@ == k@
                    && self.contents().contains_key(k@) && self.contents()[k@]
                    == self.entries@[i as int].value,
                None => !self.contents().contains_key(k@),
            },
    {
        let mut i: usize = 0;
        while i < self.entries.len()
            invariant
                self.inv(),
                i <= self.entries@.len(),
                forall|j: int| 0 <= j < i ==> #[trigger] self.entries@[j].key@ != k@,
            decreases self.entries@.len() - i,
        {
            if self.entries[i].key.key_eq(k) {
                proof {
                    lemma_entries_map_at(self.entries@, i as int);
                }
                return Some(i);
            }
            i += 1;
        }
        proof {
            lemma_entries_map_absent(self.entries@, k@);
        }
        None
    }

    /// Stores `v` under `k` without touching the history; returns the value
    /// that `k` had before.
    fn put(&mut self, k: K, v: V) -> (previous: Option<V>)
        requires
            old(self).inv(),
        ensures
            final(self).inv(),
            final(self).contents() == old(self).contents().insert(k@, v),
            final(self).history() == old(self).history(),
            previous == record_of(old(self).contents(), k@).1,
    {
        match self.find(&k) {
            Some(i) => {
                proof {
                    lemma_entries_map_update(
                        self.entries@,
                        i as int,
                        (Entry { key: k, value: v }),
                    );
                }
                let old_entry = self.entries.remove(i);
                self.entries.insert(i, Entry { key: k, value: v });
                assert(self.entries@ =~= old(self).entries@.update(
                    i as int,
                    (Entry { key: k, value: v }),
                ));
                Some(old_entry.value)
            },
            None => {
                proof {
                    lemma_entries_map_push(self.entries@, (Entry { key: k, value: v }));
                }
                self.entries.push(Entry { key: k, value: v });
                None
            },
        }
    }

    /// Removes `k` without touching the history.
    fn take(&mut self, k: &K)
        requires
            old(self).inv(),
        ensures
            final(self).inv(),
            final(self).contents() == old(self).contents().remove(k@),
            final(self).history() == old(self).history(),
    {
        match self.find(k) {
            Some(i) => {
                proof {
                    lemma_entries_map_remove(self.entries@, i as int);
                }
                let _ = self.entries.remove(i);
            },
            None => {
                assert(self.contents().remove(k@) =~= self.contents());
            },
        }
    }

    /// Stores `v` under `k` and appends to the history the value that `k` had
    /// before (`None` where it was absent).
    pub fn insert(&mut self, k: K, v: V)
        requires
            old(self).inv(),
        ensures
            final(self).inv(),
            final(self).contents() == old(self).contents().insert(k@, v),
            final(self).history() == old(self).history().push(
                record_of(old(self).contents(), k@),
            ),
    {
        let key = k.key_clone();
        let previous = self.put(k, v);
        self.history.push(Undo { key, previous });
        assert(self.history() =~= old(self).history().push(record_of(old(self).contents(), k@)));
    }

    /// The current value of `k`, if it has one.
    pub fn get(&self, k: &K) -> (r: Option<&V>)
        requires
            self.inv(),
        ensures
            match r {
                Some(v) => self.contents().contains_key(k@) && *v == self.contents()[k@],
                None => !self.contents().contains_key(k@),
            },
    {
        match self.find(k) {
            Some(i) => Some(&self.entries[i].value),
            None => None,
        }
    }

    /// The current value of `k`; where it has none, the value that `f`
    /// computes, which is then stored with an undo record `(k, None)`. Where `f`
    /// fails, nothing changes and its error is returned.
    pub fn get_or_try_insert_with<F, E>(&mut self, k: K, f: F) -> (r: Result<&V, E>) where
        F: FnOnce() -> Result<V, E>,

        requires
            old(self).inv(),
            !old(self).contents().contains_key(k@) ==> f.requires(()),
        ensures
            final(self).inv(),
            old(self).contents().contains_key(k@) ==> r is Ok
                && *r->Ok_0 == old(self).contents()[k@]
                && final(self).contents() == old(self).contents()
                && final(self).history() == old(self).history(),
            !old(self).contents().contains_key(k@) ==> match r {
                Ok(v) => f.ensures((), Ok(*v))
                    && final(self).contents() == old(self).contents().insert(k@, *v)
                    && final(self).history() == old(self).history().push((k@, None)),
                Err(e) => f.ensures((), Err(e)) && final(self).contents() == old(self).contents()
                    && final(self).history() == old(self).history(),
            },
    {
        match self.find(&k) {
            Some(i) => Ok(&self.entries[i].value),
            None => {
                match f() {
                    Ok(v) => {
                        let key = k.key_clone();
                        proof {
                            lemma_entries_map_push(self.entries@, (Entry { key: k, value: v }));
                        }
                        self.entries.push(Entry { key: k, value: v });
                        self.history.push(Undo { key, previous: None });
                        assert(self.history() =~= old(self).history().push((k@, None)));
                        let last = self.entries.len() - 1;
                        Ok(&self.entries[last].value)
                    },
                    Err(e) => Err(e),
                }
            },
        }
    }

    /// Whether `k` has a value.
    pub fn contains_key(&self, k: &K) -> (r: bool)
        requires
            self.inv(),
        ensures
            r == self.contents().contains_key(k@),
    {
        self.find(k).is_some()
    }

    /// The number of keys that have a value.
    pub fn len(&self) -> (n: usize)
        ensures
            n == self.key_order().len(),
    {
        self.entries.len()
    }

    /// The key at place `i` in the order in which the map holds its keys.
    pub fn key_at(&self, i: usize) -> (k: &K)
        requires
            self.inv(),
            i < self.key_order().len(),
        ensures
            k@ == self.key_order()[i as int],
            self.contents().contains_key(k@),
    {
        proof {
            lemma_entries_map_at(self.entries@, i as int);
        }
        &self.entries[i].key
    }

    /// The value of the key at place `i`.
    pub fn value_at(&self, i: usize) -> (v: &V)
        requires
            self.inv(),
            i < self.key_order().len(),
        ensures
            self.contents().contains_key(self.key_order()[i as int]),
            *v == self.contents()[self.key_order()[i as int]],
    {
        proof {
            lemma_entries_map_at(self.entries@, i as int);
        }
        &self.entries[i].value
    }

    /// Gives the key at place `i` the value `v` and returns the value that
    /// it had. Nothing is recorded in the history.
    pub fn replace_at(&mut self, i: usize, v: V) -> (previous: V)
        requires
            old(self).inv(),
            i < old(self).key_order().len(),
        ensures
            final(self).inv(),
            final(self).key_order() == old(self).key_order(),
            final(self).history() == old(self).history(),
            previous == old(self).contents()[old(self).key_order()[i as int]],
            final(self).contents() == old(self).contents().insert(
                old(self).key_order()[i as int],
                v,
            ),
    {
        proof {
            lemma_entries_map_at(self.entries@, i as int);
        }
        let entry = self.entries.remove(i);
        let updated = Entry { key: entry.key, value: v };
        proof {
            lemma_entries_map_update(old(self).entries@, i as int, updated);
        }
        self.entries.insert(i, updated);
        assert(self.entries@ =~= old(self).entries@.update(i as int, updated));
        assert(self.key_order() =~= old(self).key_order());
        entry.value
    }

    /// The history is no longer than a machine can count.
    pub proof fn lemma_history_bounded(&self)
        ensures
            self.history().len() <= usize::MAX,
    {
        assert(self.history@.len() == self.history.len());
    }

    /// The place of a key among the keys.
    pub closed spec fn place_of(&self, k: K::V) -> int {
        position(self.entries@, k)
    }

    /// Every key that has a value is at its place among the keys, and at
    /// every place is a key that has a value.
    pub proof fn lemma_places(&self)
        requires
            self.inv(),
        ensures
            forall|k: K::V| #[trigger]
                self.contents().contains_key(k) ==> 0 <= self.place_of(k) < self.key_order().len()
                    && self.key_order()[self.place_of(k)] == k,
            forall|i: int|
                0 <= i < self.key_order().len() ==> self.contents().contains_key(
                    #[trigger] self.key_order()[i],
                ),
    {
        let order = self.key_order();
        assert forall|k: K::V| #[trigger] self.contents().contains_key(k) implies 0
            <= self.place_of(k) < order.len() && order[self.place_of(k)] == k by {
            let i = choose|i: int|
                0 <= i < self.entries@.len() && #[trigger] self.entries@[i].key@ == k;
            assert(self.entries@[self.place_of(k)].key@ == k);
        }
        assert forall|i: int| 0 <= i < order.len() implies self.contents().contains_key(
            #[trigger] order[i],
        ) by {
            assert(self.entries@[i].key@ == order[i]);
        }
    }

    /// The number of undo records.
    pub fn history_len(&self) -> (n: usize)
        ensures
            n == self.history().len(),
    {
        self.history.len()
    }

    /// Forgets the undo records and leaves the contents as they are.
    pub fn discard_history(&mut self)
        ensures
            final(self).inv() == old(self).inv(),
            final(self).contents() == old(self).contents(),
            final(self).key_order() == old(self).key_order(),
            final(self).history() == Seq::<(K::V, Option<V>)>::empty(),
    {
        self.history.clear();
        assert(self.history() =~= Seq::<(K::V, Option<V>)>::empty());
    }

    /// Reverses, newest first, every undo record above `height`. Does nothing
    /// where the history is no longer than `height`.
    pub fn rollback(&mut self, height: usize)
        requires
            old(self).inv(),
        ensures
            final(self).inv(),
            final(self).contents() == rolled_back(
                old(self).contents(),
                old(self).history(),
                height as nat,
            ),
            final(self).history() == old(self).history().take(
                if old(self).history().len() <= height {
                    old(self).history().len() as int
                } else {
                    height as int
                },
            ),
    {
        if self.history.len() <= height {
            assert(self.history().take(self.history().len() as int) =~= self.history());
            return ;
        }
        while self.history.len() > height
            invariant
                self.inv(),
                height <= self.history().len() <= old(self).history().len(),
                self.history() == old(self).history().take(self.history().len() as int),
                rolled_back(self.contents(), self.history(), height as nat) == rolled_back(
                    old(self).contents(),
                    old(self).history(),
                    height as nat,
                ),
            decreases self.history@.len(),
        {
            let ghost before_history = self.history();
            let ghost before_contents = self.contents();
            let record = self.history.pop().unwrap();
            assert(self.history() =~= before_history.drop_last());
            assert(before_history.last() == (record.key@, record.previous));
            match record.previous {
                Some(v) => {
                    let _ = self.put(record.key, v);
                },
                None => {
                    self.take(&record.key);
                },
            }
            assert(self.contents() == undo_one(before_contents, before_history.last()));
            assert(self.history() =~= old(self).history().take(self.history().len() as int));
        }
        assert(self.history().len() == height);
    }
}

} // verus!
