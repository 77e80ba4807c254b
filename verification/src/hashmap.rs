//! An insertion-ordered hash map. The entries live in a dense table, in the
//! order they were inserted; a separate slot array, probed linearly from each
//! key's home slot and kept in Robin Hood order, records for each entry where
//! it sits in the table and the full hash of its key.

use vstd::prelude::*;
use vstd::arithmetic::power2::{pow2, lemma_pow2_unfold, lemma_pow2_strictly_increases, lemma2_to64};

use crate::hashers::AHHasher;
use crate::keys::{HashKey, key_hash};
use crate::slots::{
    EntryIndex, geom, home, dist, probe, occupied, sdist, rh_ok, index_injective, indices_below,
    lemma_geom, lemma_rh_chain, lemma_distinct_homes_at_home, lemma_occ_bound_full, lemma_empty_slot, home_slot, next_slot,
    slot_distance, empty_slots, holds, rh_place, rh_remove, rh_insert, rh_delete, rh_rebuild,
    no_slots, rename_index, slot_of,
};

verus! {

/// A key with its value.
#[derive(Clone, Copy, Debug)]
pub struct Entry<K, V> {
    pub key: K,
    pub value: V,
}

impl<K, V> Entry<K, V> {
    pub fn new(key: K, value: V) -> (e: Entry<K, V>)
        ensures
            e.key == key,
            e.value == value,
    {
        Entry { key, value }
    }
}

/// The key of the `i`-th table entry, by view.
pub open spec fn key_at<K: HashKey, V>(t: Seq<Option<Entry<K, V>>>, i: int) -> K::V {
    t[i].unwrap().key@
}

/// The value of the `i`-th table entry.
pub open spec fn value_at<K, V>(t: Seq<Option<Entry<K, V>>>, i: int) -> V {
    t[i].unwrap().value
}

/// Every table position holds an entry, and no two entries have the same key.
pub open spec fn table_ok<K: HashKey, V>(t: Seq<Option<Entry<K, V>>>) -> bool {
    &&& forall|i: int| 0 <= i < t.len() ==> #[trigger] t[i] is Some
    &&& forall|i: int, j: int|
        0 <= i < t.len() && 0 <= j < t.len() && i != j ==> key_at(t, i) != key_at(t, j)
}

/// Some table entry has key `k`.
pub open spec fn table_has<K: HashKey, V>(t: Seq<Option<Entry<K, V>>>, k: K::V) -> bool {
    exists|i: int| 0 <= i < t.len() && #[trigger] key_at(t, i) == k
}

/// The position of the entry with key `k`.
pub open spec fn table_pos<K: HashKey, V>(t: Seq<Option<Entry<K, V>>>, k: K::V) -> int {
    choose|i: int| 0 <= i < t.len() && #[trigger] key_at(t, i) == k
}

/// The map that a table stands for: each entry's key to its value.
pub open spec fn table_map<K: HashKey, V>(t: Seq<Option<Entry<K, V>>>) -> Map<K::V, V> {
    Map::new(|k: K::V| table_has(t, k), |k: K::V| value_at(t, table_pos(t, k)))
}

pub proof fn lemma_table_pos<K: HashKey, V>(t: Seq<Option<Entry<K, V>>>, i: int)
    requires
        table_ok(t),
        0 <= i < t.len(),
    ensures
        table_has(t, key_at(t, i)),
        table_pos(t, key_at(t, i)) == i,
        table_map(t).dom().contains(key_at(t, i)),
        table_map(t)[key_at(t, i)] == value_at(t, i),
{
    assert(table_has(t, key_at(t, i)));
}

/// Appending an entry with a new key adds that key to the map.
pub proof fn lemma_table_push<K: HashKey, V>(t: Seq<Option<Entry<K, V>>>, e: Entry<K, V>)
    requires
        table_ok(t),
        !table_has(t, e.key@),
    ensures
        table_ok(t.push(Some(e))),
        table_map(t.push(Some(e))) == table_map(t).insert(e.key@, e.value),
{
    let t2 = t.push(Some(e));
    let n = t.len() as int;
    assert forall|i: int, j: int| 0 <= i < t2.len() && 0 <= j < t2.len() && i != j implies key_at(t2, i) != key_at(t2, j) by {
        if i < n && j < n {
            assert(key_at(t2, i) == key_at(t, i) && key_at(t2, j) == key_at(t, j));
        } else if i == n {
            assert(key_at(t2, j) == key_at(t, j));
        } else {
            assert(key_at(t2, i) == key_at(t, i));
        }
    }
    assert(forall|i: int| 0 <= i < t2.len() ==> #[trigger] t2[i] is Some) by {
        assert(forall|i: int| 0 <= i < n ==> t2[i] == t[i]);
    }
    let m1 = table_map(t2);
    let m2 = table_map(t).insert(e.key@, e.value);
    assert forall|k: K::V| m1.dom().contains(k) <==> m2.dom().contains(k) by {
        if table_has(t2, k) {
            let i = choose|i: int| 0 <= i < t2.len() && #[trigger] key_at(t2, i) == k;
            if i < n {
                assert(key_at(t, i) == k);
            }
        }
        if table_has(t, k) {
            let i = choose|i: int| 0 <= i < t.len() && #[trigger] key_at(t, i) == k;
            assert(key_at(t2, i) == k);
        }
        if k == e.key@ {
            assert(key_at(t2, n) == k);
        }
    }
    assert forall|k: K::V| #[trigger] m1.dom().contains(k) implies m1[k] == m2[k] by {
        let i = table_pos(t2, k);
        lemma_table_pos(t2, i);
        if i < n {
            assert(key_at(t, i) == k);
            lemma_table_pos(t, i);
        }
    }
    assert(m1 =~= m2);
}

/// Replacing the value of the `i`-th entry, keeping its key, replaces the value of that key.
pub proof fn lemma_table_set_value<K: HashKey, V>(t: Seq<Option<Entry<K, V>>>, i: int, e: Entry<K, V>)
    requires
        table_ok(t),
        0 <= i < t.len(),
        e.key@ == key_at(t, i),
    ensures
        table_ok(t.update(i, Some(e))),
        table_map(t.update(i, Some(e))) == table_map(t).insert(e.key@, e.value),
{
    let t2 = t.update(i, Some(e));
    assert(forall|j: int| 0 <= j < t.len() ==> #[trigger] key_at(t2, j) == key_at(t, j));
    assert(forall|j: int| 0 <= j < t2.len() ==> #[trigger] t2[j] is Some);
    let m1 = table_map(t2);
    let m2 = table_map(t).insert(e.key@, e.value);
    assert forall|k: K::V| m1.dom().contains(k) <==> m2.dom().contains(k) by {
        if table_has(t2, k) {
            let j = choose|j: int| 0 <= j < t2.len() && #[trigger] key_at(t2, j) == k;
            assert(key_at(t, j) == k);
        }
        if table_has(t, k) {
            let j = choose|j: int| 0 <= j < t.len() && #[trigger] key_at(t, j) == k;
            assert(key_at(t2, j) == k);
        }
        if k == e.key@ {
            assert(key_at(t2, i) == k);
        }
    }
    assert forall|k: K::V| #[trigger] m1.dom().contains(k) implies m1[k] == m2[k] by {
        let j = table_pos(t2, k);
        lemma_table_pos(t2, j);
        lemma_table_pos(t, j);
    }
    assert(m1 =~= m2);
}

/// Removing the `i`-th entry by moving the last entry into its place removes its key.
pub proof fn lemma_table_swap_remove<K: HashKey, V>(t: Seq<Option<Entry<K, V>>>, i: int)
    requires
        table_ok(t),
        0 <= i < t.len(),
    ensures
        table_ok(t.update(i, t.last()).drop_last()),
        table_map(t.update(i, t.last()).drop_last()) == table_map(t).remove(key_at(t, i)),
{
    let n = t.len() as int;
    let t2 = t.update(i, t.last()).drop_last();
    let k0 = key_at(t, i);
    assert(forall|j: int| 0 <= j < n - 1 && j != i ==> #[trigger] key_at(t2, j) == key_at(t, j));
    assert(i < n - 1 ==> key_at(t2, i) == key_at(t, n - 1));
    assert(forall|j: int| 0 <= j < t2.len() ==> #[trigger] t2[j] is Some);
    assert forall|a: int, b: int| 0 <= a < t2.len() && 0 <= b < t2.len() && a != b implies key_at(t2, a) != key_at(t2, b) by {
        let a2 = if a == i { n - 1 } else { a };
        let b2 = if b == i { n - 1 } else { b };
        assert(key_at(t2, a) == key_at(t, a2));
        assert(key_at(t2, b) == key_at(t, b2));
    }
    let m1 = table_map(t2);
    let m2 = table_map(t).remove(k0);
    assert forall|k: K::V| m1.dom().contains(k) <==> m2.dom().contains(k) by {
        if table_has(t2, k) {
            let j = choose|j: int| 0 <= j < t2.len() && #[trigger] key_at(t2, j) == k;
            let j2 = if j == i { n - 1 } else { j };
            assert(key_at(t, j2) == k);
        }
        if table_has(t, k) && k != k0 {
            let j = choose|j: int| 0 <= j < t.len() && #[trigger] key_at(t, j) == k;
            assert(j != i);
            let j2 = if j == n - 1 { i } else { j };
            assert(key_at(t2, j2) == k);
        }
    }
    assert forall|k: K::V| #[trigger] m1.dom().contains(k) implies m1[k] == m2[k] by {
        let j = table_pos(t2, k);
        lemma_table_pos(t2, j);
        let j2 = if j == i { n - 1 } else { j };
        assert(key_at(t, j2) == k);
        lemma_table_pos(t, j2);
    }
    assert(m1 =~= m2);
}

/// The table after inserting `e`: an entry with the same key keeps its key and
/// place and takes the new value; otherwise `e` is appended.
pub open spec fn table_insert<K: HashKey, V>(t: Seq<Option<Entry<K, V>>>, e: Entry<K, V>) -> Seq<Option<Entry<K, V>>> {
    if table_has(t, e.key@) {
        let i = table_pos(t, e.key@);
        t.update(i, Some(Entry { key: t[i].unwrap().key, value: e.value }))
    } else {
        t.push(Some(e))
    }
}

/// Every occupied slot records the hash of the key of the entry it names.
pub open spec fn slots_hashed<K: HashKey, V>(slots: Seq<Option<EntryIndex>>, t: Seq<Option<Entry<K, V>>>) -> bool {
    forall|s: int| #[trigger] occupied(slots, s) ==>
        slots[s].unwrap().hash == key_hash::<K>(key_at(t, slots[s].unwrap().index as int))
}

/// Some occupied slot names table position `i`.
pub open spec fn covered(slots: Seq<Option<EntryIndex>>, i: int) -> bool {
    exists|s: int| #[trigger] occupied(slots, s) && slots[s].unwrap().index == i
}

pub open spec fn slots_cover(slots: Seq<Option<EntryIndex>>, n: int) -> bool {
    forall|i: int| 0 <= i < n ==> #[trigger] covered(slots, i)
}

/// An insertion-ordered hash map with open addressing, linear probing and
/// Robin Hood displacement.
#[derive(Debug)]
pub struct AmazingHashMap<K, V> {
    capacity: usize,
    table: Vec<Option<Entry<K, V>>>,
    entry_index: Vec<Option<EntryIndex>>,
    current_index: usize,
    mask: u64,
}

impl<K: HashKey, V> View for AmazingHashMap<K, V> {
    type V = Map<K::V, V>;

    open spec fn view(&self) -> Map<K::V, V> {
        table_map(self.entries())
    }
}

impl<K: HashKey, V> AmazingHashMap<K, V> {
    /// The table of entries, in insertion order (as changed by deletions).
    pub closed spec fn entries(&self) -> Seq<Option<Entry<K, V>>> {
        self.table@
    }

    /// The slot array.
    pub closed spec fn slot_seq(&self) -> Seq<Option<EntryIndex>> {
        self.entry_index@
    }

    /// The number of slots.
    pub closed spec fn spec_capacity(&self) -> nat {
        self.capacity as nat
    }

    /// The exponent of the power of two that the capacity is.
    closed spec fn exp_spec(&self) -> nat {
        choose|e: nat| geom(self.capacity as int, self.mask, e)
    }

    /// The map is well formed: every entry is named by exactly one slot, which
    /// records its key's hash, the slots are in Robin Hood order, and fewer than
    /// two thirds of the slots are in use.
    pub closed spec fn wf(&self) -> bool {
        &&& self.wf_core()
        &&& 3 * self.table@.len() < 2 * self.capacity
    }

    closed spec fn wf_core(&self) -> bool {
        &&& exists|e: nat| geom(self.capacity as int, self.mask, e)
        &&& self.entry_index@.len() == self.capacity
        &&& self.current_index == self.table@.len()
        &&& table_ok(self.table@)
        &&& rh_ok(self.entry_index@)
        &&& index_injective(self.entry_index@)
        &&& indices_below(self.entry_index@, self.table@.len() as int)
        &&& slots_hashed(self.entry_index@, self.table@)
        &&& slots_cover(self.entry_index@, self.table@.len() as int)
    }

    /// An empty map with eight slots.
    pub fn new() -> (m: AmazingHashMap<K, V>)
        ensures
            m.wf(),
            m.entries() == Seq::<Option<Entry<K, V>>>::empty(),
            m@ == Map::<K::V, V>::empty(),
            m.spec_capacity() == 8,
            m.slot_seq().len() == 8,
            forall|s: int| 0 <= s < 8 ==> #[trigger] m.slot_seq()[s] is None,
    {
        let capacity = 8usize;
        let mask = capacity as u64 - 1;
        let entry_index = empty_slots(8);
        let table: Vec<Option<Entry<K, V>>> = Vec::with_capacity(capacity);
        let current_index: usize = 0;
        proof {
            lemma2_to64();
        }
        let m = AmazingHashMap { entry_index, table, capacity, mask, current_index };
        assert(geom(m.capacity as int, m.mask, 3nat));
        assert(m@ =~= Map::<K::V, V>::empty());
        m
    }

    /// The hash of `key`.
    pub fn hash(&self, key: &K) -> (h: u64)
        ensures
            h == key_hash::<K>(key@),
    {
        let mut hasher = AHHasher::new();
        key.feed(&mut hasher);
        hasher.finish()
    }

    /// The slot that holds `key`, if the map has it.
    pub fn _lookup(&self, key: &K) -> (r: Option<usize>)
        requires
            self.wf(),
        ensures
            match r {
                Some(s) => {
                    &&& (s as int) < self.spec_capacity()
                    &&& occupied(self.slot_seq(), s as int)
                    &&& self.slot_seq()[s as int].unwrap().index < self.entries().len()
                    &&& key_at(self.entries(), self.slot_seq()[s as int].unwrap().index as int) == key@
                    &&& table_pos(self.entries(), key@) == self.slot_seq()[s as int].unwrap().index
                    &&& self@.dom().contains(key@)
                },
                None => !self@.dom().contains(key@),
            },
    {
        let cap = self.capacity;
        let ghost c = cap as int;
        let ghost slots = self.entry_index@;
        let ghost t = self.table@;
        let ghost n = t.len() as int;
        proof {
            lemma_geom(c, self.mask, self.exp_spec());
            lemma_occ_bound_full(slots, n);
        }
        let ghost e = lemma_empty_slot(slots, -1);
        let hash = self.hash(key);
        let a = home_slot(hash, self.mask, cap, Ghost(self.exp_spec()));
        let mut p = a;
        loop
            invariant
                self.wf(),
                cap == self.capacity,
                c == cap,
                c >= 8,
                slots == self.entry_index@,
                t == self.table@,
                n == t.len(),
                forall|h: u64| 0 <= #[trigger] home(h, c) < c,
                hash == key_hash::<K>(key@),
                a as int == home(hash, c),
                p < cap,
                0 <= e < c,
                slots[e] is None,
                dist(p as int, a as int, c) <= dist(e, a as int, c),
                forall|u: int| 0 <= u < c && dist(u, a as int, c) < dist(p as int, a as int, c) ==>
                    !(#[trigger] occupied(slots, u) && key_at(t, slots[u].unwrap().index as int) == key@),
            decreases dist(e, a as int, c) - dist(p as int, a as int, c),
        {
            match self.entry_index[p] {
                None => {
                    proof { self.lemma_absent_at(key@, hash, a as int, p as int); }
                    return None;
                }
                Some(ei) => {
                    proof {
                        assert(occupied(slots, p as int));
                    }
                    if ei.hash == hash {
                        let found = match &self.table[ei.index] {
                            Some(entry) => entry.key.same_key(key),
                            None => false,
                        };
                        if found {
                            proof {
                                lemma_table_pos(t, ei.index as int);
                            }
                            return Some(p);
                        }
                    }
                    let ae = home_slot(ei.hash, self.mask, cap, Ghost(self.exp_spec()));
                    let od = slot_distance(p, ae, cap);
                    let md = slot_distance(p, a, cap);
                    if od < md {
                        proof { self.lemma_absent_at(key@, hash, a as int, p as int); }
                        return None;
                    }
                    proof {
                        assert(occupied(slots, p as int));
                        assert(p != e);
                    }
                    p = next_slot(p, cap);
                }
            }
        }
    }

    /// A probe for `k` from its home `a` that reaches slot `p`, having passed
    /// only slots without `k`, and finds there an empty slot or an entry closer
    /// to its home than `p` is to `a`: the map does not have `k`.
    proof fn lemma_absent_at(&self, k: K::V, hash: u64, a: int, p: int)
        requires
            self.wf(),
            hash == key_hash::<K>(k),
            a == home(hash, self.capacity as int),
            0 <= p < self.capacity,
            forall|u: int| 0 <= u < self.capacity && dist(u, a, self.capacity as int) < dist(p, a, self.capacity as int) ==>
                !(#[trigger] occupied(self.entry_index@, u) && key_at(self.table@, self.entry_index@[u].unwrap().index as int) == k),
            !occupied(self.entry_index@, p) || sdist(self.entry_index@, p) < dist(p, a, self.capacity as int),
        ensures
            !self@.dom().contains(k),
    {
        let c = self.capacity as int;
        let slots = self.entry_index@;
        let t = self.table@;
        lemma_geom(c, self.mask, self.exp_spec());
        if self@.dom().contains(k) {
            let i = table_pos(t, k);
            assert(covered(slots, i));
            let s = choose|s: int| #[trigger] occupied(slots, s) && slots[s].unwrap().index == i;
            assert(slots[s].unwrap().hash == hash);
            let ds = sdist(slots, s);
            let dp = dist(p, a, c);
            if ds < dp {
                assert(dist(s, a, c) < dp);
            } else if ds == dp {
                assert(s == p);
            } else {
                lemma_rh_chain(slots, s, dp);
                assert(probe(a, dp, c) == p);
            }
        }
    }

    /// The entry with key `key`, if the map has one.
    pub fn lookup(&self, key: &K) -> (r: Option<&Entry<K, V>>)
        requires
            self.wf(),
        ensures
            r is Some <==> self@.dom().contains(key@),
            r matches Some(e) ==> e.key@ == key@ && e.value == self@[key@],
    {
        match self._lookup(key) {
            None => None,
            Some(s) => {
                let ghost slots = self.entry_index@;
                match self.entry_index[s] {
                    None => None,
                    Some(ei) => {
                        proof {
                            assert(occupied(slots, s as int));
                            lemma_table_pos(self.table@, ei.index as int);
                        }
                        match &self.table[ei.index] {
                            Some(entry) => Some(entry),
                            None => None,
                        }
                    }
                }
            }
        }
    }

    /// Doubles the number of slots and places every entry anew.
    fn resize(&mut self)
        requires
            old(self).wf_core(),
            3 * old(self).table@.len() < 4 * old(self).capacity,
            2 * old(self).capacity <= usize::MAX,
        ensures
            final(self).wf(),
            final(self).table@ == old(self).table@,
            final(self).capacity == 2 * old(self).capacity,
            final(self).entry_index@ == rh_rebuild(old(self).entry_index@, no_slots(2 * old(self).capacity as nat), old(self).capacity as int),
    {
        let ghost old_slots = self.entry_index@;
        let ghost n = self.table@.len() as int;
        let ghost new_exp = self.exp_spec() + 1;
        let new_capacity = self.capacity * 2;
        let new_mask = (new_capacity - 1) as u64;
        proof {
            lemma_geom(self.capacity as int, self.mask, self.exp_spec());
            lemma_pow2_unfold(new_exp);
            lemma2_to64();
            if new_exp >= 64 {
                if new_exp > 64 {
                    lemma_pow2_strictly_increases(64, new_exp);
                }
            }
        }
        let mut new_slots = empty_slots(new_capacity);
        let mut s: usize = 0;
        while s < self.capacity
            invariant
                self.wf_core(),
                self.entry_index@ == old_slots,
                n == self.table@.len(),
                3 * n < 4 * self.capacity,
                s <= self.capacity,
                new_slots@.len() == new_capacity,
                new_capacity == 2 * self.capacity,
                geom(new_capacity as int, new_mask, new_exp),
                rh_ok(new_slots@),
                index_injective(new_slots@),
                indices_below(new_slots@, n),
                forall|x: EntryIndex| #[trigger] holds(new_slots@, x) <==>
                    exists|u: int| 0 <= u < s && old_slots[u] == Some(x),
                new_slots@ == rh_rebuild(old_slots, no_slots(new_capacity as nat), s as int),
            decreases self.capacity - s,
        {
            match self.entry_index[s] {
                Some(ei) => {
                    proof {
                        assert(occupied(old_slots, s as int));
                        assert forall|w: int| #[trigger] occupied(new_slots@, w) implies new_slots@[w].unwrap().index != ei.index by {
                            let x = new_slots@[w].unwrap();
                            assert(holds(new_slots@, x));
                            let u = choose|u: int| 0 <= u < s && old_slots[u] == Some(x);
                            assert(occupied(old_slots, u));
                        }
                    }
                    let ghost before = new_slots@;
                    rh_place(&mut new_slots, new_mask, Ghost(new_exp), ei, Ghost(n));
                    proof {
                        assert forall|x: EntryIndex| #[trigger] holds(new_slots@, x) <==>
                            exists|u: int| 0 <= u < s + 1 && old_slots[u] == Some(x) by {
                            if exists|u: int| 0 <= u < s + 1 && old_slots[u] == Some(x) {
                                let u = choose|u: int| 0 <= u < s + 1 && old_slots[u] == Some(x);
                                if u < s {
                                    assert(holds(before, x));
                                }
                            }
                            if holds(before, x) {
                                let u = choose|u: int| 0 <= u < s && old_slots[u] == Some(x);
                                assert(0 <= u < s + 1 && old_slots[u] == Some(x));
                            }
                        }
                    }
                }
                None => {
                    proof {
                        assert forall|x: EntryIndex| #[trigger] holds(new_slots@, x) <==>
                            exists|u: int| 0 <= u < s + 1 && old_slots[u] == Some(x) by {
                            if exists|u: int| 0 <= u < s + 1 && old_slots[u] == Some(x) {
                                let u = choose|u: int| 0 <= u < s + 1 && old_slots[u] == Some(x);
                                assert(u != s);
                                assert(0 <= u < s && old_slots[u] == Some(x));
                            }
                        }
                    }
                }
            }
            s = s + 1;
        }
        let ghost t = self.table@;
        proof {
            let ns = new_slots@;
            assert forall|w: int| #[trigger] occupied(ns, w) implies
                ns[w].unwrap().hash == key_hash::<K>(key_at(t, ns[w].unwrap().index as int)) by {
                let x = ns[w].unwrap();
                assert(holds(ns, x));
                let u = choose|u: int| 0 <= u < s && old_slots[u] == Some(x);
                assert(occupied(old_slots, u));
            }
            assert forall|i: int| 0 <= i < n implies #[trigger] covered(ns, i) by {
                assert(covered(old_slots, i));
                let u = choose|u: int| #[trigger] occupied(old_slots, u) && old_slots[u].unwrap().index == i;
                let x = old_slots[u].unwrap();
                assert(holds(ns, x));
                let w = choose|w: int| 0 <= w < ns.len() && ns[w] == Some(x);
                assert(occupied(ns, w));
            }
        }
        self.entry_index = new_slots;
        self.capacity = new_capacity;
        self.mask = new_mask;
        assert(geom(self.capacity as int, self.mask, new_exp));
    }

    /// Maps `key` to `value`. A key the map already has keeps its place in the
    /// table and takes the new value; a new key is appended to the table.
    pub fn insert(&mut self, key: K, value: V)
        requires
            old(self).wf(),
            old(self).entries().len() < usize::MAX / 3,
        ensures
            final(self).wf(),
            final(self)@ == old(self)@.insert(key@, value),
            old(self)@.dom().contains(key@) ==> {
                let t = old(self).entries();
                let i = table_pos(t, key@);
                final(self).entries() == t.update(i, Some(Entry { key: t[i].unwrap().key, value }))
            },
            !old(self)@.dom().contains(key@) ==>
                final(self).entries() == old(self).entries().push(Some(Entry { key, value })),
            final(self).entries() == table_insert(old(self).entries(), Entry { key, value }),
            old(self)@.dom().contains(key@) ==> final(self).slot_seq() == old(self).slot_seq(),
            !old(self)@.dom().contains(key@) ==> {
                let placed = rh_insert(
                    old(self).slot_seq(),
                    EntryIndex { index: old(self).entries().len() as usize, hash: key_hash::<K>(key@) },
                );
                final(self).slot_seq() == if 3 * (old(self).entries().len() + 1) >= 2 * old(self).spec_capacity() {
                    rh_rebuild(placed, no_slots(2 * old(self).spec_capacity()), old(self).spec_capacity() as int)
                } else {
                    placed
                }
            },
            final(self).spec_capacity() == if !old(self)@.dom().contains(key@) && 3 * (old(self).entries().len() + 1)
                >= 2 * old(self).spec_capacity() {
                2 * old(self).spec_capacity()
            } else {
                old(self).spec_capacity()
            },
    {
        let ghost t = self.table@;
        let ghost slots = self.entry_index@;
        match self._lookup(&key) {
            Some(s) => {
                let idx = match self.entry_index[s] {
                    Some(ei) => ei.index,
                    None => 0,
                };
                proof {
                    assert(occupied(slots, s as int));
                    lemma_table_pos(t, idx as int);
                }
                let mut cur: Option<Entry<K, V>> = None;
                self.table.set_and_swap(idx, &mut cur);
                match cur {
                    Some(entry) => {
                        let ghost e = Entry { key: entry.key, value };
                        self.table.set(idx, Some(Entry { key: entry.key, value }));
                        proof {
                            assert(self.table@ == t.update(idx as int, Some(e)));
                            lemma_table_set_value(t, idx as int, e);
                            assert(forall|j: int| 0 <= j < t.len() ==> #[trigger] key_at(self.table@, j) == key_at(t, j));
                            assert forall|w: int| #[trigger] occupied(slots, w) implies
                                slots[w].unwrap().hash == key_hash::<K>(key_at(self.table@, slots[w].unwrap().index as int)) by {
                            }
                        }
                    }
                    None => {}
                }
            }
            None => {
                let hash = self.hash(&key);
                let n = self.current_index;
                let item = EntryIndex::new(n, hash);
                proof {
                    lemma_geom(self.capacity as int, self.mask, self.exp_spec());
                    assert forall|w: int| #[trigger] occupied(slots, w) implies slots[w].unwrap().index != item.index by {
                    }
                }
                let ghost exp = self.exp_spec();
                rh_place(&mut self.entry_index, self.mask, Ghost(exp), item, Ghost(n as int + 1));
                self.current_index = n + 1;
                let ghost e = Entry { key, value };
                self.table.push(Some(Entry::new(key, value)));
                proof {
                    lemma_table_push(t, e);
                    let ns = self.entry_index@;
                    let t2 = self.table@;
                    assert(forall|j: int| 0 <= j < n ==> #[trigger] key_at(t2, j) == key_at(t, j));
                    assert forall|w: int| #[trigger] occupied(ns, w) implies
                        ns[w].unwrap().hash == key_hash::<K>(key_at(t2, ns[w].unwrap().index as int)) by {
                        let x = ns[w].unwrap();
                        assert(holds(ns, x));
                        if x != item {
                            let u = choose|u: int| 0 <= u < slots.len() && slots[u] == Some(x);
                            assert(occupied(slots, u));
                        }
                    }
                    assert forall|i: int| 0 <= i < n + 1 implies #[trigger] covered(ns, i) by {
                        if i < n {
                            assert(covered(slots, i));
                            let u = choose|u: int| #[trigger] occupied(slots, u) && slots[u].unwrap().index == i;
                            let x = slots[u].unwrap();
                            assert(holds(slots, x));
                            assert(holds(ns, x));
                            let w = choose|w: int| 0 <= w < ns.len() && ns[w] == Some(x);
                            assert(occupied(ns, w));
                        } else {
                            assert(holds(ns, item));
                            let w = choose|w: int| 0 <= w < ns.len() && ns[w] == Some(item);
                            assert(occupied(ns, w));
                        }
                    }
                    assert(geom(self.capacity as int, self.mask, exp));
                    assert(self.wf_core());
                }
                if (3 * self.current_index) / 2 >= self.capacity {
                    self.resize();
                }
            }
        }
    }

    /// Removes the entry with key `key`: the last entry of the table moves into
    /// its place, and the slots after its slot shift back. A key the map does
    /// not have is an error, and leaves the map as it was.
    pub fn delete(&mut self, key: K) -> (r: Result<(), &'static str>)
        requires
            old(self).wf(),
        ensures
            final(self).wf(),
            r is Ok <==> old(self)@.dom().contains(key@),
            r is Ok ==> final(self)@ == old(self)@.remove(key@),
            r is Ok ==> {
                let t = old(self).entries();
                final(self).entries() == t.update(table_pos(t, key@), t.last()).drop_last()
            },
            r is Ok ==> {
                let t = old(self).entries();
                let i = table_pos(t, key@);
                final(self).slot_seq() == rh_delete(
                    rename_index(old(self).slot_seq(), t.len() - 1, i),
                    slot_of(old(self).slot_seq(), i),
                )
            },
            r is Err ==> *final(self) == *old(self),
            final(self).spec_capacity() == old(self).spec_capacity(),
            r matches Err(m) ==> m@ == "No entry with that key"@,
    {
        let ghost t = self.table@;
        let ghost slots = self.entry_index@;
        let ghost n = t.len() as int;
        match self._lookup(&key) {
            None => Err("No entry with that key"),
            Some(s) => {
                let idx = match self.entry_index[s] {
                    Some(ei) => ei.index,
                    None => 0,
                };
                proof {
                    assert(occupied(slots, s as int));
                    lemma_table_pos(t, idx as int);
                    lemma_geom(self.capacity as int, self.mask, self.exp_spec());
                }
                let last = self.current_index - 1;
                let ghost mut fixed: int = -1;
                if idx != last {
                    let found = match &self.table[last] {
                        Some(entry) => self._lookup(&entry.key),
                        None => None,
                    };
                    match found {
                        Some(u) => {
                            let h = match self.entry_index[u] {
                                Some(ei) => ei.hash,
                                None => 0,
                            };
                            proof {
                                assert(occupied(slots, u as int));
                            }
                            self.entry_index.set(u, Some(EntryIndex::new(idx, h)));
                            proof {
                                fixed = u as int;
                                assert(slots[u as int].unwrap().index == last) by {
                                    let ui = slots[u as int].unwrap().index as int;
                                    if ui != last {
                                        assert(key_at(t, ui) != key_at(t, last as int));
                                    }
                                }
                            }
                        }
                        None => {
                            proof {
                                lemma_table_pos(t, last as int);
                            }
                        }
                    }
                }
                let ghost slots1 = self.entry_index@;
                proof {
                    assert(slots1 =~= rename_index(slots, last as int, idx as int)) by {
                        assert forall|j: int| 0 <= j < slots.len() implies slots1[j] == rename_index(slots, last as int, idx as int)[j] by {
                            if slots[j] is Some && slots[j].unwrap().index == last && j != fixed {
                                assert(occupied(slots, j));
                                if fixed != -1 {
                                    assert(occupied(slots, fixed));
                                }
                            }
                        }
                    }
                    let so = slot_of(slots, idx as int);
                    assert(occupied(slots, s as int));
                    assert(so == s) by {
                        assert(occupied(slots, so) && slots[so].unwrap().index == idx);
                    }
                    assert(fixed == -1 ==> slots1 == slots);
                    assert(fixed != -1 ==> 0 <= fixed < slots.len() && occupied(slots, fixed)
                        && slots[fixed].unwrap().index == last && idx != last
                        && slots1 == slots.update(fixed, Some(EntryIndex { index: idx, hash: slots[fixed].unwrap().hash })));
                    assert forall|w: int| 0 <= w < slots1.len() implies #[trigger] crate::slots::rh_at(slots1, w) by {
                        assert(crate::slots::rh_at(slots, w));
                        assert(occupied(slots1, w) == occupied(slots, w));
                        assert(occupied(slots1, crate::slots::prev(w, slots1.len() as int))
                            == occupied(slots, crate::slots::prev(w, slots1.len() as int)));
                    }
                    let s2 = slots1.update(s as int, None);
                    assert forall|a: int, b: int|
                        #![trigger occupied(s2, a), occupied(s2, b)]
                        occupied(s2, a) && occupied(s2, b) && a != b implies s2[a].unwrap().index != s2[b].unwrap().index by {
                        assert(occupied(slots, a) && occupied(slots, b));
                        assert(occupied(slots, s as int));
                    }
                    assert forall|a: int| #[trigger] occupied(s2, a) implies s2[a].unwrap().index < last by {
                        assert(occupied(slots, a));
                        assert(occupied(slots, s as int));
                        if a != fixed && idx != last {
                            assert(covered(slots, last as int));
                            let u = choose|u: int| #[trigger] occupied(slots, u) && slots[u].unwrap().index == last;
                            assert(occupied(slots, u));
                        }
                    }
                }
                self.table.swap_remove(idx);
                self.current_index = last;
                let ghost exp = self.exp_spec();
                rh_remove(&mut self.entry_index, s, self.mask, Ghost(exp), Ghost(last as int));
                proof {
                    assert(geom(self.capacity as int, self.mask, exp));
                    let t2 = self.table@;
                    let ns = self.entry_index@;
                    let s2 = slots1.update(s as int, None);
                    lemma_table_swap_remove(t, idx as int);
                    assert forall|w: int| #[trigger] occupied(ns, w) implies
                        ns[w].unwrap().hash == key_hash::<K>(key_at(t2, ns[w].unwrap().index as int)) by {
                        let x = ns[w].unwrap();
                        assert(holds(ns, x));
                        let u = choose|u: int| 0 <= u < s2.len() && s2[u] == Some(x);
                        assert(occupied(s2, u));
                        assert(occupied(slots, u));
                        if slots1[u] == slots[u] {
                            assert(x.index != idx) by {
                                assert(occupied(slots, s as int));
                            }
                        }
                    }
                    assert forall|i: int| 0 <= i < last implies #[trigger] covered(ns, i) by {
                        if i == idx {
                            let u = fixed;
                            assert(u != s);
                            assert(s2[u] == slots1[u]);
                            let x = s2[u].unwrap();
                            assert(holds(s2, x));
                            assert(holds(ns, x));
                            let w = choose|w: int| 0 <= w < ns.len() && ns[w] == Some(x);
                            assert(occupied(ns, w));
                        } else {
                            assert(covered(slots, i));
                            let u = choose|u: int| #[trigger] occupied(slots, u) && slots[u].unwrap().index == i;
                            assert(u != s) by {
                                assert(occupied(slots, s as int));
                            }
                            assert(u != fixed);
                            assert(s2[u] == slots[u]);
                            let x = s2[u].unwrap();
                            assert(holds(s2, x));
                            assert(holds(ns, x));
                            let w = choose|w: int| 0 <= w < ns.len() && ns[w] == Some(x);
                            assert(occupied(ns, w));
                        }
                    }
                }
                Ok(())
            }
        }
    }

    /// The low-bit mask of the slot array: the number of slots, less one.
    pub fn mask(&self) -> (m: u64)
        requires
            self.wf(),
        ensures
            m as int == self.spec_capacity() - 1,
    {
        self.mask
    }

    /// The number of slots.
    pub fn capacity(&self) -> (c: usize)
        ensures
            c == self.spec_capacity(),
    {
        self.capacity
    }

    /// The slot array.
    pub fn entry_index(&self) -> (r: &Vec<Option<EntryIndex>>)
        ensures
            r@ == self.slot_seq(),
    {
        &self.entry_index
    }

    /// The table of entries.
    pub fn table(&self) -> (r: &Vec<Option<Entry<K, V>>>)
        ensures
            r@ == self.entries(),
    {
        &self.table
    }

    /// A well-formed map lists each of its keys once in its table, and fewer
    /// than two thirds of its slots, which number a power of two no smaller
    /// than eight, are in use.
    pub proof fn law_shape(&self)
        requires
            self.wf(),
        ensures
            table_ok(self.entries()),
            self@.dom().finite(),
            self@.dom().len() == self.entries().len(),
            3 * self.entries().len() < 2 * self.spec_capacity(),
            self.spec_capacity() >= 8,
            exists|e: nat| pow2(e) == self.spec_capacity(),
    {
        lemma_geom(self.capacity as int, self.mask, self.exp_spec());
        crate::laws::law_one_entry_per_key(self.table@);
        assert(pow2(self.exp_spec()) == self.spec_capacity());
    }

    /// A well-formed map's slot array has one slot per unit of capacity, is in
    /// Robin Hood order, and names each table position exactly once, recording
    /// the hash of that entry's key; an empty map has only empty slots.
    pub proof fn law_slots(&self)
        requires
            self.wf(),
        ensures
            self.slot_seq().len() == self.spec_capacity(),
            rh_ok(self.slot_seq()),
            index_injective(self.slot_seq()),
            indices_below(self.slot_seq(), self.entries().len() as int),
            slots_hashed(self.slot_seq(), self.entries()),
            slots_cover(self.slot_seq(), self.entries().len() as int),
            self.entries().len() == 0 ==> forall|s: int| 0 <= s < self.spec_capacity() ==> #[trigger] self.slot_seq()[s] is None,
    {
        if self.entries().len() == 0 {
            assert forall|s: int| 0 <= s < self.spec_capacity() implies #[trigger] self.slot_seq()[s] is None by {
                if self.slot_seq()[s] is Some {
                    assert(occupied(self.entry_index@, s));
                }
            }
        }
    }

    /// When no two keys of a well-formed map share a home slot, each key's
    /// home slot names that key's entry.
    pub proof fn law_distinct_homes(&self, k: K::V)
        requires
            self.wf(),
            self@.dom().contains(k),
            forall|k1: K::V, k2: K::V|
                self@.dom().contains(k1) && self@.dom().contains(k2) && k1 != k2 ==> home(
                    #[trigger] key_hash::<K>(k1),
                    self.spec_capacity() as int,
                ) != home(#[trigger] key_hash::<K>(k2), self.spec_capacity() as int),
        ensures
            ({
                let h = home(key_hash::<K>(k), self.spec_capacity() as int);
                &&& 0 <= h < self.spec_capacity()
                &&& self.slot_seq()[h] is Some
                &&& self.slot_seq()[h].unwrap().index == table_pos(self.entries(), k)
                &&& self.slot_seq()[h].unwrap().hash == key_hash::<K>(k)
            }),
    {
        let c = self.capacity as int;
        let slots = self.entry_index@;
        let t = self.table@;
        lemma_geom(c, self.mask, self.exp_spec());
        lemma_occ_bound_full(slots, t.len() as int);
        let e = lemma_empty_slot(slots, -1);
        assert forall|u: int, v: int|
            #![trigger occupied(slots, u), occupied(slots, v)]
            occupied(slots, u) && occupied(slots, v) && u != v implies home(slots[u].unwrap().hash, c)
                != home(slots[v].unwrap().hash, c) by {
            let iu = slots[u].unwrap().index as int;
            let iv = slots[v].unwrap().index as int;
            lemma_table_pos(t, iu);
            lemma_table_pos(t, iv);
            assert(key_at(t, iu) != key_at(t, iv));
            assert(key_hash::<K>(key_at(t, iu)) == slots[u].unwrap().hash);
            assert(key_hash::<K>(key_at(t, iv)) == slots[v].unwrap().hash);
        }
        let i = table_pos(t, k);
        assert(covered(slots, i));
        let s = choose|s: int| #[trigger] occupied(slots, s) && slots[s].unwrap().index == i;
        lemma_distinct_homes_at_home(slots, e, s);
    }
}

} // verus!
