//! What holds of the map across its operations, stated over the views that
//! the operations' contracts speak of.

use vstd::prelude::*;
use vstd::set_lib::{set_int_range, lemma_int_range, lemma_map_size};

use crate::hashmap::{Entry, table_map, table_ok, key_at, table_has, table_insert};
use crate::database::{insert_all, table_insert_all, lemma_table_insert_all};
use crate::keys::HashKey;

verus! {

/// After `insert(k, v)` (whose contract makes `after` equal `before.insert(k, v)`),
/// a lookup of `k` finds `v`, and every other key is found exactly as before.
pub proof fn law_lookup_after_insert<K: HashKey, V>(before: Map<K::V, V>, after: Map<K::V, V>, k: K::V, v: V, other: K::V)
    requires
        after == before.insert(k, v),
    ensures
        after.dom().contains(k),
        after[k] == v,
        other != k ==> (after.dom().contains(other) <==> before.dom().contains(other)),
        other != k && before.dom().contains(other) ==> after[other] == before[other],
{
}

/// Inserting twice under one key leaves what the second insertion alone
/// leaves; in particular, inserting the same pair again changes nothing.
pub proof fn law_insert_overwrites<K: HashKey, V>(m: Map<K::V, V>, k: K::V, v1: V, v2: V)
    ensures
        m.insert(k, v1).insert(k, v2) == m.insert(k, v2),
        m.insert(k, v2).insert(k, v2) == m.insert(k, v2),
{
    assert(m.insert(k, v1).insert(k, v2) =~= m.insert(k, v2));
    assert(m.insert(k, v2).insert(k, v2) =~= m.insert(k, v2));
}

/// After `delete(k)` succeeds, a lookup of `k` finds nothing, and every other
/// key is found exactly as before.
pub proof fn law_lookup_after_delete<K: HashKey, V>(before: Map<K::V, V>, after: Map<K::V, V>, k: K::V, other: K::V)
    requires
        after == before.remove(k),
    ensures
        !after.dom().contains(k),
        other != k ==> (after.dom().contains(other) <==> before.dom().contains(other)),
        other != k && before.dom().contains(other) ==> after[other] == before[other],
{
}

/// Deleting a key that was just inserted, and that the map did not have
/// before, succeeds (the key is there) and gives back the map as it was.
pub proof fn law_delete_undoes_insert<K: HashKey, V>(m: Map<K::V, V>, k: K::V, v: V)
    requires
        !m.dom().contains(k),
    ensures
        m.insert(k, v).dom().contains(k),
        m.insert(k, v).remove(k) == m,
{
    assert(m.insert(k, v).remove(k) =~= m);
}

/// The table holds exactly one entry per key of the map.
pub proof fn law_one_entry_per_key<K: HashKey, V>(t: Seq<Option<Entry<K, V>>>)
    requires
        table_ok(t),
    ensures
        table_map(t).dom().finite(),
        table_map(t).dom().len() == t.len(),
{
    let idx = set_int_range(0, t.len() as int);
    let f = |i: int| key_at(t, i);
    lemma_int_range(0, t.len() as int);
    assert(vstd::relations::injective_on(f, idx));
    assert(idx.map(f) =~= table_map(t).dom()) by {
        assert forall|k: K::V| table_map(t).dom().contains(k) implies idx.map(f).contains(k) by {
            let i = choose|i: int| 0 <= i < t.len() && #[trigger] key_at(t, i) == k;
            assert(idx.contains(i) && f(i) == k);
        }
        assert forall|k: K::V| idx.map(f).contains(k) implies table_map(t).dom().contains(k) by {
            let i = choose|i: int| idx.contains(i) && f(i) == k;
            assert(table_has(t, k));
        }
    }
    lemma_map_size(idx, table_map(t).dom(), f);
}

/// Inserting keys that are new to the table and to each other, one after
/// another, lists their entries after the table's own, in insertion order.
pub proof fn law_inserts_append<K: HashKey, V>(t: Seq<Option<Entry<K, V>>>, es: Seq<Entry<K, V>>)
    requires
        table_ok(t),
        forall|j: int| 0 <= j < es.len() ==> !table_has(t, #[trigger] es[j].key@),
        forall|a: int, b: int| 0 <= a < b < es.len() ==> es[a].key@ != es[b].key@,
    ensures
        table_insert_all(t, es) == t + es.map_values(|e: Entry<K, V>| Some(e)),
    decreases es.len(),
{
    if es.len() > 0 {
        let init = es.drop_last();
        law_inserts_append(t, init);
        lemma_table_insert_all(t, init);
        let t1 = table_insert_all(t, init);
        let e = es.last();
        let n = t.len() as int;
        assert(t1 == t + init.map_values(|e: Entry<K, V>| Some(e)));
        if table_has(t1, e.key@) {
            let i = choose|i: int| 0 <= i < t1.len() && #[trigger] key_at(t1, i) == e.key@;
            if i < n {
                assert(key_at(t, i) == e.key@);
                assert(!table_has(t, es[es.len() - 1].key@));
            } else {
                assert(key_at(t1, i) == init[i - n].key@);
                assert(es[i - n].key@ != es[es.len() - 1].key@);
            }
        }
        assert(table_insert(t1, e) == t1.push(Some(e)));
        assert(t1.push(Some(e)) =~= t + es.map_values(|e: Entry<K, V>| Some(e)));
    }
}

/// The entries of a table, each taken out of its position.
pub open spec fn listed_entries<K, V>(t: Seq<Option<Entry<K, V>>>) -> Seq<Entry<K, V>> {
    t.map_values(|o: Option<Entry<K, V>>| o.unwrap())
}

/// Inserting a well-formed table's listed entries, in order, into an empty
/// store rebuilds the same table and the same map: a store restored from its
/// listing is the store that was listed.
pub proof fn law_reload<K: HashKey, V>(t: Seq<Option<Entry<K, V>>>)
    requires
        table_ok(t),
    ensures
        table_insert_all(Seq::empty(), listed_entries(t)) == t,
        insert_all(Map::empty(), listed_entries(t)) == table_map(t),
{
    let es = listed_entries(t);
    let empty = Seq::<Option<Entry<K, V>>>::empty();
    assert(table_ok(empty));
    assert forall|j: int| 0 <= j < es.len() implies !table_has(empty, #[trigger] es[j].key@) by {}
    assert forall|a: int, b: int| 0 <= a < b < es.len() implies es[a].key@ != es[b].key@ by {
        assert(key_at(t, a) == es[a].key@ && key_at(t, b) == es[b].key@);
    }
    law_inserts_append(empty, es);
    assert(empty + es.map_values(|e: Entry<K, V>| Some(e)) =~= t) by {
        assert forall|j: int| 0 <= j < t.len() implies #[trigger] t[j] is Some by {}
    }
    lemma_table_insert_all(empty, es);
    assert(table_map(empty) =~= Map::<K::V, V>::empty());
}

} // verus!
