//! JaySonDB: a key/value store over the hash map. What it holds is saved to,
//! and restored from, a backup file of JSON entries; the file itself is read
//! and written by the program around the library.

use vstd::prelude::*;

use crate::hashmap::{
    AmazingHashMap, Entry, table_map, table_pos, table_insert, table_ok, table_has, lemma_table_pos,
    lemma_table_set_value, lemma_table_push,
};
use crate::keys::HashKey;

verus! {

/// The map after inserting `es`, first to last, into `m`.
pub open spec fn insert_all<K: HashKey, V>(m: Map<K::V, V>, es: Seq<Entry<K, V>>) -> Map<K::V, V>
    decreases es.len(),
{
    if es.len() == 0 {
        m
    } else {
        insert_all(m, es.drop_last()).insert(es.last().key@, es.last().value)
    }
}

/// The table after inserting `es`, first to last, into `t`.
pub open spec fn table_insert_all<K: HashKey, V>(t: Seq<Option<Entry<K, V>>>, es: Seq<Entry<K, V>>) -> Seq<Option<Entry<K, V>>>
    decreases es.len(),
{
    if es.len() == 0 {
        t
    } else {
        table_insert(table_insert_all(t, es.drop_last()), es.last())
    }
}

/// Inserting entries one after another into a well-formed table keeps it well
/// formed, and the map it stands for is the map with the same insertions.
pub proof fn lemma_table_insert_all<K: HashKey, V>(t: Seq<Option<Entry<K, V>>>, es: Seq<Entry<K, V>>)
    requires
        table_ok(t),
    ensures
        table_ok(table_insert_all(t, es)),
        table_map(table_insert_all(t, es)) == insert_all(table_map(t), es),
    decreases es.len(),
{
    if es.len() > 0 {
        lemma_table_insert_all(t, es.drop_last());
        let t1 = table_insert_all(t, es.drop_last());
        let e = es.last();
        if table_has(t1, e.key@) {
            let i = table_pos(t1, e.key@);
            lemma_table_pos(t1, i);
            lemma_table_set_value(t1, i, Entry { key: t1[i].unwrap().key, value: e.value });
        } else {
            lemma_table_push(t1, e);
        }
    }
}

/// The backup file used when none is named.
pub open spec fn default_backup_path() -> Seq<char> {
    "save/backup.json"@
}

/// A key/value store kept in an `AmazingHashMap`, with the path of its backup file.
pub struct JaySonDB<K, V> {
    pub hashmap: AmazingHashMap<K, V>,
    pub backup_file: String,
}

impl<K: HashKey, V> View for JaySonDB<K, V> {
    type V = Map<K::V, V>;

    open spec fn view(&self) -> Map<K::V, V> {
        self.hashmap@
    }
}

impl<K: HashKey, V> JaySonDB<K, V> {
    /// The store is well formed when its map is.
    pub open spec fn wf(&self) -> bool {
        self.hashmap.wf()
    }

    /// The store's table of entries, in order: its map's table.
    pub open spec fn entries(&self) -> Seq<Option<Entry<K, V>>> {
        self.hashmap.entries()
    }

    /// A well-formed store lists an entry at every table position, no key twice,
    /// and exactly one entry per key it maps.
    pub proof fn law_shape(&self)
        requires
            self.wf(),
        ensures
            table_ok(self.entries()),
            self@.dom().finite(),
            self@.dom().len() == self.entries().len(),
    {
        self.hashmap.law_shape();
    }

    /// The path of the backup file, as a string.
    pub open spec fn backup_path(&self) -> Seq<char> {
        self.backup_file@
    }

    /// An empty store whose backup file is `backup_file`, or
    /// `save/backup.json` when none is given.
    pub fn new(backup_file: Option<String>) -> (db: JaySonDB<K, V>)
        ensures
            db.wf(),
            db@ == Map::<K::V, V>::empty(),
            db.entries().len() == 0,
            db.backup_path() == match backup_file {
                Some(path) => path@,
                None => default_backup_path(),
            },
    {
        let backup_file = match backup_file {
            Some(path) => path,
            None => "save/backup.json".to_owned(),
        };
        let hashmap = AmazingHashMap::<K, V>::new();
        JaySonDB { hashmap, backup_file }
    }

    /// The path of the backup file.
    pub fn backup_file(&self) -> (p: &String)
        ensures
            p@ == self.backup_path(),
    {
        &self.backup_file
    }

    /// Inserts the entries read back from a backup, first to last.
    pub fn load_entries(&mut self, entries: Vec<Entry<K, V>>)
        requires
            old(self).wf(),
            old(self).entries().len() + entries@.len() < usize::MAX / 3,
        ensures
            final(self).wf(),
            final(self)@ == insert_all(old(self)@, entries@),
            final(self).entries() == table_insert_all(old(self).entries(), entries@),
            final(self).backup_path() == old(self).backup_path(),
    {
        let ghost es = entries@;
        let ghost start = self@;
        let ghost t0 = self.entries();
        let ghost n0 = self.entries().len();
        broadcast use vstd::std_specs::vec::axiom_spec_into_iter;
        for e in it: entries.into_iter()
            invariant
                self.wf(),
                it.seq() == es,
                self@ == insert_all(start, es.take(it.index() as int)),
                self.entries() == table_insert_all(t0, es.take(it.index() as int)),
                self.entries().len() <= n0 + it.index(),
                n0 + es.len() < usize::MAX / 3,
                self.backup_path() == old(self).backup_path(),
        {
            let ghost i = it.index();
            assert(es.take(i + 1).drop_last() =~= es.take(i as int));
            self.hashmap.insert(e.key, e.value);
        }
        assert(es.take(es.len() as int) =~= es);
    }

    /// Maps `key` to `value`.
    pub fn insert(&mut self, key: K, value: V)
        requires
            old(self).wf(),
            old(self).entries().len() < usize::MAX / 3,
        ensures
            final(self).wf(),
            final(self)@ == old(self)@.insert(key@, value),
            old(self)@.dom().contains(key@) ==> {
                let t = old(self).entries();
                let i = table_pos(t, key@);
                final(self).entries() == t.update(i, Some(Entry { key: t[i].unwrap().key, value }))
            },
            !old(self)@.dom().contains(key@) ==>
                final(self).entries() == old(self).entries().push(Some(Entry { key, value })),
            final(self).entries() == table_insert(old(self).entries(), Entry { key, value }),
            final(self).backup_path() == old(self).backup_path(),
    {
        self.hashmap.insert(key, value);
    }

    /// Removes `key`, which the store must hold.
    pub fn delete(&mut self, key: K)
        requires
            old(self).wf(),
            old(self)@.dom().contains(key@),
        ensures
            final(self).wf(),
            final(self)@ == old(self)@.remove(key@),
            ({
                let t = old(self).entries();
                final(self).entries() == t.update(table_pos(t, key@), t.last()).drop_last()
            }),
            final(self).backup_path() == old(self).backup_path(),
    {
        let r = self.hashmap.delete(key);
        proof {
            assert(r is Ok);
        }
    }

    /// The entry with key `key`, if the store has one.
    pub fn lookup(&self, key: K) -> (r: Option<&Entry<K, V>>)
        requires
            self.wf(),
        ensures
            r is Some <==> self@.dom().contains(key@),
            r matches Some(e) ==> e.key@ == key@ && e.value == self@[key@],
    {
        self.hashmap.lookup(&key)
    }

    /// Every table position, in order; each holds an entry.
    pub fn list_all(&self) -> (r: &Vec<Option<Entry<K, V>>>)
        ensures
            r@ == self.entries(),
    {
        self.hashmap.table()
    }
}

} // verus!
