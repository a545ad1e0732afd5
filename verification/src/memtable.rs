//! The memtable: the sorted in-memory buffer that takes every write.

use crate::codec::Record;
use crate::segment::{
    as_map, ascending, entries, lemma_as_map_ascending, lemma_as_map_keys, lemma_stream_of,
    stream_of, value_at,
};
use std::collections::BTreeMap;
use vstd::prelude::*;
use vstd::std_specs::btree::{increasing_seq, key_obeys_cmp_spec, spec_btree_map_iter};
use vstd::std_specs::cmp::OrdSpec;
use vstd::std_specs::iter::IteratorSpec;

verus! {

/// An ordered mapping from keys to values. A write replaces what the key
/// held before.
pub struct Memtable {
    map: BTreeMap<u32, String>,
}

impl View for Memtable {
    type V = Map<u32, Seq<char>>;

    closed spec fn view(&self) -> Map<u32, Seq<char>> {
        self.map@.map_values(|v: String| v@)
    }
}

/// What a walk over an ordered map gives: the keys in strictly ascending
/// order, each with its own value, and no key left out.
pub proof fn lemma_walk(map: &BTreeMap<u32, String>)
    requires
        increasing_seq(
            spec_btree_map_iter(map).remaining().map_values(|kv: (&u32, &String)| *kv.0),
        ),
    ensures
        forall|i: int, j: int|
            0 <= i < j < spec_btree_map_iter(map).remaining().len() ==> *(
            #[trigger] spec_btree_map_iter(map).remaining()[i]).0 < *(
            #[trigger] spec_btree_map_iter(map).remaining()[j]).0,
        forall|i: int|
            0 <= i < spec_btree_map_iter(map).remaining().len() ==> {
                let kv = #[trigger] spec_btree_map_iter(map).remaining()[i];
                map@.contains_key(*kv.0) && map@[*kv.0] == *kv.1
            },
        forall|k: u32| #[trigger]
            map@.contains_key(k) ==> exists|i: int|
                0 <= i < spec_btree_map_iter(map).remaining().len() && *(
                #[trigger] spec_btree_map_iter(map).remaining()[i]).0 == k,
{
    broadcast use vstd::laws_cmp::group_laws_cmp;

    let r = spec_btree_map_iter(map).remaining();
    let keys = r.map_values(|kv: (&u32, &String)| *kv.0);
    assert forall|i: int, j: int| 0 <= i < j < r.len() implies *(#[trigger] r[i]).0 < *(
    #[trigger] r[j]).0 by {
        assert(keys[i] == *r[i].0);
        assert(keys[j] == *r[j].0);
        assert(keys[i].cmp_spec(&keys[j]) is Less);
    }
    assert forall|i: int| 0 <= i < r.len() implies {
        let kv = #[trigger] r[i];
        map@.contains_key(*kv.0) && map@[*kv.0] == *kv.1
    } by {
        assert(map@.contains_key(*r[i].0) && map@[*r[i].0] == *r[i].1);
    }
    assert forall|k: u32| #[trigger] map@.contains_key(k) implies exists|i: int|
        0 <= i < r.len() && *(#[trigger] r[i]).0 == k by {
        assert(r.contains((&k, &map@[k])));
        let i = choose|i: int| 0 <= i < r.len() && r[i] == (&k, &map@[k]);
        assert(*r[i].0 == k);
    }
}

impl Memtable {
    /// An empty memtable.
    pub fn new() -> (table: Memtable)
        ensures
            table@ == Map::<u32, Seq<char>>::empty(),
    {
        let table = Memtable { map: BTreeMap::new() };
        assert(table@ =~= Map::<u32, Seq<char>>::empty());
        table
    }

    /// Stores `value` under `key`, in place of what the key held.
    pub fn put(&mut self, key: u32, value: String)
        ensures
            final(self)@ == old(self)@.insert(key, value@),
    {
        broadcast use vstd::laws_cmp::group_laws_cmp;

        self.map.insert(key, value);
        assert(self@ =~= old(self)@.insert(key, value@));
    }

    /// What the memtable holds under `key`, if anything.
    pub fn get(&self, key: u32) -> (r: Option<String>)
        ensures
            match r {
                Some(value) => value_at(self@, key) == Some(value@),
                None => value_at(self@, key) is None,
            },
    {
        broadcast use vstd::laws_cmp::group_laws_cmp;

        match self.map.get(&key) {
            Some(value) => Some(value.clone()),
            None => None,
        }
    }

    /// Whether the memtable holds `key`.
    pub fn contains(&self, key: u32) -> (r: bool)
        ensures
            r == self@.contains_key(key),
    {
        broadcast use vstd::laws_cmp::group_laws_cmp;

        self.map.contains_key(&key)
    }

    /// How many keys the memtable holds.
    pub fn len(&self) -> (n: usize)
        ensures
            self@.dom().finite(),
            n == self@.len(),
    {
        broadcast use vstd::laws_cmp::group_laws_cmp;

        assert(self@.dom() =~= self.map@.dom());
        self.map.len()
    }

    /// Whether the memtable holds nothing.
    pub fn is_empty(&self) -> (r: bool)
        ensures
            r == (self@ == Map::<u32, Seq<char>>::empty()),
    {
        let r = self.map.is_empty();
        proof {
            if r {
                assert(self.map@ =~= Map::<u32, String>::empty());
                assert(self@ =~= Map::<u32, Seq<char>>::empty());
            } else {
                assert(self@.dom() =~= self.map@.dom());
            }
        }
        r
    }

    /// Drops every entry.
    pub fn clear(&mut self)
        ensures
            final(self)@ == Map::<u32, Seq<char>>::empty(),
    {
        self.map.clear();
        assert(self@ =~= Map::<u32, Seq<char>>::empty());
    }

    /// The entries in ascending order of their keys: the one ascending run
    /// that stands for exactly what the memtable holds.
    pub fn iterate(&self) -> (records: Vec<Record>)
        ensures
            entries(records@) == stream_of(self@),
            ascending(entries(records@)),
            as_map(entries(records@)) == self@,
            records.len() == self@.len(),
    {
        broadcast use vstd::laws_cmp::group_laws_cmp;

        let mut records: Vec<Record> = Vec::new();
        assert(key_obeys_cmp_spec::<u32>());
        for kv in it: self.map.iter()
            invariant
                it.seq() == spec_btree_map_iter(&self.map).remaining(),
                records.len() == it.index(),
                forall|i: int|
                    0 <= i < records.len() ==> records[i].key == *(#[trigger] it.seq()[i]).0
                        && records[i].value == *it.seq()[i].1,
        {
            let (key, value) = kv;
            records.push(Record { key: *key, value: value.clone() });
        }
        proof {
            let es = entries(records@);
            let r = spec_btree_map_iter(&self.map).remaining();
            lemma_walk(&self.map);
            assert forall|i: int, j: int| 0 <= i < j < es.len() implies es[i].0 < es[j].0 by {
                assert(*r[i].0 < *r[j].0);
            }
            lemma_as_map_keys(es);
            lemma_as_map_ascending(es);
            assert forall|k: u32| as_map(es).contains_key(k) <==> self@.contains_key(k) by {
                if as_map(es).contains_key(k) {
                    let i = choose|i: int| 0 <= i < es.len() && (#[trigger] es[i]).0 == k;
                    assert(self.map@.contains_key(*r[i].0));
                }
                if self@.contains_key(k) {
                    assert(self.map@.contains_key(k));
                    let i = choose|i: int| 0 <= i < r.len() && *(#[trigger] r[i]).0 == k;
                    assert(es[i].0 == k);
                }
            }
            assert forall|k: u32| as_map(es).contains_key(k) implies as_map(es)[k] == self@[k] by {
                let i = choose|i: int| 0 <= i < es.len() && (#[trigger] es[i]).0 == k;
                assert(self.map@[*r[i].0] == *r[i].1);
                assert(as_map(es)[es[i].0] == es[i].1);
            }
            assert(as_map(es) =~= self@);
            assert(self@.dom() =~= self.map@.dom());
            lemma_stream_of(es);
        }
        records
    }

    /// The keys in ascending order.
    pub fn keys(&self) -> (keys: Vec<u32>)
        ensures
            keys@.to_set() == self@.dom(),
            keys.len() == self@.len(),
            forall|i: int, j: int| 0 <= i < j < keys.len() ==> keys[i] < keys[j],
    {
        let records = self.iterate();
        let mut keys: Vec<u32> = Vec::new();
        let mut i: usize = 0;
        while i < records.len()
            invariant
                i <= records.len(),
                keys.len() == i,
                forall|j: int| 0 <= j < i ==> keys[j] == records[j].key,
            decreases records.len() - i,
        {
            keys.push(records[i].key);
            i = i + 1;
        }
        proof {
            let es = entries(records@);
            lemma_as_map_keys(es);
            assert forall|i: int, j: int| 0 <= i < j < keys.len() implies keys[i] < keys[j] by {
                assert(es[i].0 < es[j].0);
            }
            assert forall|k: u32| keys@.to_set().contains(k) <==> self@.dom().contains(k) by {
                if keys@.to_set().contains(k) {
                    let j = choose|j: int| 0 <= j < keys.len() && keys[j] == k;
                    assert(es[j].0 == k);
                }
                if self@.dom().contains(k) {
                    let j = choose|j: int| 0 <= j < es.len() && (#[trigger] es[j]).0 == k;
                    assert(keys[j] == k);
                }
            }
            assert(keys@.to_set() =~= self@.dom());
        }
        keys
    }
}

} // verus!
