use vstd::prelude::*;

use crate::command::owned;

verus! {

/// A key-value store: reads look a key up, writes insert or overwrite.
pub trait KV {
    /// What the store holds, key to value.
    spec fn contents(&self) -> Map<Seq<char>, Seq<char>>;

    /// The store's internal invariant.
    spec fn well_formed(&self) -> bool;

    /// Writes `val` under `key`; returns whether `key` held a value before.
    fn store(&mut self, key: &str, val: &str) -> (existed: bool)
        requires
            old(self).well_formed(),
        ensures
            final(self).well_formed(),
            existed == old(self).contents().contains_key(key@),
            final(self).contents() == old(self).contents().insert(key@, val@),
    ;

    /// The value held under `key`, if any.
    fn get(&self, key: &str) -> (r: Option<&String>)
        requires
            self.well_formed(),
        ensures
            match r {
                Some(v) => self.contents().contains_key(key@) && v@ == self.contents()[key@],
                None => !self.contents().contains_key(key@),
            },
    ;
}

/// An in-memory store: a list of entries with distinct keys.
///
/// vstd specifies `HashMap` and `BTreeMap` only for key types whose hashing or ordering it
/// models (integers and the like), not `String`; a map keyed by `String` would let nothing be
/// proved of `store` and `get`, so the entries are kept in a `Vec` with the invariant
/// `keys_distinct`.
#[derive(Debug)]
pub struct MemKV {
    m: Vec<(String, String)>,
}

/// The map that a list of entries denotes; a later entry wins over an earlier one.
pub open spec fn map_of(e: Seq<(String, String)>) -> Map<Seq<char>, Seq<char>>
    decreases e.len(),
{
    if e.len() == 0 {
        Map::empty()
    } else {
        map_of(e.drop_last()).insert(e.last().0@, e.last().1@)
    }
}

pub open spec fn keys_distinct(e: Seq<(String, String)>) -> bool {
    forall|i: int, j: int| 0 <= i < j < e.len() ==> (#[trigger] e[i]).0@ != (#[trigger] e[j]).0@
}

proof fn lemma_map_of_has(e: Seq<(String, String)>, i: int)
    requires
        keys_distinct(e),
        0 <= i < e.len(),
    ensures
        map_of(e).contains_key(e[i].0@),
        map_of(e)[e[i].0@] == e[i].1@,
    decreases e.len(),
{
    if i < e.len() - 1 {
        let d = e.drop_last();
        assert(d[i] == e[i]);
        assert(e[i].0@ != e[e.len() - 1].0@);
        lemma_map_of_has(d, i);
    }
}

proof fn lemma_map_of_lacks(e: Seq<(String, String)>, k: Seq<char>)
    requires
        forall|i: int| 0 <= i < e.len() ==> (#[trigger] e[i]).0@ != k,
    ensures
        !map_of(e).contains_key(k),
    decreases e.len(),
{
    if e.len() > 0 {
        let d = e.drop_last();
        assert forall|i: int| 0 <= i < d.len() implies (#[trigger] d[i]).0@ != k by {
            assert(d[i] == e[i]);
        }
        lemma_map_of_lacks(d, k);
    }
}

proof fn lemma_map_of_update(e: Seq<(String, String)>, i: int, x: (String, String))
    requires
        0 <= i < e.len(),
        x.0@ == e[i].0@,
        keys_distinct(e),
    ensures
        map_of(e.update(i, x)) =~= map_of(e).insert(x.0@, x.1@),
    decreases e.len(),
{
    let u = e.update(i, x);
    let d = e.drop_last();
    if i == e.len() - 1 {
        assert(u.drop_last() =~= d);
    } else {
        assert(u.drop_last() =~= d.update(i, x));
        assert(d[i] == e[i]);
        assert(e[i].0@ != e[e.len() - 1].0@);
        lemma_map_of_update(d, i, x);
    }
}

impl MemKV {
    /// An empty store.
    pub fn new() -> (r: MemKV)
        ensures
            r.well_formed(),
            r.contents() == Map::<Seq<char>, Seq<char>>::empty(),
    {
        MemKV { m: Vec::new() }
    }

    /// Index of the entry for `key`, if there is one.
    fn find(&self, key: &String) -> (r: Option<usize>)
        requires
            keys_distinct(self.m@),
        ensures
            match r {
                Some(i) => i < self.m@.len() && self.m@[i as int].0@ == key@,
                None => forall|j: int| 0 <= j < self.m@.len() ==> (#[trigger] self.m@[j]).0@ != key@,
            },
    {
        let mut i: usize = 0;
        while i < self.m.len()
            invariant
                i <= self.m@.len(),
                forall|j: int| 0 <= j < i ==> (#[trigger] self.m@[j]).0@ != key@,
            decreases self.m@.len() - i,
        {
            if self.m[i].0 == *key {
                return Some(i);
            }
            i = i + 1;
        }
        None
    }
}

impl Default for MemKV {
    fn default() -> (r: MemKV)
        ensures
            r.well_formed(),
            r.contents() == Map::<Seq<char>, Seq<char>>::empty(),
    {
        MemKV::new()
    }
}

impl KV for MemKV {
    closed spec fn contents(&self) -> Map<Seq<char>, Seq<char>> {
        map_of(self.m@)
    }

    closed spec fn well_formed(&self) -> bool {
        keys_distinct(self.m@)
    }

    fn store(&mut self, key: &str, val: &str) -> (existed: bool) {
        let k = owned(key);
        let v = owned(val);
        match self.find(&k) {
            Some(i) => {
                proof {
                    lemma_map_of_has(self.m@, i as int);
                    lemma_map_of_update(self.m@, i as int, (k, v));
                }
                let ghost before = self.m@;
                self.m.set(i, (k, v));
                assert(forall|j: int| 0 <= j < self.m@.len() ==> (#[trigger] self.m@[j]).0@ == before[j].0@);
                true
            },
            None => {
                proof {
                    lemma_map_of_lacks(self.m@, k@);
                }
                let ghost before = self.m@;
                self.m.push((k, v));
                assert(self.m@.drop_last() =~= before);
                false
            },
        }
    }

    fn get(&self, key: &str) -> (r: Option<&String>) {
        let k = owned(key);
        match self.find(&k) {
            Some(i) => {
                proof {
                    lemma_map_of_has(self.m@, i as int);
                }
                Some(&self.m[i].1)
            },
            None => {
                proof {
                    lemma_map_of_lacks(self.m@, k@);
                }
                None
            },
        }
    }
}

} // verus!
