//! The key-value store: one mapping from values to values, compared by model.
use vstd::prelude::*;
use crate::value::{values_equal, RespValue, Val};

verus! {

/// The mapping that a list of entries denotes; a later entry for a key wins.
pub open spec fn map_of(entries: Seq<(RespValue, RespValue)>) -> Map<Val, Val>
    decreases entries.len(),
{
    if entries.len() == 0 {
        Map::empty()
    } else {
        map_of(entries.drop_last()).insert(entries.last().0@, entries.last().1@)
    }
}

/// No two entries have keys with equal models.
pub open spec fn keys_distinct(entries: Seq<(RespValue, RespValue)>) -> bool {
    forall|i: int, j: int|
        0 <= i < j < entries.len() ==> (#[trigger] entries[i]).0@ != (#[trigger] entries[j]).0@
}

/// The reply of a store write.
pub open spec fn ok_marker() -> Val {
    Val::Simple(seq![79u8, 75u8])
}

/// What a store read gives for `key` in `m`: the stored value, or the null bulk
/// string when the key was never written.
pub open spec fn lookup(m: Map<Val, Val>, key: Val) -> Val {
    if m.contains_key(key) {
        m[key]
    } else {
        Val::Bulk(None)
    }
}

/// A failure of the store; the in-memory store never produces one.
#[derive(Debug, Clone, Copy, PartialEq, Eq, Structural)]
pub enum StoreError {
    Failed,
    NotFound,
}

/// The single keyspace: a mapping from values to values, unbounded, without expiry.
pub struct Store {
    entries: Vec<(RespValue, RespValue)>,
}

impl View for Store {
    type V = Map<Val, Val>;

    closed spec fn view(&self) -> Map<Val, Val> {
        map_of(self.entries@)
    }
}

proof fn lemma_map_of_has(s: Seq<(RespValue, RespValue)>, i: int)
    requires
        keys_distinct(s),
        0 <= i < s.len(),
    ensures
        map_of(s).contains_key(s[i].0@),
        map_of(s)[s[i].0@] == s[i].1@,
    decreases s.len(),
{
    if i < s.len() - 1 {
        lemma_map_of_has(s.drop_last(), i);
    }
}

proof fn lemma_map_of_lacks(s: Seq<(RespValue, RespValue)>, k: Val)
    requires
        forall|i: int| 0 <= i < s.len() ==> (#[trigger] s[i]).0@ != k,
    ensures
        !map_of(s).contains_key(k),
    decreases s.len(),
{
    if s.len() > 0 {
        lemma_map_of_lacks(s.drop_last(), k);
    }
}

proof fn lemma_map_of_update(s: Seq<(RespValue, RespValue)>, i: int, e: (RespValue, RespValue))
    requires
        keys_distinct(s),
        0 <= i < s.len(),
        e.0@ == s[i].0@,
    ensures
        map_of(s.update(i, e)) == map_of(s).insert(e.0@, e.1@),
    decreases s.len(),
{
    let u = s.update(i, e);
    if i == s.len() - 1 {
        assert(u.drop_last() =~= s.drop_last());
        assert(map_of(u) =~= map_of(s).insert(e.0@, e.1@));
    } else {
        assert(u.drop_last() =~= s.drop_last().update(i, e));
        lemma_map_of_update(s.drop_last(), i, e);
        assert(s[i].0@ != s.last().0@);
        assert(map_of(u) =~= map_of(s).insert(e.0@, e.1@));
    }
}

impl Store {
    /// The store's invariant: no key is bound twice.
    pub closed spec fn wf(&self) -> bool {
        keys_distinct(self.entries@)
    }

    /// An empty store.
    pub fn new() -> (r: Store)
        ensures
            r.wf(),
            r@ == Map::<Val, Val>::empty(),
    {
        Store { entries: Vec::new() }
    }

    /// Binds `key` to `value`, replacing any value bound to an equal key, and
    /// answers OK.
    pub fn set(&mut self, key: &RespValue, value: &RespValue) -> (r: Result<RespValue, StoreError>)
        requires
            old(self).wf(),
        ensures
            final(self).wf(),
            final(self)@ == old(self)@.insert(key@, value@),
            r matches Ok(v) && v@ == ok_marker(),
    {
        let mut i: usize = 0;
        while i < self.entries.len()
            invariant
                i <= self.entries@.len(),
                self.entries@ == old(self).entries@,
                keys_distinct(self.entries@),
                forall|j: int| 0 <= j < i ==> (#[trigger] self.entries@[j]).0@ != key@,
            decreases self.entries@.len() - i,
        {
            if values_equal(&self.entries[i].0, key) {
                let entry = (key.duplicate(), value.duplicate());
                proof {
                    lemma_map_of_update(self.entries@, i as int, entry);
                    assert forall|a: int, b: int|
                        0 <= a < b < self.entries@.len() implies (#[trigger] self.entries@.update(
                        i as int,
                        entry,
                    )[a]).0@ != (#[trigger] self.entries@.update(i as int, entry)[b]).0@ by {}
                }
                self.entries.set(i, entry);
                return Ok(RespValue::SimpleString(vec![79u8, 75u8]));
            }
            i = i + 1;
        }
        let entry = (key.duplicate(), value.duplicate());
        proof {
            assert(self.entries@.push(entry).drop_last() =~= self.entries@);
        }
        self.entries.push(entry);
        Ok(RespValue::SimpleString(vec![79u8, 75u8]))
    }

    /// The value bound to `key`, or the null bulk string when there is none.
    /// A miss is an answer, not an error.
    pub fn get(&self, key: &RespValue) -> (r: Result<RespValue, StoreError>)
        requires
            self.wf(),
        ensures
            r matches Ok(v) && v@ == lookup(self@, key@),
    {
        let mut i: usize = 0;
        while i < self.entries.len()
            invariant
                i <= self.entries@.len(),
                keys_distinct(self.entries@),
                forall|j: int| 0 <= j < i ==> (#[trigger] self.entries@[j]).0@ != key@,
            decreases self.entries@.len() - i,
        {
            if values_equal(&self.entries[i].0, key) {
                proof {
                    lemma_map_of_has(self.entries@, i as int);
                }
                return Ok(self.entries[i].1.duplicate());
            }
            i = i + 1;
        }
        proof {
            lemma_map_of_lacks(self.entries@, key@);
        }
        Ok(RespValue::BulkString(None))
    }
}

impl Default for Store {
    fn default() -> (r: Store)
        ensures
            r.wf(),
            r@ == Map::<Val, Val>::empty(),
    {
        Store::new()
    }
}

} // verus!
