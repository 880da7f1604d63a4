//! The flat string store that settings, saved mounts and file associations live in.
//!
//! The WebGen registry is a plain key/value store grouped by namespace, with no way to list
//! keys. [`Store`] states what the logic relies on: a read gives back the last value written
//! under that namespace and key. [`MemoryRegistry`] is an in-memory store with that behaviour.
//! A store whose writes can fail (a registry on a read-only disk) keeps that promise only for
//! the writes that succeed; the logic here ignores a failed write, as the rest of the desktop
//! does.
use vstd::prelude::*;
use crate::text::str_eq;

verus! {

/// A namespaced string store.
pub trait Store {
    /// The value held under each (namespace, key).
    spec fn entries(&self) -> Map<(Seq<char>, Seq<char>), Seq<char>>;

    /// The value under `ns`/`key`, if one was ever written.
    fn get_string(&self, ns: &str, key: &str) -> (r: Option<String>)
        ensures
            r is Some <==> self.entries().contains_key((ns@, key@)),
            r matches Some(v) ==> v@ == self.entries()[(ns@, key@)],
    ;

    /// Writes `value` under `ns`/`key`, replacing what was there.
    fn set_string(&mut self, ns: &str, key: &str, value: &str)
        ensures
            final(self).entries() == old(self).entries().insert((ns@, key@), value@),
    ;
}

/// A store held in memory: a log of writes, the last write to a key winning.
pub struct MemoryRegistry {
    rows: Vec<(String, String, String)>,
}

/// The map that a log of writes leaves behind.
pub open spec fn written(rows: Seq<(String, String, String)>) -> Map<
    (Seq<char>, Seq<char>),
    Seq<char>,
>
    decreases rows.len(),
{
    if rows.len() == 0 {
        Map::empty()
    } else {
        written(rows.drop_last()).insert((rows.last().0@, rows.last().1@), rows.last().2@)
    }
}

impl MemoryRegistry {
    /// An empty store.
    pub fn new() -> (r: Self)
        ensures
            r.entries() == Map::<(Seq<char>, Seq<char>), Seq<char>>::empty(),
    {
        MemoryRegistry { rows: Vec::new() }
    }
}

impl Store for MemoryRegistry {
    closed spec fn entries(&self) -> Map<(Seq<char>, Seq<char>), Seq<char>> {
        written(self.rows@)
    }

    fn get_string(&self, ns: &str, key: &str) -> (r: Option<String>) {
        let mut i = self.rows.len();
        assert(self.rows@.subrange(0, i as int) =~= self.rows@);
        while i > 0
            invariant
                0 <= i <= self.rows@.len(),
                written(self.rows@).contains_key((ns@, key@)) == written(
                    self.rows@.subrange(0, i as int),
                ).contains_key((ns@, key@)),
                written(self.rows@).contains_key((ns@, key@)) ==> written(self.rows@)[(ns@, key@)]
                    == written(self.rows@.subrange(0, i as int))[(ns@, key@)],
            decreases i,
        {
            let ghost pre = self.rows@.subrange(0, i as int);
            assert(pre.drop_last() =~= self.rows@.subrange(0, i - 1));
            assert(pre.last() == self.rows@[i - 1]);
            let row = &self.rows[i - 1];
            if str_eq(row.0.as_str(), ns) && str_eq(row.1.as_str(), key) {
                return Some(row.2.clone());
            }
            i -= 1;
        }
        None
    }

    fn set_string(&mut self, ns: &str, key: &str, value: &str) {
        let row = (crate::text::owned(ns), crate::text::owned(key), crate::text::owned(value));
        self.rows.push(row);
        assert(self.rows@.drop_last() =~= old(self).rows@);
    }
}

} // verus!
