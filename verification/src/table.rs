//! The two association tables of a transcoding run.
//!
//! `SourceTable` is the read-only table of the source document, keyed by
//! `(number, generation)` identifiers.  `DedupTable` records which target
//! identifier was allocated for each source identifier, so that every
//! source object is materialized at most once however often it is
//! referenced.  Both are viewed as mathematical maps in which the latest
//! entry for a key wins.

use vstd::prelude::*;
use crate::object::Object;
use crate::object::ObjView;
use crate::object::SourceId;
use crate::object::view_obj;

verus! {

/// The map described by a list of `(key, object)` entries, later entries
/// overriding earlier ones.
pub open spec fn table_map(s: Seq<(SourceId, Object)>) -> Map<SourceId, ObjView>
    decreases s,
{
    if s.len() == 0 {
        Map::empty()
    } else {
        table_map(s.drop_last()).insert(s.last().0, view_obj(s.last().1))
    }
}

/// The map described by a list of `(key, identifier)` entries, later
/// entries overriding earlier ones.
pub open spec fn dedup_map(s: Seq<(SourceId, u64)>) -> Map<SourceId, u64>
    decreases s,
{
    if s.len() == 0 {
        Map::empty()
    } else {
        dedup_map(s.drop_last()).insert(s.last().0, s.last().1)
    }
}

/// The source document's object table, read once and then immutable for
/// the whole run.
pub struct SourceTable {
    entries: Vec<(SourceId, Object)>,
}

impl SourceTable {
    pub closed spec fn view(&self) -> Map<SourceId, ObjView> {
        table_map(self.entries@)
    }

    pub fn new() -> (r: SourceTable)
        ensures
            r@ == Map::<SourceId, ObjView>::empty(),
    {
        SourceTable { entries: Vec::new() }
    }

    /// Adds an object under `sid`, overriding any earlier entry.
    pub fn insert(&mut self, sid: SourceId, o: Object)
        ensures
            final(self)@ == old(self)@.insert(sid, view_obj(o)),
    {
        self.entries.push((sid, o));
        proof {
            assert(self.entries@.drop_last() =~= old(self).entries@);
        }
    }

    /// Looks `sid` up; `None` exactly when the table has no entry for it.
    pub fn get(&self, sid: SourceId) -> (r: Option<&Object>)
        ensures
            match r {
                Some(o) => self@.contains_key(sid) && view_obj(*o) == self@[sid],
                None => !self@.contains_key(sid),
            },
    {
        let mut i: usize = self.entries.len();
        proof {
            assert(self.entries@.subrange(0, i as int) =~= self.entries@);
        }
        while i > 0
            invariant
                i <= self.entries@.len(),
                table_map(self.entries@).contains_key(sid) ==> table_map(
                    self.entries@.subrange(0, i as int),
                ).contains_key(sid) && table_map(self.entries@.subrange(0, i as int))[sid]
                    == table_map(self.entries@)[sid],
                table_map(self.entries@.subrange(0, i as int)).contains_key(sid) ==> table_map(
                    self.entries@,
                ).contains_key(sid),
            decreases i,
        {
            i = i - 1;
            let ghost pre = self.entries@.subrange(0, i as int + 1);
            proof {
                assert(pre.drop_last() =~= self.entries@.subrange(0, i as int));
                assert(pre.last() == self.entries@[i as int]);
            }
            if self.entries[i].0 == sid {
                proof {
                    assert(table_map(pre)[sid] == view_obj(self.entries@[i as int].1));
                }
                return Some(&self.entries[i].1);
            }
        }
        proof {
            assert(self.entries@.subrange(0, 0) =~= Seq::<(SourceId, Object)>::empty());
        }
        None
    }
}

/// The per-run record of which target identifier stands for which source
/// identifier.
pub struct DedupTable {
    entries: Vec<(SourceId, u64)>,
}

impl DedupTable {
    pub closed spec fn view(&self) -> Map<SourceId, u64> {
        dedup_map(self.entries@)
    }

    pub fn new() -> (r: DedupTable)
        ensures
            r@ == Map::<SourceId, u64>::empty(),
    {
        DedupTable { entries: Vec::new() }
    }

    /// Records that `id` was allocated for `sid`.
    pub fn insert(&mut self, sid: SourceId, id: u64)
        ensures
            final(self)@ == old(self)@.insert(sid, id),
    {
        self.entries.push((sid, id));
        proof {
            assert(self.entries@.drop_last() =~= old(self).entries@);
        }
    }

    /// Looks `sid` up; `None` exactly when no identifier was recorded yet.
    pub fn get(&self, sid: SourceId) -> (r: Option<u64>)
        ensures
            match r {
                Some(id) => self@.contains_key(sid) && id == self@[sid],
                None => !self@.contains_key(sid),
            },
    {
        let mut i: usize = self.entries.len();
        proof {
            assert(self.entries@.subrange(0, i as int) =~= self.entries@);
        }
        while i > 0
            invariant
                i <= self.entries@.len(),
                dedup_map(self.entries@).contains_key(sid) ==> dedup_map(
                    self.entries@.subrange(0, i as int),
                ).contains_key(sid) && dedup_map(self.entries@.subrange(0, i as int))[sid]
                    == dedup_map(self.entries@)[sid],
                dedup_map(self.entries@.subrange(0, i as int)).contains_key(sid) ==> dedup_map(
                    self.entries@,
                ).contains_key(sid),
            decreases i,
        {
            i = i - 1;
            let ghost pre = self.entries@.subrange(0, i as int + 1);
            proof {
                assert(pre.drop_last() =~= self.entries@.subrange(0, i as int));
                assert(pre.last() == self.entries@[i as int]);
            }
            if self.entries[i].0 == sid {
                proof {
                    assert(dedup_map(pre)[sid] == self.entries@[i as int].1);
                }
                return Some(self.entries[i].1);
            }
        }
        proof {
            assert(self.entries@.subrange(0, 0) =~= Seq::<(SourceId, u64)>::empty());
        }
        None
    }
}

} // verus!
