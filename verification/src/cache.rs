//! The two bounded caches a handle owns: decoded objects keyed by id, and
//! decoded archive bases keyed by archive identity and offset. Both are
//! exclusively owned by one handle and evict their oldest entry when full.
use vstd::prelude::*;
use crate::archive::{decode_spec, Archive};
use crate::bytes::{bytes_eq, copy_bytes};
use crate::object::{Kind, Object, ObjectId};

verus! {

/// A cached decoded base: which archive it came from, at which offset, and
/// what it decoded to.
pub struct BaseSlot {
    pub archive: u64,
    pub offset: usize,
    pub kind: Kind,
    pub bytes: Vec<u8>,
}

/// The archive-base-object cache used while resolving delta chains.
pub struct PackCache {
    pub entries: Vec<BaseSlot>,
    pub capacity: usize,
}

impl PackCache {
    pub open spec fn wf(&self) -> bool {
        self.entries@.len() <= self.capacity as int
    }

    /// A slot that claims to come from this archive holds exactly what the
    /// archive decodes to at that offset.
    pub open spec fn slot_ok(s: BaseSlot, a: Archive) -> bool {
        s.archive == a.id ==> decode_spec(a, s.offset as int) == Some((s.kind, s.bytes@))
    }

    pub open spec fn ok_for(&self, a: Archive) -> bool {
        forall|i: int|
            0 <= i < self.entries@.len() ==> Self::slot_ok(#[trigger] self.entries@[i], a)
    }

    /// Every slot either was already present or was filled from the named
    /// archive; nothing else creeps in.
    pub open spec fn evolved_from(&self, prev: PackCache, aid: u64) -> bool {
        forall|i: int|
            0 <= i < self.entries@.len() ==> (#[trigger] self.entries@[i]).archive == aid
                || exists|j: int|
                0 <= j < prev.entries@.len() && prev.entries@[j] == self.entries@[i]
    }

    /// A cache bounded by `capacity` entries; zero keeps the tier empty.
    pub fn new(capacity: usize) -> (r: PackCache)
        ensures
            r.wf(),
            r.entries@.len() == 0,
            r.capacity == capacity,
    {
        PackCache { entries: Vec::new(), capacity }
    }

    pub fn get(&self, archive: u64, offset: usize) -> (r: Option<(Kind, Vec<u8>)>)
        ensures
            match r {
                Some((k, b)) => exists|i: int|
                    0 <= i < self.entries@.len() && (#[trigger] self.entries@[i]).archive
                        == archive && self.entries@[i].offset == offset
                        && self.entries@[i].kind == k && self.entries@[i].bytes@ == b@,
                None => true,
            },
    {
        let mut i: usize = 0;
        while i < self.entries.len()
            invariant
                i <= self.entries@.len(),
            decreases self.entries@.len() - i,
        {
            if self.entries[i].archive == archive && self.entries[i].offset == offset {
                let k = self.entries[i].kind;
                let b = copy_bytes(&self.entries[i].bytes);
                return Some((k, b));
            }
            i += 1;
        }
        None
    }

    pub fn put(&mut self, archive: u64, offset: usize, kind: Kind, bytes: Vec<u8>)
        requires
            old(self).wf(),
        ensures
            final(self).wf(),
            final(self).capacity == old(self).capacity,
            forall|i: int|
                0 <= i < final(self).entries@.len() ==> (#[trigger] final(self).entries@[i])
                    == (BaseSlot { archive, offset, kind, bytes }) || exists|j: int|
                    0 <= j < old(self).entries@.len() && old(self).entries@[j] == final(self).entries@[i],
    {
        if self.capacity == 0 {
            return ;
        }
        if self.entries.len() >= self.capacity {
            self.entries.remove(0);
        }
        self.entries.push(BaseSlot { archive, offset, kind, bytes });
    }
}

/// A cached decoded object keyed by its id.
pub struct ObjectSlot {
    pub id: ObjectId,
    pub kind: Kind,
    pub bytes: Vec<u8>,
}

/// The decoded-object cache a handle consults before touching the backing
/// store.
pub struct ObjectCache {
    pub entries: Vec<ObjectSlot>,
    pub capacity: usize,
}

impl ObjectCache {
    pub open spec fn wf(&self) -> bool {
        self.entries@.len() <= self.capacity as int
    }

    pub fn new(capacity: usize) -> (r: ObjectCache)
        ensures
            r.wf(),
            r.entries@.len() == 0,
            r.capacity == capacity,
    {
        ObjectCache { entries: Vec::new(), capacity }
    }

    pub fn get(&self, id: &ObjectId) -> (r: Option<Object>)
        ensures
            match r {
                Some(o) => exists|i: int|
                    0 <= i < self.entries@.len() && (#[trigger] self.entries@[i]).id@ == id@
                        && self.entries@[i].kind == o.kind && self.entries@[i].bytes@ == o.data@,
                None => true,
            },
    {
        let mut i: usize = 0;
        while i < self.entries.len()
            invariant
                i <= self.entries@.len(),
            decreases self.entries@.len() - i,
        {
            if bytes_eq(self.entries[i].id.as_bytes(), id.as_bytes()) {
                let k = self.entries[i].kind;
                let b = copy_bytes(&self.entries[i].bytes);
                return Some(Object { kind: k, data: b });
            }
            i += 1;
        }
        None
    }

    pub fn put(&mut self, id: ObjectId, kind: Kind, bytes: Vec<u8>)
        requires
            old(self).wf(),
        ensures
            final(self).wf(),
            final(self).capacity == old(self).capacity,
            forall|i: int|
                0 <= i < final(self).entries@.len() ==> (#[trigger] final(self).entries@[i])
                    == (ObjectSlot { id, kind, bytes }) || exists|j: int|
                    0 <= j < old(self).entries@.len() && old(self).entries@[j] == final(self).entries@[i],
    {
        if self.capacity == 0 {
            return ;
        }
        if self.entries.len() >= self.capacity {
            self.entries.remove(0);
        }
        self.entries.push(ObjectSlot { id, kind, bytes });
    }
}

} // verus!
