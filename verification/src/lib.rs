//! A content-addressable object store: immutable, kind-tagged records keyed
//! by the digest of their canonical bytes, held as individual compressed
//! files, inside multi-object archives with sorted indices, or in linked
//! ("alternate") store directories — one lookup surface over all of them,
//! with per-consumer caches and a bounded rescan policy for archives that
//! appear while the store is open.
use vstd::prelude::*;

pub mod alternates;
pub mod archive;
pub mod bytes;
pub mod cache;
pub mod compound;
pub mod digest;
pub mod disk;
pub mod dynamic;
pub mod hex;
pub mod object;
pub mod protocol;
pub mod zlib;

use crate::bytes::copy_bytes;
use crate::cache::{ObjectCache, PackCache};
use crate::compound::{compound_lookup, pack_cache_ok};
use crate::disk::{is_write_result, write_loose, DiskState};
use crate::dynamic::{scanned_from, RefreshMode, Slots, Store};
use crate::object::{encode_spec, id_of, FindError, Kind, Lookup, Object, ObjectId};
use crate::zlib::{deflate_of, zlib_compress};

verus! {

/// A way to access objects along with per-consumer caches for archive base
/// objects as well as decoded objects themselves. By default, no cache is
/// used.
pub struct Cache<S> {
    /// The inner provider the caches sit in front of.
    pub inner: S,
    pub object_cache: Option<ObjectCache>,
    pub pack_cache: Option<PackCache>,
}

/// A per-consumer handle to access any object.
pub type Handle = Cache<crate::dynamic::Handle>;

impl<S> Cache<S> {
    pub open spec fn no_caches(&self) -> bool {
        self.object_cache is None && self.pack_cache is None
    }

    /// Wraps a provider with no caches installed; each tier is then simply
    /// bypassed, with no behavioural difference besides cost.
    pub fn new(inner: S) -> (r: Cache<S>)
        ensures
            r.inner == inner,
            r.no_caches(),
    {
        Cache { inner, object_cache: None, pack_cache: None }
    }
}

impl Cache<crate::dynamic::Handle> {
    /// Every cached decoded object and cached archive base agrees with what
    /// the backing store answers; an absent cache is trivially in
    /// agreement.
    pub open spec fn caches_ok(&self, disk: DiskState) -> bool {
        &&& match self.object_cache {
            Some(c) => c.wf() && forall|i: int|
                0 <= i < c.entries@.len() ==> compound_lookup(
                    disk,
                    self.inner.store.snapshot,
                    (#[trigger] c.entries@[i]).id@,
                ) == Lookup::Hit(c.entries@[i].kind, c.entries@[i].bytes@),
            None => true,
        }
        &&& match self.pack_cache {
            Some(c) => c.wf() && pack_cache_ok(c, disk),
            None => true,
        }
    }

    /// Uninstalled caches agree with any store.
    pub proof fn lemma_no_caches_ok(&self, disk: DiskState)
        requires
            self.no_caches(),
        ensures
            self.caches_ok(disk),
    {
    }

    /// Installs a fresh decoded-object cache bounded by `capacity`.
    pub fn with_object_cache(self, capacity: usize) -> (r: Cache<crate::dynamic::Handle>)
        ensures
            r.inner == self.inner,
            forall|disk: DiskState|
                self.caches_ok(disk) ==> #[trigger] r.caches_ok(disk),
    {
        Cache { object_cache: Some(ObjectCache::new(capacity)), ..self }
    }

    /// Installs a fresh archive-base-object cache bounded by `capacity`.
    pub fn with_pack_cache(self, capacity: usize) -> (r: Cache<crate::dynamic::Handle>)
        ensures
            r.inner == self.inner,
            forall|disk: DiskState|
                self.caches_ok(disk) ==> #[trigger] r.caches_ok(disk),
    {
        Cache { pack_cache: Some(PackCache::new(capacity)), ..self }
    }

    /// Looks an object up through the caches: a cached hit answers without
    /// touching the backing store; a miss delegates to the shared store
    /// under this handle's refresh policy, threading the base cache into
    /// archive decodes and remembering what came back. Whether caches are
    /// installed never changes the value, only the cost.
    pub fn find(&mut self, disk: &DiskState, id: &ObjectId) -> (r: Result<Object, FindError>)
        requires
            disk.wf(),
            id.wf(),
            old(self).inner.store.wf(*disk),
            old(self).inner.store.generation < u64::MAX,
            old(self).caches_ok(*disk),
        ensures
            final(self).inner.store.wf(*disk),
            final(self).inner.refresh == old(self).inner.refresh,
            final(self).inner.store.root == old(self).inner.store.root,
            final(self).caches_ok(*disk),
            final(self).inner.store.generation <= old(self).inner.store.generation + 1,
            compound_lookup(*disk, old(self).inner.store.snapshot, id@) != Lookup::Miss || old(
                self,
            ).inner.refresh == RefreshMode::Never ==> final(self).inner.store == old(
                self,
            ).inner.store,
            match r {
                Ok(o) => compound_lookup(*disk, final(self).inner.store.snapshot, id@)
                    == Lookup::Hit(o.kind, o.data@),
                Err(FindError::NotFound) => compound_lookup(
                    *disk,
                    final(self).inner.store.snapshot,
                    id@,
                ) == Lookup::Miss,
                Err(FindError::Corrupt) => compound_lookup(
                    *disk,
                    final(self).inner.store.snapshot,
                    id@,
                ) == Lookup::Bad,
            },
    {
        match &self.object_cache {
            Some(oc) => {
                match oc.get(id) {
                    Some(o) => {
                        return Ok(o);
                    },
                    None => {},
                }
            },
            None => {},
        }
        let g0 = self.inner.store.generation;
        let mode = self.inner.refresh;
        let r = match &mut self.pack_cache {
            Some(c) => self.inner.store.find_with_refresh(disk, id, mode, c),
            None => {
                let mut tmp = PackCache::new(0);
                self.inner.store.find_with_refresh(disk, id, mode, &mut tmp)
            },
        };
        if self.inner.store.generation != g0 {
            match &mut self.object_cache {
                Some(oc) => {
                    oc.entries.clear();
                },
                None => {},
            }
        }
        match r {
            Ok(o) => {
                match &mut self.object_cache {
                    Some(oc) => {
                        let id2 = ObjectId::from_bytes(copy_bytes(id.as_bytes()));
                        oc.put(id2, o.kind, copy_bytes(&o.data));
                    },
                    None => {},
                }
                Ok(o)
            },
            Err(e) => Err(e),
        }
    }

    /// Stores one object as an individual file of the primary directory:
    /// serialize, hash, compress, and keep the file only if its id is new.
    /// Caches are neither consulted nor updated — a fresh write is read
    /// back from the store itself.
    pub fn write(&self, disk: &mut DiskState, kind: Kind, data: &Vec<u8>) -> (r: ObjectId)
        requires
            old(disk).wf(),
            self.inner.store.wf(*old(disk)),
        ensures
            final(disk).wf(),
            self.inner.store.wf(*final(disk)),
            r@ == id_of(kind, data@),
            r.wf(),
            final(disk).dirs@.len() == old(disk).dirs@.len(),
            forall|d: int|
                0 <= d < old(disk).dirs@.len() && d != self.inner.store.root as int
                    ==> final(disk).dirs@[d] == old(disk).dirs@[d],
            is_write_result(
                old(disk).dirs@[self.inner.store.root as int],
                kind,
                data@,
                final(disk).dirs@[self.inner.store.root as int],
            ),
            old(disk).dirs@[self.inner.store.root as int].has_loose(id_of(kind, data@))
                && old(disk).dirs@[self.inner.store.root as int].loose_bytes(id_of(kind, data@))
                != deflate_of(encode_spec(kind, data@)) || compound_lookup(
                *final(disk),
                self.inner.store.snapshot,
                id_of(kind, data@),
            ) == Lookup::Hit(kind, data@),
    {
        let root = self.inner.store.root;
        let ghost prev = *disk;
        let id = write_loose(&mut disk.dirs[root], kind, data);
        proof {
            let ri = root as int;
            assert(final(disk).dirs@ =~= prev.dirs@.update(ri, disk.dirs@[ri]));
            assert forall|d: int| 0 <= d < disk.dirs@.len() implies (#[trigger] disk.dirs@[d]).wf() by {
                if d != ri {
                    assert(disk.dirs@[d] == prev.dirs@[d]);
                }
            }
            assert(disk.wf());
            assert(self.inner.store.snapshot.wf(*disk));
            let c = self.inner.store.snapshot;
            let sd0 = c.dirs@[0];
            if crate::disk::loose_lookup(disk.dirs@[ri], id@) == Lookup::Hit(kind, data@) {
                assert(sd0.dir == root);
                assert(crate::compound::dir_lookup(*disk, sd0, id@) == Lookup::Hit(kind, data@));
                assert(crate::compound::lookup_from(*disk, c, 0, id@) == Lookup::Hit(
                    kind,
                    data@,
                ));
            }
        }
        id
    }
}

/// Cache transparency: the value a lookup returns is a function of the
/// world, the snapshot, and the id alone, so installing or disabling a
/// handle's caches changes only the cost of `find`, never its answer.
/// Concretely: every object a well-formed handle holds in its decoded
/// cache — the only tier that can answer without consulting the store — is
/// exactly the object that the lookup of a cacheless handle over the same
/// store defines for that id.
pub proof fn lemma_cache_transparency(h: Handle, bare: Handle, disk: DiskState, i: int)
    requires
        h.caches_ok(disk),
        bare.inner.store == h.inner.store,
        bare.no_caches(),
        h.object_cache is Some,
        0 <= i < h.object_cache.unwrap().entries@.len(),
    ensures
        compound_lookup(
            disk,
            bare.inner.store.snapshot,
            h.object_cache.unwrap().entries@[i].id@,
        ) == Lookup::Hit(
            h.object_cache.unwrap().entries@[i].kind,
            h.object_cache.unwrap().entries@[i].bytes@,
        ),
{
}

/// An object sink equivalent to a discarding device: ids are computed as
/// the real store computes them, content is optionally compressed to mirror
/// real costs, and nothing is ever retained.
pub struct Sink {
    compressing: bool,
}

/// Creates a new discarding sink with compression disabled.
pub fn sink() -> (r: Sink)
    ensures
        !r.is_compressing(),
{
    Sink { compressing: false }
}

impl Sink {
    pub closed spec fn is_compressing(&self) -> bool {
        self.compressing
    }

    /// Enables or disables the cost-mirroring compression pass.
    pub fn compress(self, enable: bool) -> (r: Sink)
        ensures
            r.is_compressing() == enable,
    {
        Sink { compressing: enable }
    }

    /// Computes the id the real store would compute, then discards the
    /// bytes.
    pub fn write(&self, kind: Kind, data: &Vec<u8>) -> (r: ObjectId)
        ensures
            r@ == id_of(kind, data@),
            r.wf(),
    {
        let enc = crate::object::encode_object(kind, data);
        if self.compressing {
            let _compressed = zlib_compress(&enc);
        }
        let h = crate::digest::sha1_digest(&enc);
        ObjectId::from_bytes(h)
    }

    /// Nothing is ever retained, so nothing is ever found.
    pub fn find(&self, id: &ObjectId) -> (r: Result<Object, FindError>)
        ensures
            r matches Err(e) && e == FindError::NotFound,
    {
        Err(FindError::NotFound)
    }
}

/// Opens a cached store handle rooted at a directory path, with a slots
/// hint; the path must name a directory of the world, else nothing opens.
pub fn at_opts(disk: &DiskState, objects_dir: &Vec<u8>, slots: Slots) -> (r: Option<Handle>)
    requires
        disk.wf(),
    ensures
        match r {
            Some(h) => {
                &&& h.inner.store.wf(*disk)
                &&& scanned_from(h.inner.store.snapshot, *disk, h.inner.store.root)
                &&& crate::alternates::dir_with_path(*disk, objects_dir@) == Some(
                    h.inner.store.root as int,
                )
                &&& h.inner.refresh == RefreshMode::AfterAllIndicesLoaded
                &&& h.inner.store.generation == 0
                &&& forall|dk: DiskState| #[trigger] h.caches_ok(dk)
            },
            None => crate::alternates::dir_with_path(*disk, objects_dir@) is None,
        },
{
    match Store::at_opts(disk, objects_dir, slots) {
        None => None,
        Some(s) => {
            let h = Cache::new(s.to_handle(RefreshMode::AfterAllIndicesLoaded));
            proof {
                assert forall|dk: DiskState| #[trigger] h.caches_ok(dk) by {
                    h.lemma_no_caches_ok(dk);
                }
            }
            Some(h)
        },
    }
}

/// Opens a cached store handle rooted at a directory path, with defaults.
pub fn at(disk: &DiskState, objects_dir: &Vec<u8>) -> (r: Option<Handle>)
    requires
        disk.wf(),
    ensures
        match r {
            Some(h) => {
                &&& h.inner.store.wf(*disk)
                &&& scanned_from(h.inner.store.snapshot, *disk, h.inner.store.root)
                &&& crate::alternates::dir_with_path(*disk, objects_dir@) == Some(
                    h.inner.store.root as int,
                )
                &&& h.inner.refresh == RefreshMode::AfterAllIndicesLoaded
                &&& h.inner.store.generation == 0
                &&& forall|dk: DiskState| #[trigger] h.caches_ok(dk)
            },
            None => crate::alternates::dir_with_path(*disk, objects_dir@) is None,
        },
{
    at_opts(disk, objects_dir, Slots::default())
}

} // verus!
