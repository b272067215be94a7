//! The unified lookup surface over one object directory and what it links
//! to: a frozen snapshot of which archives each resolved directory had when
//! it was scanned, searched individual files first, then archives newest
//! first, then each alternate, depth first. The first branch that answers
//! decides; damage is surfaced at once, never masked by a later branch.
use vstd::prelude::*;
use crate::archive::{archive_lookup, find_in_archive, Archive};
use crate::cache::PackCache;
use crate::disk::{find_loose, loose_lookup, DiskState};
use crate::object::{FindError, Lookup, Object, ObjectId};

verus! {

/// One resolved directory in the snapshot: its index in the world, and the
/// archives captured for it at scan time, in search order.
pub struct SnapDir {
    pub dir: usize,
    pub archives: Vec<usize>,
}

/// The immutable snapshot a lookup runs against. Individual object files
/// are read through live — a fresh write is visible at once — while the
/// archive set stays as scanned until the next refresh.
pub struct Compound {
    pub dirs: Vec<SnapDir>,
}

pub open spec fn snap_archive(disk: DiskState, sd: SnapDir, j: int) -> Archive {
    disk.dirs@[sd.dir as int].archives@[sd.archives@[j] as int]
}

impl Compound {
    pub open spec fn wf(&self, disk: DiskState) -> bool {
        &&& self.dirs@.len() >= 1
        &&& forall|d: int|
            0 <= d < self.dirs@.len() ==> ((#[trigger] self.dirs@[d]).dir as int)
                < disk.dirs@.len()
        &&& forall|d: int, j: int|
            0 <= d < self.dirs@.len() && 0 <= j < self.dirs@[d].archives@.len() ==> (
            #[trigger] self.dirs@[d].archives@[j] as int)
                < disk.dirs@[self.dirs@[d].dir as int].archives@.len()
    }
}

/// Probing a snapshot directory's archives from position `j` on: the first
/// archive that answers decides.
pub open spec fn dir_archives_from(disk: DiskState, sd: SnapDir, j: int, id: Seq<u8>) -> Lookup
    decreases sd.archives@.len() - j,
{
    if j < 0 || j >= sd.archives@.len() {
        Lookup::Miss
    } else {
        match archive_lookup(snap_archive(disk, sd, j), id) {
            Lookup::Miss => dir_archives_from(disk, sd, j + 1, id),
            Lookup::Hit(k, d) => Lookup::Hit(k, d),
            Lookup::Bad => Lookup::Bad,
        }
    }
}

/// One directory's outcome: its individual files first — the cheapest and
/// freshest location — then its archives.
pub open spec fn dir_lookup(disk: DiskState, sd: SnapDir, id: Seq<u8>) -> Lookup {
    match loose_lookup(disk.dirs@[sd.dir as int], id) {
        Lookup::Miss => dir_archives_from(disk, sd, 0, id),
        Lookup::Hit(k, d) => Lookup::Hit(k, d),
        Lookup::Bad => Lookup::Bad,
    }
}

pub open spec fn lookup_from(disk: DiskState, c: Compound, d: int, id: Seq<u8>) -> Lookup
    decreases c.dirs@.len() - d,
{
    if d < 0 || d >= c.dirs@.len() {
        Lookup::Miss
    } else {
        match dir_lookup(disk, c.dirs@[d], id) {
            Lookup::Miss => lookup_from(disk, c, d + 1, id),
            Lookup::Hit(k, dd) => Lookup::Hit(k, dd),
            Lookup::Bad => Lookup::Bad,
        }
    }
}

/// The defined outcome of a unified lookup: a miss only when every branch
/// misses; the first hit or the first damage otherwise.
pub open spec fn compound_lookup(disk: DiskState, c: Compound, id: Seq<u8>) -> Lookup {
    lookup_from(disk, c, 0, id)
}

/// Archives that miss contribute nothing to the probe order.
proof fn lemma_archives_skip(disk: DiskState, sd: SnapDir, id: Seq<u8>, m: int, i: int)
    requires
        0 <= m <= i <= sd.archives@.len(),
        forall|k: int|
            m <= k < i ==> archive_lookup(#[trigger] snap_archive(disk, sd, k), id)
                == Lookup::Miss,
    ensures
        dir_archives_from(disk, sd, m, id) == dir_archives_from(disk, sd, i, id),
    decreases i - m,
{
    if m < i {
        assert(archive_lookup(snap_archive(disk, sd, m), id) == Lookup::Miss);
        lemma_archives_skip(disk, sd, id, m + 1, i);
    }
}

/// The first-match tie-break: when several archives hold an entry for the
/// same id, a directory's lookup answers deterministically from whichever
/// archive stands earliest in the search order — later archives are never
/// consulted.
pub proof fn lemma_first_match_tie_break(disk: DiskState, sd: SnapDir, id: Seq<u8>, i: int)
    requires
        loose_lookup(disk.dirs@[sd.dir as int], id) == Lookup::Miss,
        0 <= i < sd.archives@.len(),
        forall|k: int|
            0 <= k < i ==> archive_lookup(#[trigger] snap_archive(disk, sd, k), id)
                == Lookup::Miss,
        archive_lookup(snap_archive(disk, sd, i), id) != Lookup::Miss,
    ensures
        dir_lookup(disk, sd, id) == archive_lookup(snap_archive(disk, sd, i), id),
{
    lemma_archives_skip(disk, sd, id, 0, i);
}

/// The base cache agrees with every archive of the world; archive
/// identities are unique, so an entry can only mean one thing.
pub open spec fn pack_cache_ok(cache: PackCache, disk: DiskState) -> bool {
    forall|d: int, k: int|
        0 <= d < disk.dirs@.len() && 0 <= k < disk.dirs@[d].archives@.len() ==> cache.ok_for(
            #[trigger] disk.dirs@[d].archives@[k],
        )
}

/// Decoding through one archive leaves the cache correct for every archive:
/// fresh slots carry the archive's own identity, which no other archive
/// shares.
proof fn lemma_cache_step(
    prev: PackCache,
    cur: PackCache,
    disk: DiskState,
    d: int,
    k: int,
)
    requires
        disk.wf(),
        0 <= d < disk.dirs@.len(),
        0 <= k < disk.dirs@[d].archives@.len(),
        cur.evolved_from(prev, disk.dirs@[d].archives@[k].id),
        cur.ok_for(disk.dirs@[d].archives@[k]),
        pack_cache_ok(prev, disk),
    ensures
        pack_cache_ok(cur, disk),
{
    let a = disk.dirs@[d].archives@[k];
    assert forall|d2: int, k2: int|
        0 <= d2 < disk.dirs@.len() && 0 <= k2 < disk.dirs@[d2].archives@.len() implies cur.ok_for(
        #[trigger] disk.dirs@[d2].archives@[k2],
    ) by {
        let b = disk.dirs@[d2].archives@[k2];
        assert(prev.ok_for(b));
        assert forall|i: int| 0 <= i < cur.entries@.len() implies PackCache::slot_ok(
            #[trigger] cur.entries@[i],
            b,
        ) by {
            if cur.entries@[i].archive == b.id {
                if cur.entries@[i].archive == a.id {
                    if d2 != d || k2 != k {
                        assert(disk.dirs@[d2].archives@[k2].id != disk.dirs@[d].archives@[k].id);
                    }
                    assert(b == a);
                    assert(PackCache::slot_ok(cur.entries@[i], a));
                } else {
                    let j = choose|j: int|
                        0 <= j < prev.entries@.len() && prev.entries@[j] == cur.entries@[i];
                    assert(PackCache::slot_ok(prev.entries@[j], b));
                }
            }
        }
    }
}

/// The unified find: individual files, archives, alternates, in the defined
/// order, threading the base cache through every archive decode.
pub fn compound_find(
    disk: &DiskState,
    c: &Compound,
    id: &ObjectId,
    cache: &mut PackCache,
) -> (r: Result<Object, FindError>)
    requires
        disk.wf(),
        c.wf(*disk),
        old(cache).wf(),
        pack_cache_ok(*old(cache), *disk),
    ensures
        final(cache).wf(),
        pack_cache_ok(*final(cache), *disk),
        match r {
            Ok(o) => compound_lookup(*disk, *c, id@) == Lookup::Hit(o.kind, o.data@),
            Err(FindError::NotFound) => compound_lookup(*disk, *c, id@) == Lookup::Miss,
            Err(FindError::Corrupt) => compound_lookup(*disk, *c, id@) == Lookup::Bad,
        },
{
    let mut d: usize = 0;
    while d < c.dirs.len()
        invariant
            disk.wf(),
            c.wf(*disk),
            cache.wf(),
            pack_cache_ok(*cache, *disk),
            d <= c.dirs@.len(),
            compound_lookup(*disk, *c, id@) == lookup_from(*disk, *c, d as int, id@),
        decreases c.dirs@.len() - d,
    {
        let ghost sd = c.dirs@[d as int];
        let dir_idx = c.dirs[d].dir;
        match find_loose(&disk.dirs[dir_idx], id) {
            Ok(o) => {
                return Ok(o);
            },
            Err(FindError::Corrupt) => {
                return Err(FindError::Corrupt);
            },
            Err(FindError::NotFound) => {
                let archive_count = c.dirs[d].archives.len();
                let mut j: usize = 0;
                while j < archive_count
                    invariant
                        disk.wf(),
                        c.wf(*disk),
                        cache.wf(),
                        pack_cache_ok(*cache, *disk),
                        (d as int) < c.dirs@.len(),
                        sd == c.dirs@[d as int],
                        dir_idx == sd.dir,
                        archive_count == sd.archives@.len(),
                        j <= archive_count,
                        loose_lookup(disk.dirs@[sd.dir as int], id@) == Lookup::Miss,
                        compound_lookup(*disk, *c, id@) == lookup_from(*disk, *c, d as int, id@),
                        dir_archives_from(*disk, sd, 0, id@) == dir_archives_from(
                            *disk,
                            sd,
                            j as int,
                            id@,
                        ),
                    decreases archive_count - j,
                {
                    let aj = c.dirs[d].archives[j];
                    let a = &disk.dirs[dir_idx].archives[aj];
                    proof {
                        assert(cache.ok_for(disk.dirs@[dir_idx as int].archives@[aj as int]));
                        assert(*a == snap_archive(*disk, sd, j as int));
                    }
                    let ghost prev = *cache;
                    let outcome = find_in_archive(a, id, cache);
                    proof {
                        lemma_cache_step(prev, *cache, *disk, dir_idx as int, aj as int);
                    }
                    match outcome {
                        Ok(o) => {
                            return Ok(o);
                        },
                        Err(FindError::Corrupt) => {
                            return Err(FindError::Corrupt);
                        },
                        Err(FindError::NotFound) => {
                            j += 1;
                        },
                    }
                }
                proof {
                    assert(dir_archives_from(*disk, sd, archive_count as int, id@)
                        == Lookup::Miss);
                    assert(dir_lookup(*disk, sd, id@) == Lookup::Miss);
                }
            },
        }
        d += 1;
    }
    proof {
        assert(lookup_from(*disk, *c, c.dirs@.len() as int, id@) == Lookup::Miss);
    }
    Err(FindError::NotFound)
}

} // verus!
