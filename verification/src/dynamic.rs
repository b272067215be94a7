//! The shared, refreshable store: one snapshot over the resolved directory
//! chain, a generation counter bumped on every rescan, and a policy that
//! decides whether a miss triggers one rescan-and-retry — never more.
use vstd::prelude::*;
use crate::alternates::{dir_with_path, find_dir, order_closed, resolve_alternates, resolve_spec};
use crate::cache::PackCache;
use crate::compound::{compound_lookup, compound_find, pack_cache_ok, Compound, SnapDir};
use crate::disk::DiskState;
use crate::object::{FindError, Lookup, Object, ObjectId};

verus! {

/// When a miss may trigger a rescan of the archive directory: never, or
/// once per lookup after all known indices were already consulted.
#[derive(Clone, Copy, PartialEq, Eq, Structural, Debug)]
pub enum RefreshMode {
    Never,
    AfterAllIndicesLoaded,
}

/// How many archive slots to pre-allocate at opening: decided from the
/// directory itself, or given outright. Purely a capacity hint.
#[derive(Clone, Copy, PartialEq, Eq, Structural, Debug)]
pub enum Slots {
    AsNeededByDiskState,
    Given(u16),
}

impl Default for Slots {
    fn default() -> (r: Slots)
        ensures
            r == Slots::AsNeededByDiskState,
    {
        Slots::AsNeededByDiskState
    }
}

/// The search order a snapshot embodies, as directory indices.
pub open spec fn dir_order(c: Compound) -> Seq<usize> {
    c.dirs@.map_values(|sd: SnapDir| sd.dir)
}

/// What a fresh scan establishes: the primary first, every linked directory
/// exactly once with cycles truncated, and for each directory its complete
/// current archive list in the order the directory holds them.
pub open spec fn scanned_from(c: Compound, disk: DiskState, root: usize) -> bool {
    &&& c.wf(disk)
    &&& c.dirs@.len() >= 1
    &&& c.dirs@[0].dir == root
    &&& dir_order(c) == resolve_spec(disk, root)
    &&& forall|i: int, j: int|
        0 <= i < j < c.dirs@.len() ==> (#[trigger] c.dirs@[i]).dir != (#[trigger] c.dirs@[j]).dir
    &&& order_closed(disk, dir_order(c))
    &&& forall|d: int|
        0 <= d < c.dirs@.len() ==> (#[trigger] c.dirs@[d]).archives@.len()
            == disk.dirs@[c.dirs@[d].dir as int].archives@.len()
    &&& forall|d: int, j: int|
        0 <= d < c.dirs@.len() && 0 <= j < c.dirs@[d].archives@.len() ==> (
        #[trigger] c.dirs@[d].archives@[j]) == j
}

/// The first `n` positions, in order.
fn iota(n: usize) -> (r: Vec<usize>)
    ensures
        r@.len() == n,
        forall|j: int| 0 <= j < n ==> (#[trigger] r@[j]) == j,
{
    let mut r: Vec<usize> = Vec::new();
    let mut j: usize = 0;
    while j < n
        invariant
            j <= n,
            r@.len() == j,
            forall|k: int| 0 <= k < j ==> (#[trigger] r@[k]) == k,
        decreases n - j,
    {
        r.push(j);
        j += 1;
    }
    r
}

/// Builds a fresh snapshot: resolve the alternates chain, then capture each
/// directory's current archive set.
pub fn scan(disk: &DiskState, root: usize) -> (c: Compound)
    requires
        disk.wf(),
        (root as int) < disk.dirs@.len(),
    ensures
        scanned_from(c, *disk, root),
{
    let order = resolve_alternates(disk, root);
    let mut dirs: Vec<SnapDir> = Vec::new();
    let mut i: usize = 0;
    while i < order.len()
        invariant
            disk.wf(),
            i <= order@.len(),
            dirs@.len() == i,
            forall|k: int| 0 <= k < order@.len() ==> (#[trigger] order@[k] as int) < disk.dirs@.len(),
            forall|k: int| 0 <= k < i ==> (#[trigger] dirs@[k]).dir == order@[k],
            forall|k: int|
                0 <= k < i ==> (#[trigger] dirs@[k]).archives@.len()
                    == disk.dirs@[dirs@[k].dir as int].archives@.len(),
            forall|k: int, j: int|
                0 <= k < i && 0 <= j < dirs@[k].archives@.len() ==> (
                #[trigger] dirs@[k].archives@[j]) == j,
        decreases order@.len() - i,
    {
        let di = order[i];
        let archives = iota(disk.dirs[di].archives.len());
        dirs.push(SnapDir { dir: di, archives });
        i += 1;
    }
    let c = Compound { dirs };
    proof {
        assert(dir_order(c) =~= order@);
        assert(order_closed(*disk, dir_order(c)));
    }
    c
}

/// Two snapshots with the same directories and archive sets define the
/// same lookup outcome for every id.
pub proof fn lemma_snap_eq_lookup(disk: DiskState, c1: Compound, c2: Compound, id: Seq<u8>)
    requires
        snap_eq(c1, c2),
    ensures
        compound_lookup(disk, c1, id) == compound_lookup(disk, c2, id),
{
    lemma_lookup_from_eq(disk, c1, c2, 0, id);
}

proof fn lemma_archives_from_eq(
    disk: DiskState,
    sd1: SnapDir,
    sd2: SnapDir,
    j: int,
    id: Seq<u8>,
)
    requires
        sd1.dir == sd2.dir,
        sd1.archives@ == sd2.archives@,
    ensures
        crate::compound::dir_archives_from(disk, sd1, j, id) == crate::compound::dir_archives_from(
            disk,
            sd2,
            j,
            id,
        ),
    decreases sd1.archives@.len() - j,
{
    if 0 <= j < sd1.archives@.len() {
        assert(crate::compound::snap_archive(disk, sd1, j) == crate::compound::snap_archive(
            disk,
            sd2,
            j,
        ));
        lemma_archives_from_eq(disk, sd1, sd2, j + 1, id);
    }
}

proof fn lemma_lookup_from_eq(disk: DiskState, c1: Compound, c2: Compound, d: int, id: Seq<u8>)
    requires
        snap_eq(c1, c2),
    ensures
        crate::compound::lookup_from(disk, c1, d, id) == crate::compound::lookup_from(
            disk,
            c2,
            d,
            id,
        ),
    decreases c1.dirs@.len() - d,
{
    if 0 <= d < c1.dirs@.len() {
        lemma_archives_from_eq(disk, c1.dirs@[d], c2.dirs@[d], 0, id);
        assert(crate::compound::dir_lookup(disk, c1.dirs@[d], id)
            == crate::compound::dir_lookup(disk, c2.dirs@[d], id));
        lemma_lookup_from_eq(disk, c1, c2, d + 1, id);
    }
}

/// Rescanning is deterministic: any two snapshots scanned from the same
/// world and root — for instance by two handles that each refreshed on a
/// miss — answer every lookup identically, so a refresh can never make two
/// consumers disagree.
pub proof fn lemma_rescan_deterministic(
    disk: DiskState,
    root: usize,
    c1: Compound,
    c2: Compound,
    id: Seq<u8>,
)
    requires
        scanned_from(c1, disk, root),
        scanned_from(c2, disk, root),
    ensures
        compound_lookup(disk, c1, id) == compound_lookup(disk, c2, id),
{
    assert(dir_order(c1) == dir_order(c2));
    assert(dir_order(c1).len() == c1.dirs@.len());
    assert(dir_order(c2).len() == c2.dirs@.len());
    assert forall|d: int| 0 <= d < c1.dirs@.len() implies (#[trigger] c1.dirs@[d]).dir
        == c2.dirs@[d].dir && c1.dirs@[d].archives@ == c2.dirs@[d].archives@ by {
        assert(dir_order(c1)[d] == c1.dirs@[d].dir);
        assert(dir_order(c2)[d] == c2.dirs@[d].dir);
        let dd = c1.dirs@[d].dir as int;
        assert(c1.dirs@[d].archives@.len() == disk.dirs@[dd].archives@.len());
        assert(c2.dirs@[d].archives@.len() == disk.dirs@[dd].archives@.len());
        assert forall|j: int| 0 <= j < c1.dirs@[d].archives@.len() implies c1.dirs@[d].archives@[j]
            == c2.dirs@[d].archives@[j] by {
            assert(c1.dirs@[d].archives@[j] == j);
            assert(c2.dirs@[d].archives@[j] == j);
        }
        assert(c1.dirs@[d].archives@ =~= c2.dirs@[d].archives@);
    }
    assert(snap_eq(c1, c2));
    lemma_snap_eq_lookup(disk, c1, c2, id);
}

/// Two snapshots hold the same directories and archive sets.
pub open spec fn snap_eq(a: Compound, b: Compound) -> bool {
    &&& a.dirs@.len() == b.dirs@.len()
    &&& forall|d: int|
        0 <= d < a.dirs@.len() ==> (#[trigger] a.dirs@[d]).dir == b.dirs@[d].dir
            && a.dirs@[d].archives@ == b.dirs@[d].archives@
}

fn snap_equal(a: &Compound, b: &Compound) -> (r: bool)
    ensures
        r == snap_eq(*a, *b),
{
    if a.dirs.len() != b.dirs.len() {
        return false;
    }
    let mut d: usize = 0;
    while d < a.dirs.len()
        invariant
            d <= a.dirs@.len(),
            a.dirs@.len() == b.dirs@.len(),
            forall|k: int|
                0 <= k < d ==> (#[trigger] a.dirs@[k]).dir == b.dirs@[k].dir
                    && a.dirs@[k].archives@ == b.dirs@[k].archives@,
        decreases a.dirs@.len() - d,
    {
        if a.dirs[d].dir != b.dirs[d].dir {
            proof {
                assert((a.dirs@[d as int]).dir != b.dirs@[d as int].dir);
            }
            return false;
        }
        let x = &a.dirs[d].archives;
        let y = &b.dirs[d].archives;
        if x.len() != y.len() {
            proof {
                assert(x@.len() != y@.len());
                assert((a.dirs@[d as int]).archives@ != b.dirs@[d as int].archives@);
            }
            return false;
        }
        let mut j: usize = 0;
        while j < x.len()
            invariant
                j <= x@.len(),
                x@.len() == y@.len(),
                (d as int) < a.dirs@.len(),
                a.dirs@.len() == b.dirs@.len(),
                x@ == (a.dirs@[d as int]).archives@,
                y@ == b.dirs@[d as int].archives@,
                forall|k: int| 0 <= k < j ==> x@[k] == y@[k],
            decreases x@.len() - j,
        {
            if x[j] != y[j] {
                proof {
                    assert(x@[j as int] != y@[j as int]);
                    assert((a.dirs@[d as int]).archives@ != b.dirs@[d as int].archives@);
                }
                return false;
            }
            j += 1;
        }
        proof {
            assert(x@ =~= y@);
        }
        d += 1;
    }
    true
}

/// The unit shared by every consumer: the current snapshot plus a monotonic
/// generation counter that counts successful rescans.
pub struct Store {
    pub root: usize,
    pub snapshot: Compound,
    pub generation: u64,
}

impl Store {
    pub open spec fn wf(&self, disk: DiskState) -> bool {
        &&& (self.root as int) < disk.dirs@.len()
        &&& self.snapshot.wf(disk)
        &&& self.snapshot.dirs@[0].dir == self.root
    }

    /// Opens the store rooted at a directory path, with a slots hint; the
    /// path must name a directory of the world, else nothing opens.
    pub fn at_opts(disk: &DiskState, objects_dir: &Vec<u8>, slots: Slots) -> (r: Option<Store>)
        requires
            disk.wf(),
        ensures
            match r {
                Some(s) => {
                    &&& s.wf(*disk)
                    &&& scanned_from(s.snapshot, *disk, s.root)
                    &&& dir_with_path(*disk, objects_dir@) == Some(s.root as int)
                    &&& s.generation == 0
                },
                None => dir_with_path(*disk, objects_dir@) is None,
            },
    {
        let root = match find_dir(disk, objects_dir) {
            None => {
                return None;
            },
            Some(root) => root,
        };
        let snapshot = scan(disk, root);
        Some(Store { root, snapshot, generation: 0 })
    }

    /// Opens the store rooted at a directory path, with defaults.
    pub fn at(disk: &DiskState, objects_dir: &Vec<u8>) -> (r: Option<Store>)
        requires
            disk.wf(),
        ensures
            match r {
                Some(s) => {
                    &&& s.wf(*disk)
                    &&& scanned_from(s.snapshot, *disk, s.root)
                    &&& dir_with_path(*disk, objects_dir@) == Some(s.root as int)
                    &&& s.generation == 0
                },
                None => dir_with_path(*disk, objects_dir@) is None,
            },
    {
        Store::at_opts(disk, objects_dir, Slots::default())
    }

    /// Rescans the directory world, swapping in a fresh snapshot atomically
    /// and reporting whether anything changed; the generation rises on
    /// every rescan.
    pub fn refresh(&mut self, disk: &DiskState) -> (changed: bool)
        requires
            disk.wf(),
            old(self).wf(*disk),
            old(self).generation < u64::MAX,
        ensures
            final(self).wf(*disk),
            final(self).root == old(self).root,
            scanned_from(final(self).snapshot, *disk, final(self).root),
            final(self).generation == old(self).generation + 1,
            changed == !snap_eq(old(self).snapshot, final(self).snapshot),
    {
        let fresh = scan(disk, self.root);
        let changed = !snap_equal(&self.snapshot, &fresh);
        self.snapshot = fresh;
        self.generation = self.generation + 1;
        changed
    }

    /// One lookup under the refresh policy: probe the snapshot; on a miss,
    /// if the policy permits, rescan once and probe once more. A second
    /// miss is the answer — refresh happens at most once per call, never in
    /// a loop.
    pub fn find_with_refresh(
        &mut self,
        disk: &DiskState,
        id: &ObjectId,
        mode: RefreshMode,
        cache: &mut PackCache,
    ) -> (r: Result<Object, FindError>)
        requires
            disk.wf(),
            old(self).wf(*disk),
            old(self).generation < u64::MAX,
            old(cache).wf(),
            pack_cache_ok(*old(cache), *disk),
        ensures
            final(self).wf(*disk),
            final(self).root == old(self).root,
            final(cache).wf(),
            pack_cache_ok(*final(cache), *disk),
            final(self).generation <= old(self).generation + 1,
            compound_lookup(*disk, old(self).snapshot, id@) != Lookup::Miss || mode
                == RefreshMode::Never ==> *final(self) == *old(self),
            compound_lookup(*disk, old(self).snapshot, id@) == Lookup::Miss && mode
                == RefreshMode::AfterAllIndicesLoaded ==> scanned_from(
                final(self).snapshot,
                *disk,
                old(self).root,
            ) && final(self).generation == old(self).generation + 1,
            match r {
                Ok(o) => compound_lookup(*disk, final(self).snapshot, id@) == Lookup::Hit(
                    o.kind,
                    o.data@,
                ),
                Err(FindError::NotFound) => compound_lookup(*disk, final(self).snapshot, id@)
                    == Lookup::Miss,
                Err(FindError::Corrupt) => compound_lookup(*disk, final(self).snapshot, id@)
                    == Lookup::Bad,
            },
    {
        let first = compound_find(disk, &self.snapshot, id, cache);
        match first {
            Ok(o) => Ok(o),
            Err(FindError::Corrupt) => Err(FindError::Corrupt),
            Err(FindError::NotFound) => {
                match mode {
                    RefreshMode::Never => Err(FindError::NotFound),
                    RefreshMode::AfterAllIndicesLoaded => {
                        self.refresh(disk);
                        compound_find(disk, &self.snapshot, id, cache)
                    },
                }
            },
        }
    }

    /// A per-consumer view of this store under a fixed refresh policy; the
    /// caches on top come from the layer above.
    pub fn to_handle(self, refresh: RefreshMode) -> (r: Handle)
        ensures
            r.store == self,
            r.refresh == refresh,
    {
        Handle { store: self, refresh }
    }
}

/// One consumer's access point: the store plus its chosen refresh policy.
pub struct Handle {
    pub store: Store,
    pub refresh: RefreshMode,
}

} // verus!
