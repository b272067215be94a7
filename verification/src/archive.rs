//! Read-only multi-object archives: an immutable entry table paired with an
//! index sorted by id for binary search, and decoding of delta chains whose
//! bases sit at earlier offsets, with a caller-supplied cache of decoded
//! bases.
use vstd::prelude::*;
use crate::bytes::{bytes_cmp, copy_bytes, lemma_lex_asym, lex_lt};
use crate::cache::PackCache;
use crate::object::{FindError, Kind, Lookup, Object, ObjectId};

verus! {

/// One line of the index: an id and the offset of its entry in the archive.
pub struct IndexEntry {
    pub id: ObjectId,
    pub offset: usize,
}

/// One instruction of a delta: copy a range of the base, or splice in fresh
/// bytes.
pub enum DeltaOp {
    Copy { start: usize, len: usize },
    Insert { bytes: Vec<u8> },
}

/// One entry of an archive: a complete object, or a delta against the entry
/// at an earlier offset.
pub enum PackEntry {
    Full { kind: Kind, bytes: Vec<u8> },
    Delta { base: usize, ops: Vec<DeltaOp> },
}

/// An immutable archive plus its index. The pair is opened and replaced as a
/// unit, never mutated; `id` distinguishes archives from one another, for
/// keying cached bases.
pub struct Archive {
    pub id: u64,
    pub index: Vec<IndexEntry>,
    pub entries: Vec<PackEntry>,
}

/// A delta entry may only reference a base at a smaller offset.
pub open spec fn entry_ok(e: PackEntry, o: int) -> bool {
    match e {
        PackEntry::Delta { base, .. } => (base as int) < o,
        PackEntry::Full { .. } => true,
    }
}

impl Archive {
    /// Well-formed: the index is strictly sorted byte-wise, every offset is
    /// in range, and delta bases point backwards.
    pub open spec fn wf(&self) -> bool {
        &&& forall|i: int, j: int|
            0 <= i < j < self.index@.len() ==> lex_lt(
                #[trigger] self.index@[i].id@,
                #[trigger] self.index@[j].id@,
            )
        &&& forall|i: int|
            0 <= i < self.index@.len() ==> (#[trigger] self.index@[i].offset)
                < self.entries@.len()
        &&& forall|o: int|
            0 <= o < self.entries@.len() ==> entry_ok(#[trigger] self.entries@[o], o)
    }

    pub open spec fn has_id(&self, id: Seq<u8>) -> bool {
        exists|i: int| 0 <= i < self.index@.len() && #[trigger] self.index@[i].id@ == id
    }

    /// The offset the index maps an id to, if present.
    pub open spec fn locate_spec(&self, id: Seq<u8>) -> Option<usize> {
        if self.has_id(id) {
            Some(
                self.index@[choose|i: int|
                    0 <= i < self.index@.len() && #[trigger] self.index@[i].id@ == id].offset,
            )
        } else {
            None
        }
    }

    /// In a sorted index any row holding the id is the row the lookup
    /// returns.
    pub proof fn lemma_locate_at(&self, id: Seq<u8>, i: int)
        requires
            self.wf(),
            0 <= i < self.index@.len(),
            self.index@[i].id@ == id,
        ensures
            self.locate_spec(id) == Some(self.index@[i].offset),
    {
        let j = choose|j: int| 0 <= j < self.index@.len() && #[trigger] self.index@[j].id@ == id;
        if i < j {
            assert(lex_lt(self.index@[i].id@, self.index@[j].id@));
            lemma_lex_asym(id, id);
        } else if j < i {
            assert(lex_lt(self.index@[j].id@, self.index@[i].id@));
            lemma_lex_asym(id, id);
        }
    }

    /// Binary search over the sorted index.
    pub fn locate(&self, id: &ObjectId) -> (r: Option<usize>)
        requires
            self.wf(),
        ensures
            r == self.locate_spec(id@),
    {
        let mut lo: usize = 0;
        let mut hi: usize = self.index.len();
        while lo < hi
            invariant
                lo <= hi <= self.index@.len(),
                self.wf(),
                forall|i: int| 0 <= i < lo ==> (#[trigger] self.index@[i].id@) != id@,
                forall|i: int|
                    hi <= i < self.index@.len() ==> (#[trigger] self.index@[i].id@) != id@,
            decreases hi - lo,
        {
            let mid = lo + (hi - lo) / 2;
            let c = bytes_cmp(id.as_bytes(), self.index[mid].id.as_bytes());
            if c == 0 {
                proof {
                    self.lemma_locate_at(id@, mid as int);
                }
                return Some(self.index[mid].offset);
            } else if c < 0 {
                proof {
                    assert forall|i: int|
                        mid <= i < self.index@.len() implies (#[trigger] self.index@[i].id@)
                        != id@ by {
                        if self.index@[i].id@ == id@ {
                            if mid < i {
                                assert(lex_lt(self.index@[mid as int].id@, self.index@[i].id@));
                            }
                            lemma_lex_asym(id@, self.index@[mid as int].id@);
                        }
                    }
                }
                hi = mid;
            } else {
                proof {
                    assert forall|i: int| 0 <= i <= mid implies (#[trigger] self.index@[i].id@)
                        != id@ by {
                        if self.index@[i].id@ == id@ {
                            if i < mid {
                                assert(lex_lt(self.index@[i].id@, self.index@[mid as int].id@));
                            }
                            lemma_lex_asym(self.index@[mid as int].id@, id@);
                        }
                    }
                }
                lo = mid + 1;
            }
        }
        proof {
            if self.has_id(id@) {
                let i = choose|i: int|
                    0 <= i < self.index@.len() && #[trigger] self.index@[i].id@ == id@;
                assert(self.index@[i].id@ != id@);
            }
        }
        None
    }
}

// ---------------------------------------------------------------------------
// Delta application.
// ---------------------------------------------------------------------------

/// The bytes a delta reconstructs from its base, instruction by instruction;
/// nothing if a copy range reaches outside the base.
pub open spec fn apply_ops_spec(ops: Seq<DeltaOp>, base: Seq<u8>) -> Option<Seq<u8>>
    decreases ops.len(),
{
    if ops.len() == 0 {
        Some(Seq::empty())
    } else {
        match apply_ops_spec(ops.drop_last(), base) {
            None => None,
            Some(acc) => match ops.last() {
                DeltaOp::Copy { start, len } => if start + len <= base.len() {
                    Some(acc + base.subrange(start as int, start + len))
                } else {
                    None
                },
                DeltaOp::Insert { bytes } => Some(acc + bytes@),
            },
        }
    }
}

/// A failed prefix can never recover.
proof fn lemma_apply_prefix_none(ops: Seq<DeltaOp>, base: Seq<u8>, i: int)
    requires
        0 <= i <= ops.len(),
        apply_ops_spec(ops.subrange(0, i), base) is None,
    ensures
        apply_ops_spec(ops, base) is None,
    decreases ops.len() - i,
{
    if i < ops.len() {
        let e = ops.subrange(0, i + 1);
        assert(e.drop_last() =~= ops.subrange(0, i));
        lemma_apply_prefix_none(ops, base, i + 1);
    } else {
        assert(ops.subrange(0, i) =~= ops);
    }
}

pub fn apply_ops(ops: &Vec<DeltaOp>, base: &Vec<u8>) -> (r: Option<Vec<u8>>)
    ensures
        match r {
            Some(v) => apply_ops_spec(ops@, base@) == Some(v@),
            None => apply_ops_spec(ops@, base@) is None,
        },
{
    let mut out: Vec<u8> = Vec::new();
    let mut j: usize = 0;
    while j < ops.len()
        invariant
            j <= ops@.len(),
            apply_ops_spec(ops@.subrange(0, j as int), base@) == Some(out@),
        decreases ops@.len() - j,
    {
        let ghost prefix = ops@.subrange(0, j as int);
        let ghost next = ops@.subrange(0, j + 1);
        proof {
            assert(next.drop_last() =~= prefix);
            assert(next.last() == ops@[j as int]);
        }
        match &ops[j] {
            DeltaOp::Copy { start, len } => {
                let s: usize = *start;
                let l: usize = *len;
                if s > base.len() || l > base.len() - s {
                    proof {
                        assert(apply_ops_spec(next, base@) is None);
                        lemma_apply_prefix_none(ops@, base@, j + 1);
                    }
                    return None;
                }
                let bl = base.len();
                let mut k: usize = 0;
                let ghost before = out@;
                while k < l
                    invariant
                        k <= l,
                        s + l <= bl,
                        bl == base@.len(),
                        out@ == before + base@.subrange(s as int, s + k),
                    decreases l - k,
                {
                    out.push(base[s + k]);
                    k += 1;
                    proof {
                        assert(before + base@.subrange(s as int, s + k - 1) + seq![
                            base@[s + k - 1],
                        ] =~= before + base@.subrange(s as int, s + k));
                    }
                }
            },
            DeltaOp::Insert { bytes } => {
                let mut k: usize = 0;
                let ghost before = out@;
                while k < bytes.len()
                    invariant
                        k <= bytes@.len(),
                        out@ == before + bytes@.subrange(0, k as int),
                    decreases bytes@.len() - k,
                {
                    out.push(bytes[k]);
                    k += 1;
                    proof {
                        assert(before + bytes@.subrange(0, k - 1) + seq![bytes@[k - 1]] =~= before
                            + bytes@.subrange(0, k as int));
                    }
                }
                proof {
                    assert(before + bytes@.subrange(0, bytes@.len() as int) =~= before + bytes@);
                }
            },
        }
        j += 1;
    }
    proof {
        assert(ops@.subrange(0, ops@.len() as int) =~= ops@);
    }
    Some(out)
}

// ---------------------------------------------------------------------------
// Decoding with a base cache.
// ---------------------------------------------------------------------------

/// The object an archive entry decodes to: a full entry is itself, a delta
/// entry applies its instructions to its decoded base and keeps the base's
/// kind; damaged chains decode to nothing.
pub open spec fn decode_spec(a: Archive, o: int) -> Option<(Kind, Seq<u8>)>
    decreases o,
{
    if 0 <= o < a.entries@.len() {
        match a.entries@[o] {
            PackEntry::Full { kind, bytes } => Some((kind, bytes@)),
            PackEntry::Delta { base, ops } => if (base as int) < o {
                match decode_spec(a, base as int) {
                    None => None,
                    Some((k, b)) => match apply_ops_spec(ops@, b) {
                        None => None,
                        Some(d) => Some((k, d)),
                    },
                }
            } else {
                None
            },
        }
    } else {
        None
    }
}

/// Decodes the base chain below a delta, consulting the cache first for
/// every base and inserting newly decoded ones.
fn decode_base(a: &Archive, offset: usize, cache: &mut PackCache) -> (r: Result<Object, FindError>)
    requires
        a.wf(),
        offset < a.entries@.len(),
        old(cache).wf(),
        old(cache).ok_for(*a),
    ensures
        final(cache).wf(),
        final(cache).ok_for(*a),
        final(cache).evolved_from(*old(cache), a.id),
        match r {
            Ok(o) => decode_spec(*a, offset as int) == Some((o.kind, o.data@)),
            Err(e) => e == FindError::Corrupt && decode_spec(*a, offset as int) is None,
        },
    decreases offset,
{
    if let Some((k, b)) = cache.get(a.id, offset) {
        proof {
            let i = choose|i: int|
                0 <= i < cache.entries@.len() && (#[trigger] cache.entries@[i]).archive == a.id
                    && cache.entries@[i].offset == offset && cache.entries@[i].kind == k
                    && cache.entries@[i].bytes@ == b@;
            assert(PackCache::slot_ok(cache.entries@[i], *a));
        }
        return Ok(Object { kind: k, data: b });
    }
    match &a.entries[offset] {
        PackEntry::Full { kind, bytes } => {
            let k: Kind = *kind;
            let data = copy_bytes(bytes);
            cache.put(a.id, offset, k, copy_bytes(&data));
            Ok(Object { kind: k, data })
        },
        PackEntry::Delta { base, ops } => {
            let b = match decode_base(a, *base, cache) {
                Ok(b) => b,
                Err(e) => {
                    return Err(e);
                },
            };
            match apply_ops(ops, &b.data) {
                Some(d) => {
                    cache.put(a.id, offset, b.kind, copy_bytes(&d));
                    Ok(Object { kind: b.kind, data: d })
                },
                None => Err(FindError::Corrupt),
            }
        },
    }
}

/// Decodes the entry at an offset, resolving its delta chain through the
/// base cache; the archive itself is never written.
pub fn decode(a: &Archive, offset: usize, cache: &mut PackCache) -> (r: Result<Object, FindError>)
    requires
        a.wf(),
        offset < a.entries@.len(),
        old(cache).wf(),
        old(cache).ok_for(*a),
    ensures
        final(cache).wf(),
        final(cache).ok_for(*a),
        final(cache).evolved_from(*old(cache), a.id),
        match r {
            Ok(o) => decode_spec(*a, offset as int) == Some((o.kind, o.data@)),
            Err(e) => e == FindError::Corrupt && decode_spec(*a, offset as int) is None,
        },
{
    match &a.entries[offset] {
        PackEntry::Full { kind, bytes } => Ok(Object { kind: *kind, data: copy_bytes(bytes) }),
        PackEntry::Delta { base, ops } => {
            let b = match decode_base(a, *base, cache) {
                Ok(b) => b,
                Err(e) => {
                    return Err(e);
                },
            };
            match apply_ops(ops, &b.data) {
                Some(d) => Ok(Object { kind: b.kind, data: d }),
                None => Err(FindError::Corrupt),
            }
        },
    }
}

/// The outcome of probing one archive for an id.
pub open spec fn archive_lookup(a: Archive, id: Seq<u8>) -> Lookup {
    match a.locate_spec(id) {
        None => Lookup::Miss,
        Some(off) => match decode_spec(a, off as int) {
            Some((k, d)) => Lookup::Hit(k, d),
            None => Lookup::Bad,
        },
    }
}

/// Looks an id up in one archive: a miss is an expected outcome at this
/// layer, reported as `NotFound`.
pub fn find_in_archive(a: &Archive, id: &ObjectId, cache: &mut PackCache) -> (r: Result<
    Object,
    FindError,
>)
    requires
        a.wf(),
        old(cache).wf(),
        old(cache).ok_for(*a),
    ensures
        final(cache).wf(),
        final(cache).ok_for(*a),
        final(cache).evolved_from(*old(cache), a.id),
        match r {
            Ok(o) => archive_lookup(*a, id@) == Lookup::Hit(o.kind, o.data@),
            Err(FindError::NotFound) => archive_lookup(*a, id@) == Lookup::Miss,
            Err(FindError::Corrupt) => archive_lookup(*a, id@) == Lookup::Bad,
        },
{
    match a.locate(id) {
        None => Err(FindError::NotFound),
        Some(off) => decode(a, off, cache),
    }
}

} // verus!
