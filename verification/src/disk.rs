//! A snapshot of the object directories the store works over: for each
//! directory, its individual compressed object files, the archives found in
//! it, and the lines of its alternates link file. The boundary that reads
//! the real filesystem fills this in; every rule about what the contents
//! mean lives here, verified.
use vstd::prelude::*;
use crate::archive::Archive;
use crate::bytes::bytes_eq;
use crate::digest::sha1_of;
use crate::object::{
    id_of, encode_spec, parse_obj, parse_object, FindError, Kind, Lookup, Object, ObjectId,
    ID_LEN,
};
use crate::zlib::{deflate_of, inflate_of, zlib_compress, zlib_decompress};

verus! {

/// One individual object file: the id its path derives from, and the
/// compressed bytes stored at that path.
pub struct LooseFile {
    pub id: ObjectId,
    pub bytes: Vec<u8>,
}

/// Presence of a file implies its bytes decompress and re-hash to exactly
/// its id; integrity is positional, not re-verified on every read.
pub open spec fn loose_file_ok(f: LooseFile) -> bool {
    &&& f.id@.len() == ID_LEN
    &&& inflate_of(f.bytes@) is Some
    &&& sha1_of(inflate_of(f.bytes@).unwrap()) == f.id@
}

/// One object directory: its canonical path, its individual object files,
/// the archives discovered in it (kept newest first, the search order), and
/// the lines of its alternates link file.
pub struct DirContents {
    pub path: Vec<u8>,
    pub loose: Vec<LooseFile>,
    pub archives: Vec<Archive>,
    pub alternates: Vec<Vec<u8>>,
}

impl DirContents {
    pub open spec fn wf(&self) -> bool {
        &&& forall|i: int, j: int|
            0 <= i < j < self.loose@.len() ==> (#[trigger] self.loose@[i]).id@ != (
            #[trigger] self.loose@[j]).id@
        &&& forall|i: int| 0 <= i < self.loose@.len() ==> loose_file_ok(#[trigger] self.loose@[i])
        &&& forall|k: int| 0 <= k < self.archives@.len() ==> (#[trigger] self.archives@[k]).wf()
    }

    pub open spec fn has_loose(&self, id: Seq<u8>) -> bool {
        exists|i: int| 0 <= i < self.loose@.len() && (#[trigger] self.loose@[i]).id@ == id
    }

    pub open spec fn loose_bytes(&self, id: Seq<u8>) -> Seq<u8> {
        self.loose@[choose|i: int|
            0 <= i < self.loose@.len() && (#[trigger] self.loose@[i]).id@ == id].bytes@
    }

    pub proof fn lemma_loose_at(&self, id: Seq<u8>, i: int)
        requires
            self.wf(),
            0 <= i < self.loose@.len(),
            self.loose@[i].id@ == id,
        ensures
            self.has_loose(id),
            self.loose_bytes(id) == self.loose@[i].bytes@,
    {
        let j = choose|j: int| 0 <= j < self.loose@.len() && (#[trigger] self.loose@[j]).id@ == id;
        if i < j {
            assert(self.loose@[i].id@ != self.loose@[j].id@);
        } else if j < i {
            assert(self.loose@[j].id@ != self.loose@[i].id@);
        }
    }
}

/// The world of object directories reachable through alternates links.
pub struct DiskState {
    pub dirs: Vec<DirContents>,
}

impl DiskState {
    /// Well-formed: every directory is, paths are canonical and so distinct,
    /// and archive identities are unique across the whole world.
    pub open spec fn wf(&self) -> bool {
        &&& forall|d: int| 0 <= d < self.dirs@.len() ==> (#[trigger] self.dirs@[d]).wf()
        &&& forall|d1: int, d2: int|
            0 <= d1 < d2 < self.dirs@.len() ==> (#[trigger] self.dirs@[d1]).path@ != (
            #[trigger] self.dirs@[d2]).path@
        &&& forall|d1: int, k1: int, d2: int, k2: int|
            0 <= d1 < self.dirs@.len() && 0 <= k1 < self.dirs@[d1].archives@.len() && 0 <= d2
                < self.dirs@.len() && 0 <= k2 < self.dirs@[d2].archives@.len() && (d1 != d2 || k1
                != k2) ==> (#[trigger] self.dirs@[d1].archives@[k1]).id != (
            #[trigger] self.dirs@[d2].archives@[k2]).id
    }
}

/// What the bytes of one individual object file yield: damaged if they do
/// not decompress or their header does not parse or the declared size
/// disagrees with the payload.
pub open spec fn loose_outcome(bytes: Seq<u8>) -> Lookup {
    match inflate_of(bytes) {
        None => Lookup::Bad,
        Some(enc) => match parse_obj(enc) {
            None => Lookup::Bad,
            Some((k, d)) => Lookup::Hit(k, d),
        },
    }
}

/// The outcome of probing a directory's individual object files for an id.
pub open spec fn loose_lookup(dir: DirContents, id: Seq<u8>) -> Lookup {
    if dir.has_loose(id) {
        loose_outcome(dir.loose_bytes(id))
    } else {
        Lookup::Miss
    }
}

/// Reads one id from a directory's individual object files: decompress,
/// parse the self-describing header, validate the declared size.
pub fn find_loose(dir: &DirContents, id: &ObjectId) -> (r: Result<Object, FindError>)
    requires
        dir.wf(),
    ensures
        match r {
            Ok(o) => loose_lookup(*dir, id@) == Lookup::Hit(o.kind, o.data@),
            Err(FindError::NotFound) => loose_lookup(*dir, id@) == Lookup::Miss,
            Err(FindError::Corrupt) => loose_lookup(*dir, id@) == Lookup::Bad,
        },
{
    let mut i: usize = 0;
    while i < dir.loose.len()
        invariant
            i <= dir.loose@.len(),
            dir.wf(),
            forall|k: int| 0 <= k < i ==> (#[trigger] dir.loose@[k]).id@ != id@,
        decreases dir.loose@.len() - i,
    {
        if bytes_eq(dir.loose[i].id.as_bytes(), id.as_bytes()) {
            proof {
                dir.lemma_loose_at(id@, i as int);
            }
            let enc = match zlib_decompress(&dir.loose[i].bytes) {
                None => {
                    return Err(FindError::Corrupt);
                },
                Some(enc) => enc,
            };
            return match parse_object(&enc) {
                Ok(o) => Ok(o),
                Err(e) => Err(e),
            };
        }
        i += 1;
    }
    proof {
        if dir.has_loose(id@) {
            let k = choose|k: int|
                0 <= k < dir.loose@.len() && (#[trigger] dir.loose@[k]).id@ == id@;
            assert(dir.loose@[k].id@ != id@);
        }
    }
    Err(FindError::NotFound)
}

/// What one write leaves behind: nothing new if the id's file already
/// exists — content addressing makes writes idempotent — otherwise exactly
/// one new file holding the compressed canonical serialization, at the path
/// the id derives.
pub open spec fn is_write_result(prev: DirContents, kind: Kind, data: Seq<u8>, cur: DirContents) -> bool {
    if prev.has_loose(id_of(kind, data)) {
        cur == prev
    } else {
        &&& cur.path@ == prev.path@
        &&& cur.archives@ == prev.archives@
        &&& cur.alternates@ == prev.alternates@
        &&& cur.loose@.len() == prev.loose@.len() + 1
        &&& cur.loose@.subrange(0, prev.loose@.len() as int) == prev.loose@
        &&& cur.loose@.last().id@ == id_of(kind, data)
        &&& cur.loose@.last().bytes@ == deflate_of(encode_spec(kind, data))
    }
}

/// Serializes, hashes, compresses, and stores an object as an individual
/// file, unless its file already exists. Returns the computed id together
/// with the relative path it lives at.
pub fn write_loose(dir: &mut DirContents, kind: Kind, data: &Vec<u8>) -> (r: ObjectId)
    requires
        old(dir).wf(),
    ensures
        final(dir).wf(),
        r@ == id_of(kind, data@),
        r.wf(),
        is_write_result(*old(dir), kind, data@, *final(dir)),
        final(dir).has_loose(id_of(kind, data@)),
        old(dir).has_loose(id_of(kind, data@)) && old(dir).loose_bytes(id_of(kind, data@))
            != deflate_of(encode_spec(kind, data@)) || loose_lookup(*final(dir), id_of(kind, data@))
            == Lookup::Hit(kind, data@),
{
    let enc = crate::object::encode_object(kind, data);
    let z = zlib_compress(&enc);
    let h = crate::digest::sha1_digest(&enc);
    let id = ObjectId::from_bytes(crate::bytes::copy_bytes(&h));
    proof {
        crate::object::lemma_parse_of_encode(kind, data@);
    }
    let mut i: usize = 0;
    while i < dir.loose.len()
        invariant
            i <= dir.loose@.len(),
            dir.wf(),
            id@ == id_of(kind, data@),
            enc@ == encode_spec(kind, data@),
            z@ == deflate_of(enc@),
            inflate_of(z@) == Some(enc@),
            parse_obj(enc@) == Some((kind, data@)),
            forall|k: int| 0 <= k < i ==> (#[trigger] dir.loose@[k]).id@ != id@,
        decreases dir.loose@.len() - i,
    {
        if bytes_eq(dir.loose[i].id.as_bytes(), id.as_bytes()) {
            proof {
                dir.lemma_loose_at(id@, i as int);
                if dir.loose_bytes(id@) == deflate_of(encode_spec(kind, data@)) {
                    assert(dir.loose_bytes(id@) == z@);
                    assert(inflate_of(dir.loose_bytes(id@)) == Some(enc@));
                    assert(loose_outcome(dir.loose_bytes(id@)) == Lookup::Hit(kind, data@));
                }
            }
            return id;
        }
        i += 1;
    }
    proof {
        if dir.has_loose(id@) {
            let k = choose|k: int| 0 <= k < dir.loose@.len() && (#[trigger] dir.loose@[k]).id@ == id@;
            assert(dir.loose@[k].id@ != id@);
        }
    }
    let ghost prev = *dir;
    let stored = ObjectId::from_bytes(h);
    dir.loose.push(LooseFile { id: stored, bytes: z });
    proof {
        let n = prev.loose@.len() as int;
        assert(dir.loose@.subrange(0, n) =~= prev.loose@);
        assert(dir.loose@.last().id@ == id_of(kind, data@));
        dir.lemma_loose_at(id@, n);
    }
    id
}

/// Writing the same logical object a second time returns the same id and
/// leaves the store exactly as the first write left it, occupying no
/// further space.
pub proof fn lemma_write_idempotent(d0: DirContents, d1: DirContents, kind: Kind, data: Seq<u8>)
    requires
        is_write_result(d0, kind, data, d1),
    ensures
        d1.has_loose(id_of(kind, data)),
        is_write_result(d1, kind, data, d1),
        d1.loose@.len() <= d0.loose@.len() + 1,
{
    if d0.has_loose(id_of(kind, data)) {
        assert(d1 == d0);
    } else {
        let n = d1.loose@.len() - 1;
        assert(d1.loose@[n].id@ == id_of(kind, data));
    }
}

} // verus!
