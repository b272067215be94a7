use std::io::Read;

use git_odb::archive::{Archive, DeltaOp, IndexEntry, PackEntry};
use git_odb::disk::{DirContents, DiskState, LooseFile};
use git_odb::dynamic::{RefreshMode, Slots, Store};
use git_odb::object::{FindError, Kind, ObjectId};

fn empty_dir(path: &[u8]) -> DirContents {
    DirContents { path: path.to_vec(), loose: Vec::new(), archives: Vec::new(), alternates: Vec::new() }
}

fn id20(first: &[u8]) -> ObjectId {
    let mut bytes = first.to_vec();
    while bytes.len() < 20 {
        bytes.push(0);
    }
    ObjectId::from_bytes(bytes)
}

#[test]
fn write_hello_twice() {
    let mut disk = DiskState { dirs: vec![empty_dir(b"/store")] };
    let handle = git_odb::at(&disk, &b"/store".to_vec()).unwrap();
    let id1 = handle.write(&mut disk, Kind::Blob, &b"hello".to_vec());
    let id2 = handle.write(&mut disk, Kind::Blob, &b"hello".to_vec());
    assert_eq!(id1, id2);
    assert_eq!(disk.dirs[0].loose.len(), 1);
    let hex = git_odb::hex::to_hex(id1.as_bytes());
    assert_eq!(hex, b"b6fc4c620b67d95f953a5c1c1230aaab5db5a1b0".to_vec());
    let other = handle.write(&mut disk, Kind::Blob, &b"world".to_vec());
    assert_ne!(id1, other);
    assert_eq!(disk.dirs[0].loose.len(), 2);
}

#[test]
fn round_trip_with_and_without_caches() {
    let mut disk = DiskState { dirs: vec![empty_dir(b"/store")] };
    let mut plain = git_odb::at(&disk, &b"/store".to_vec()).unwrap();
    let id = plain.write(&mut disk, Kind::Commit, &b"tree 123\n".to_vec());
    let found = plain.find(&disk, &id).unwrap();
    assert_eq!(found.kind, Kind::Commit);
    assert_eq!(found.data, b"tree 123\n".to_vec());
    let mut cached = git_odb::at(&disk, &b"/store".to_vec())
        .unwrap()
        .with_object_cache(8)
        .with_pack_cache(8);
    let a = cached.find(&disk, &id).unwrap();
    let b = cached.find(&disk, &id).unwrap();
    assert_eq!(a.kind, found.kind);
    assert_eq!(a.data, found.data);
    assert_eq!(b.kind, found.kind);
    assert_eq!(b.data, found.data);
}

#[test]
fn find_through_alternate_archive() {
    let id = id20(&[0xde, 0xad, 0xbe, 0xef]);
    let archive = Archive {
        id: 7,
        index: vec![IndexEntry { id: id20(&[0xde, 0xad, 0xbe, 0xef]), offset: 0 }],
        entries: vec![PackEntry::Full { kind: Kind::Blob, bytes: b"linked payload".to_vec() }],
    };
    let primary = DirContents {
        path: b"/a".to_vec(),
        loose: Vec::new(),
        archives: Vec::new(),
        alternates: vec![b"/b".to_vec()],
    };
    let linked = DirContents {
        path: b"/b".to_vec(),
        loose: Vec::new(),
        archives: vec![archive],
        alternates: Vec::new(),
    };
    let disk = DiskState { dirs: vec![primary, linked] };
    let mut handle = git_odb::at(&disk, &b"/a".to_vec()).unwrap();
    let found = handle.find(&disk, &id).unwrap();
    assert_eq!(found.kind, Kind::Blob);
    assert_eq!(found.data, b"linked payload".to_vec());
}

#[test]
fn first_archive_wins_on_overlap() {
    let make = |aid: u64, payload: &[u8]| Archive {
        id: aid,
        index: vec![IndexEntry { id: id20(&[0x42]), offset: 0 }],
        entries: vec![PackEntry::Full { kind: Kind::Blob, bytes: payload.to_vec() }],
    };
    let dir = DirContents {
        path: b"/store".to_vec(),
        loose: Vec::new(),
        archives: vec![make(1, b"newer"), make(2, b"older")],
        alternates: Vec::new(),
    };
    let disk = DiskState { dirs: vec![dir] };
    let mut handle = git_odb::at(&disk, &b"/store".to_vec()).unwrap();
    for _ in 0..3 {
        let found = handle.find(&disk, &id20(&[0x42])).unwrap();
        assert_eq!(found.data, b"newer".to_vec());
    }
}

#[test]
fn alternates_are_searched_in_listed_order() {
    let make_dir = |path: &[u8], aid: u64, payload: &[u8]| DirContents {
        path: path.to_vec(),
        loose: Vec::new(),
        archives: vec![Archive {
            id: aid,
            index: vec![IndexEntry { id: id20(&[0x55]), offset: 0 }],
            entries: vec![PackEntry::Full { kind: Kind::Blob, bytes: payload.to_vec() }],
        }],
        alternates: Vec::new(),
    };
    let mut primary = empty_dir(b"/a");
    primary.alternates = vec![b"/b".to_vec(), b"/c".to_vec()];
    let disk = DiskState {
        dirs: vec![primary, make_dir(b"/b", 1, b"from b"), make_dir(b"/c", 2, b"from c")],
    };
    let order = git_odb::alternates::resolve_alternates(&disk, 0);
    assert_eq!(order, vec![0usize, 1usize, 2usize]);
    let mut handle = git_odb::at(&disk, &b"/a".to_vec()).unwrap();
    let found = handle.find(&disk, &id20(&[0x55])).unwrap();
    assert_eq!(found.data, b"from b".to_vec());
}

#[test]
fn alternates_cycle_truncates() {
    let mut a = empty_dir(b"/a");
    a.alternates = vec![b"/b".to_vec()];
    let mut b = empty_dir(b"/b");
    b.alternates = vec![b"/a".to_vec()];
    let disk = DiskState { dirs: vec![a, b] };
    let order = git_odb::alternates::resolve_alternates(&disk, 0);
    assert_eq!(order, vec![0usize, 1usize]);
}

#[test]
fn find_through_cyclic_alternate_loose() {
    let mut a = empty_dir(b"/a");
    a.alternates = vec![b"/b".to_vec()];
    let mut b = empty_dir(b"/b");
    b.alternates = vec![b"/a".to_vec()];
    let mut disk = DiskState { dirs: vec![a, b] };
    let linked_handle = git_odb::at(&disk, &b"/b".to_vec()).unwrap();
    let id = {
        let root = linked_handle.inner.store.root;
        assert_eq!(root, 1);
        linked_handle.write(&mut disk, Kind::Tag, &b"v1".to_vec())
    };
    let mut primary = git_odb::at(&disk, &b"/a".to_vec()).unwrap();
    let found = primary.find(&disk, &id).unwrap();
    assert_eq!(found.kind, Kind::Tag);
    assert_eq!(found.data, b"v1".to_vec());
}

#[test]
fn refresh_is_attempted_at_most_once() {
    let disk = DiskState { dirs: vec![empty_dir(b"/store")] };
    let mut handle = git_odb::at(&disk, &b"/store".to_vec()).unwrap();
    assert_eq!(handle.inner.store.generation, 0);
    let missing = id20(&[9, 9, 9]);
    assert_eq!(handle.find(&disk, &missing).unwrap_err(), FindError::NotFound);
    assert_eq!(handle.inner.store.generation, 1);
    assert_eq!(handle.find(&disk, &missing).unwrap_err(), FindError::NotFound);
    assert_eq!(handle.inner.store.generation, 2);
}

#[test]
fn refresh_never_leaves_generation_alone() {
    let disk = DiskState { dirs: vec![empty_dir(b"/store")] };
    let store = Store::at(&disk, &b"/store".to_vec()).unwrap();
    let mut handle = git_odb::Cache::new(store.to_handle(RefreshMode::Never));
    let missing = id20(&[1, 2, 3]);
    assert_eq!(handle.find(&disk, &missing).unwrap_err(), FindError::NotFound);
    assert_eq!(handle.inner.store.generation, 0);
}

#[test]
fn refresh_discovers_new_archive() {
    let mut disk = DiskState { dirs: vec![empty_dir(b"/store")] };
    let mut handle = git_odb::at(&disk, &b"/store".to_vec()).unwrap();
    let id = id20(&[0x77]);
    assert_eq!(handle.find(&disk, &id).unwrap_err(), FindError::NotFound);
    disk.dirs[0].archives.push(Archive {
        id: 3,
        index: vec![IndexEntry { id: id20(&[0x77]), offset: 0 }],
        entries: vec![PackEntry::Full { kind: Kind::Tree, bytes: b"entries".to_vec() }],
    });
    let found = handle.find(&disk, &id).unwrap();
    assert_eq!(found.kind, Kind::Tree);
    assert_eq!(found.data, b"entries".to_vec());
}

#[test]
fn delta_chain_decodes_and_fills_base_cache() {
    let base = b"the quick brown fox".to_vec();
    let archive = Archive {
        id: 11,
        index: vec![
            IndexEntry { id: id20(&[0x01]), offset: 0 },
            IndexEntry { id: id20(&[0x02]), offset: 1 },
            IndexEntry { id: id20(&[0x03]), offset: 2 },
        ],
        entries: vec![
            PackEntry::Full { kind: Kind::Blob, bytes: base.clone() },
            PackEntry::Delta {
                base: 0,
                ops: vec![
                    DeltaOp::Copy { start: 4, len: 5 },
                    DeltaOp::Insert { bytes: b" and lazy".to_vec() },
                ],
            },
            PackEntry::Delta { base: 1, ops: vec![DeltaOp::Copy { start: 0, len: 5 }] },
        ],
    };
    let dir = DirContents {
        path: b"/store".to_vec(),
        loose: Vec::new(),
        archives: vec![archive],
        alternates: Vec::new(),
    };
    let disk = DiskState { dirs: vec![dir] };
    let mut handle = git_odb::at(&disk, &b"/store".to_vec()).unwrap().with_pack_cache(4);
    let d1 = handle.find(&disk, &id20(&[0x02])).unwrap();
    assert_eq!(d1.kind, Kind::Blob);
    assert_eq!(d1.data, b"quick and lazy".to_vec());
    let d2 = handle.find(&disk, &id20(&[0x03])).unwrap();
    assert_eq!(d2.data, b"quick".to_vec());
    assert!(handle.pack_cache.as_ref().unwrap().entries.len() >= 1);
}

#[test]
fn delta_with_range_outside_base_is_corrupt() {
    let archive = Archive {
        id: 5,
        index: vec![
            IndexEntry { id: id20(&[0x01]), offset: 0 },
            IndexEntry { id: id20(&[0x02]), offset: 1 },
        ],
        entries: vec![
            PackEntry::Full { kind: Kind::Blob, bytes: b"tiny".to_vec() },
            PackEntry::Delta { base: 0, ops: vec![DeltaOp::Copy { start: 2, len: 50 }] },
        ],
    };
    let dir = DirContents {
        path: b"/store".to_vec(),
        loose: Vec::new(),
        archives: vec![archive],
        alternates: Vec::new(),
    };
    let disk = DiskState { dirs: vec![dir] };
    let mut handle = git_odb::at(&disk, &b"/store".to_vec()).unwrap();
    assert_eq!(handle.find(&disk, &id20(&[0x02])).unwrap_err(), FindError::Corrupt);
}

#[test]
fn damaged_loose_file_is_corrupt() {
    // A file whose bytes decompress and re-hash to its id, but whose
    // decompressed content is no valid serialized object.
    let garbage = b"not an object header".to_vec();
    let mut compressed = Vec::new();
    let mut enc = flate2::read::ZlibEncoder::new(&garbage[..], flate2::Compression::default());
    enc.read_to_end(&mut compressed).unwrap();
    let digest = sha1_smol::Sha1::from(&garbage[..]).digest().bytes().to_vec();
    let id = ObjectId::from_bytes(digest.clone());
    let dir = DirContents {
        path: b"/store".to_vec(),
        loose: vec![LooseFile { id: ObjectId::from_bytes(digest), bytes: compressed }],
        archives: Vec::new(),
        alternates: Vec::new(),
    };
    let disk = DiskState { dirs: vec![dir] };
    let mut handle = git_odb::at(&disk, &b"/store".to_vec()).unwrap();
    assert_eq!(handle.find(&disk, &id).unwrap_err(), FindError::Corrupt);
}

#[test]
fn refresh_reports_whether_anything_changed() {
    let mut disk = DiskState { dirs: vec![empty_dir(b"/store")] };
    let mut store = Store::at(&disk, &b"/store".to_vec()).unwrap();
    assert!(!store.refresh(&disk));
    assert_eq!(store.generation, 1);
    disk.dirs[0].archives.push(Archive { id: 9, index: Vec::new(), entries: Vec::new() });
    assert!(store.refresh(&disk));
    assert_eq!(store.generation, 2);
    assert!(!store.refresh(&disk));
}

#[test]
fn missing_path_does_not_open() {
    let disk = DiskState { dirs: vec![empty_dir(b"/store")] };
    assert!(git_odb::at(&disk, &b"/elsewhere".to_vec()).is_none());
    assert!(Store::at_opts(&disk, &b"/elsewhere".to_vec(), Slots::Given(8)).is_none());
}

#[test]
fn sink_discards_but_computes_real_ids() {
    let sink = git_odb::sink();
    let a = sink.write(Kind::Blob, &b"hello".to_vec());
    let b = sink.write(Kind::Blob, &b"hello".to_vec());
    assert_eq!(a, b);
    assert_eq!(
        git_odb::hex::to_hex(a.as_bytes()),
        b"b6fc4c620b67d95f953a5c1c1230aaab5db5a1b0".to_vec()
    );
    let compressing = sink.compress(true);
    let c = compressing.write(Kind::Blob, &b"hello".to_vec());
    assert_eq!(a, c);
    assert_eq!(compressing.find(&a).unwrap_err(), FindError::NotFound);
}
