use orf::commands::core_commands::index::idx_main::{Index, IndexEntry, IndexError};
use orf::commands::core_commands::index::idx_rm::{remove_single_file, rm_relative_path, RmOutcome};

fn entry(path: &str, mode: u32, uid: u32, gid: u32) -> IndexEntry {
    IndexEntry {
        mtime: 1_700_000_000,
        dev: 1,
        ino: 2,
        mode,
        uid,
        gid,
        size: 10,
        hash: [7; 20],
        flags: 0,
        path: path.to_string(),
    }
}

#[test]
fn index_entries_are_kept_by_path() {
    let mut idx = Index::new();
    idx.add_entry(entry("a/b.txt", 1, 1, 1));
    idx.add_entry(entry("c.txt", 1, 1, 1));
    assert!(idx.get_entry("./a/b.txt").is_some());
    assert!(idx.get_entry("a//b.txt").is_some());
    assert_eq!(idx.get_entries().len(), 2);
    let removed = idx.remove_entry("a/b.txt").unwrap();
    assert_eq!(removed.path, "a/b.txt");
    assert!(idx.get_entry("a/b.txt").is_none());
}

#[test]
fn index_file_reads_back() {
    let mut idx = Index::new();
    idx.add_entry(entry("z.txt", 5, 5, 5));
    idx.add_entry(entry("dir/a.txt", 7, 7, 7));
    let bytes = idx.encode();
    assert_eq!(&bytes[0..4], b"DIRC");
    assert_eq!(&bytes[4..12], &[0, 0, 0, 2, 0, 0, 0, 2]);
    let mut back = Index::new();
    back.read_from_bytes(&bytes).unwrap();
    let e = back.get_entry("dir/a.txt").unwrap();
    assert_eq!((e.mtime, e.dev, e.ino, e.size, e.hash), (1_700_000_000, 1, 2, 10, [7; 20]));
    assert_eq!(back.get_entries().len(), 2);
}

#[test]
fn index_file_keeps_owner_fields() {
    let mut idx = Index::new();
    idx.add_entry(entry("f", 0o100644, 1000, 100));
    let mut back = Index::new();
    back.read_from_bytes(&idx.encode()).unwrap();
    let e = back.get_entry("f").unwrap();
    assert_eq!((e.mode, e.uid, e.gid), (0o100644, 1000, 100));
}

#[test]
fn index_file_errors_are_reported() {
    let mut idx = Index::new();
    assert_eq!(idx.read_from_bytes(b"DIR"), Err(IndexError::UnexpectedEof));
    assert_eq!(idx.read_from_bytes(b"XIRC\0\0\0\x02"), Err(IndexError::InvalidSignature));
    assert_eq!(idx.read_from_bytes(b"DIRC\0\0\0\x03\0\0\0\0"), Err(IndexError::UnsupportedVersion));
    assert_eq!(idx.read_from_bytes(b"DIRC\0\0\0\x02\0\0\0\x01"), Err(IndexError::UnexpectedEof));
}

#[test]
fn rm_decides_per_path() {
    assert_eq!(rm_relative_path("./a/b"), "a/b");
    assert_eq!(rm_relative_path("a/b"), "a/b");
    let mut idx = Index::new();
    idx.add_entry(entry("a/b", 1, 1, 1));
    assert_eq!(
        remove_single_file(&mut idx, "x", false, false, true),
        RmOutcome::NotInIndex("x".to_string())
    );
    assert_eq!(
        remove_single_file(&mut idx, "a/b", false, false, false),
        RmOutcome::NotInWorkdir("a/b".to_string())
    );
    assert!(idx.get_entry("a/b").is_some());
    assert_eq!(
        remove_single_file(&mut idx, "a/b", false, true, true),
        RmOutcome::Removed("a/b".to_string(), true)
    );
    assert!(idx.get_entry("a/b").is_none());
}
