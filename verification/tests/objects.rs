use std::io::Read;
use orf::storage::codec::object_hash;
use orf::storage::objects::blob::{Blob, StoredError};
use orf::storage::objects::commit::{Commit, CommitLoadError};
use orf::storage::objects::tag::{Tag, TagError, TagLoadError};
use orf::storage::utils::{
    frame_object, object_file, object_path_for, Loadable, ObjectStorage, Storable, VoxObject,
};

#[test]
fn object_hashes_are_sha1_in_hex() {
    assert_eq!(object_hash(b""), "da39a3ee5e6b4b0d3255bfef95601890afd80709");
    assert_eq!(object_hash(b"abc"), "a9993e364706816aba3e25717850c26c9cd0d89d");
}

#[test]
fn objects_are_framed_and_placed_by_hash() {
    assert_eq!(frame_object("blob", b"hi"), b"blob 2\0hi".to_vec());
    assert_eq!(
        object_path_for(".vox/objects", "abcdef"),
        ".vox/objects/ab/cdef"
    );
    assert_eq!(
        object_file(".vox/objects", "abcdef"),
        (".vox/objects/ab".to_string(), ".vox/objects/ab/cdef".to_string())
    );
    assert_eq!(ObjectStorage::new("/repo").dir, "/repo/.vox/objects");
}

#[test]
fn saved_blob_reads_back() {
    let blob = Blob { data: b"test content\n".to_vec() };
    assert_eq!(blob.object_type(), "blob");
    let hash = blob.hash().unwrap();
    assert_eq!(hash, object_hash(b"test content\n"));
    let plan = blob.save(".vox/objects").unwrap();
    assert_eq!(plan.hash, hash);
    assert_eq!(plan.dir, format!(".vox/objects/{}", &hash[..2]));
    assert_eq!(plan.file, format!(".vox/objects/{}/{}", &hash[..2], &hash[2..]));
    assert_ne!(plan.data, b"blob 13\0test content\n".to_vec());
    let back = Blob::from_stored(&plan.data).unwrap();
    assert_eq!(back.get_content(), &b"test content\n".to_vec());
    assert_eq!(blob.object_path().unwrap(), plan.file);
}

#[test]
fn stored_blob_errors_are_reported() {
    assert!(matches!(Blob::from_stored(b"not zlib"), Err(StoredError::Decompress)));
}

#[test]
fn saved_commit_reads_back() {
    let commit = Commit {
        tree: "4b825dc642cb6eb9a060e54bf8d69288fbee4904".to_string(),
        parent: None,
        author: "Ann <ann@example.com>".to_string(),
        timestamp: 1_700_000_000,
        message: "first\n\nbody".to_string(),
    };
    let plan = commit.save(".vox/objects").unwrap();
    let back = Commit::from_stored(&plan.data).unwrap();
    assert_eq!(back, commit);
    let blob = Blob { data: b"x".to_vec() };
    let other = blob.save(".vox/objects").unwrap();
    assert_eq!(Commit::from_stored(&other.data), Err(CommitLoadError::NotACommit));
}

fn sample_tag() -> Tag {
    Tag {
        object: "0123456789012345678901234567890123456789".to_string(),
        object_type: "commit".to_string(),
        tag: "v1.0".to_string(),
        tagger: ("Ann Lee".to_string(), "ann@example.com".to_string(), 1_700_000_000),
        message: "Release one\n\nNotes".to_string(),
    }
}

#[test]
fn tag_text_reads_back() {
    let tag = sample_tag();
    let text = tag.text();
    assert_eq!(
        text,
        "object 0123456789012345678901234567890123456789\ntype commit\ntag v1.0\ntagger Ann Lee <ann@example.com> 1700000000 +0000\n\nRelease one\n\nNotes"
    );
    let back = Tag::parse(&text).unwrap();
    assert_eq!(back.object, tag.object);
    assert_eq!(back.object_type, tag.object_type);
    assert_eq!(back.tag, tag.tag);
    assert_eq!(back.tagger, tag.tagger);
    assert_eq!(back.message, tag.message);
    let plan = tag.save(".vox/objects").unwrap();
    let loaded = Tag::from_stored(&plan.data).unwrap();
    assert_eq!(loaded.tag, "v1.0");
}

#[test]
fn tagger_forms_are_checked() {
    let base = "object o\ntype commit\ntag t\n";
    let with = |tagger: &str| format!("{}tagger {}\n\nm", base, tagger);
    let t = Tag::parse(&with("A <a <b> c> 12 -0130")).unwrap();
    assert_eq!(t.tagger, ("A <a".to_string(), "b> c".to_string(), 12));
    assert_eq!(Tag::parse(&with("A a 12 +0000")).unwrap_err(), TagError::InvalidTagger);
    assert_eq!(Tag::parse(&with("A <a> 12 0000")).unwrap_err(), TagError::InvalidTagger);
    assert_eq!(
        Tag::parse(&with("A <a> 99999999999999999999 +0000")).unwrap_err(),
        TagError::InvalidTimestamp
    );
    assert_eq!(
        Tag::parse_checked(&with("A <a> 12 +2400")).unwrap_err(),
        TagError::OffsetOutOfRange
    );
    assert_eq!(
        Tag::parse_checked(&with("A <a> 12 +2360")).unwrap_err(),
        TagError::OffsetOutOfRange
    );
    assert_eq!(Tag::parse(&with("A <a> 12 +2359")).unwrap().tagger.2, 12);
    assert_eq!(Tag::parse(&with("A <a> 12 -2359")).unwrap().tagger.2, 12);
    assert_eq!(
        Tag::parse("type commit\ntag t\ntagger A <a> 1 +0000\n\nm").unwrap_err(),
        TagError::MissingObject
    );
    assert!(matches!(Tag::from_stored(b"junk"), Err(TagLoadError::Decompress)));
}

#[test]
fn saved_blob_is_the_compressed_stored_form() {
    let blob = Blob { data: b"test content\n".to_vec() };
    let plan = blob.save(".vox/objects").unwrap();
    assert_eq!(plan.hash.len(), 40);
    assert!(plan.hash.chars().all(|c| c.is_ascii_hexdigit() && !c.is_ascii_uppercase()));
    let mut decoder = flate2::read::ZlibDecoder::new(plan.data.as_slice());
    let mut stored = Vec::new();
    decoder.read_to_end(&mut stored).unwrap();
    assert_eq!(stored, b"blob 13\0test content\n".to_vec());
}
