use orf::keyed::KeyedMap;
use orf::storage::objects::blob::Blob;
use orf::storage::objects::commit::Commit;
use orf::storage::objects::pack::{ObjectType, PackError, PackObject, Packfile};
use orf::storage::objects::unpack::{ParsedObject, UnpackError};
use orf::storage::repo::{RepoType, Repository};

#[test]
fn packfiles_read_back() {
    let mut pack = Packfile::new();
    pack.add_object(&Blob { data: b"hello".to_vec() }).unwrap();
    let commit = Commit {
        tree: "t".to_string(),
        parent: None,
        author: "A".to_string(),
        timestamp: 5,
        message: "m".to_string(),
    };
    pack.add_object(&commit).unwrap();
    let bytes = pack.serialize().unwrap();
    assert_eq!(&bytes[0..7], b"VOXPACK");
    let back = Packfile::deserialize(&bytes).unwrap();
    assert_eq!(back.objects.len(), 2);
    let objs = back.apply_deltas(&KeyedMap::new()).unwrap();
    assert!(matches!(&objs[0], ParsedObject::Blob(b) if b.data == b"hello".to_vec()));
    assert!(matches!(&objs[1], ParsedObject::Commit(c) if *c == commit));
}

#[test]
fn deltas_apply_to_their_base() {
    let mut bases: KeyedMap<Vec<u8>> = KeyedMap::new();
    bases.insert("base".to_string(), b"Hello world".to_vec());
    let pack = Packfile {
        objects: vec![PackObject::Delta { base_hash: "base".to_string(), data: vec![0x0B, 0x05, 0x90, 0x05] }],
        index: KeyedMap::new(),
    };
    let objs = pack.apply_deltas(&bases).unwrap();
    assert!(matches!(&objs[0], ParsedObject::Blob(b) if b.data == b"Hello".to_vec()));
    let missing = Packfile {
        objects: vec![PackObject::Delta { base_hash: "nope".to_string(), data: vec![] }],
        index: KeyedMap::new(),
    };
    assert_eq!(missing.apply_deltas(&bases).unwrap_err(), UnpackError::MissingBase("nope".to_string()));
    assert_eq!(Packfile::detect_type(b"tree 1"), Ok(ObjectType::Tree));
    assert_eq!(Packfile::detect_type(b"xyz"), Ok(ObjectType::Blob));
    assert_eq!(Packfile::parse_object(ObjectType::Commit, &[0xff]).unwrap_err(), UnpackError::NotUtf8);
}

#[test]
fn repositories_are_local_or_remote() {
    let r = Repository::new_local("r".to_string(), "/w".to_string());
    assert!(r.url().is_none());
    assert_eq!((r.name(), r.workdir()), ("r", "/w"));
    let u = url::Url::parse("https://example.com/x.git").unwrap();
    let r = Repository::new_remote("r".to_string(), "/w".to_string(), u.clone());
    assert_eq!(r.url(), Some(&u));
    assert!(matches!(r.repo_type, RepoType::Remote { .. }));
}

#[test]
fn delta_objects_keep_their_base_hash() {
    let base_hash = orf::storage::codec::object_hash(b"Hello world");
    let data = vec![0x0B, 0x05, 0x90, 0x05];
    let mut pack = Packfile::new();
    pack.objects.push(PackObject::Delta { base_hash: base_hash.clone(), data: data.clone() });
    let bytes = pack.serialize().unwrap();
    let back = Packfile::deserialize(&bytes).unwrap();
    assert_eq!(back.objects.len(), 1);
    match &back.objects[0] {
        PackObject::Delta { base_hash: h, data: d } => {
            assert_eq!(h, &base_hash);
            assert_eq!(d, &data);
        }
        _ => panic!("expected a delta"),
    }
    assert_eq!(back.index.len(), 1);
}

#[test]
fn delta_base_hash_must_be_hex() {
    let mut pack = Packfile::new();
    pack.objects.push(PackObject::Delta { base_hash: "base".to_string(), data: vec![1] });
    assert_eq!(pack.serialize(), Err(PackError::InvalidBaseHash));
}

#[test]
fn pack_index_records_where_entries_start() {
    let mut pack = Packfile::new();
    pack.add_object(&Blob { data: b"hello".to_vec() }).unwrap();
    pack.add_object(&Blob { data: b"world".to_vec() }).unwrap();
    let bytes = pack.serialize().unwrap();
    let first = pack.index.get(&orf::storage::codec::object_hash(b"hello")).unwrap().clone();
    let second = pack.index.get(&orf::storage::codec::object_hash(b"world")).unwrap().clone();
    assert_eq!(first.offset, 11);
    assert_eq!(bytes[11] >> 4 & 0x07, 3);
    assert_eq!(second.offset, 11 + 4 + first.size as u64);
    let back = Packfile::deserialize(&bytes).unwrap();
    assert_eq!(back.index.get(&orf::storage::codec::object_hash(b"world")).unwrap().offset, second.offset);
}
