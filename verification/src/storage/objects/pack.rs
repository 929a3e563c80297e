//! Packfiles: many objects in one byte string, each zlib-compressed.
//!
//! Layout: the magic `VOXPACK`, the number of objects as a big-endian `u32`,
//! then for each object a byte holding its type code in bits 4-6 and the high
//! bit set, its compressed size as a big-endian 24-bit integer, and the
//! compressed data. An object of type code 7 is a delta whose data starts with
//! the 20-byte hash of its base object.

use vstd::prelude::*;
use crate::bytes::{append_range, be24, be24_value, be32, be32_value, copy_range, push_be24, push_be32, read_be24, read_be32};
use crate::keyed::KeyedMap;
use crate::storage::codec::{
    object_hash, spec_object_hash, zlib_compress, zlib_contents, zlib_decompress, zlib_stream,
    BEST_LEVEL,
};
use crate::storage::utils::{ObjectError, VoxObject, OBJ_TYPE_BLOB, OBJ_TYPE_COMMIT, OBJ_TYPE_TAG, OBJ_TYPE_TREE};
use crate::text::{decode_hex, hex_decode, lemma_hex_roundtrip, spec_hex, str_eq, to_hex};

verus! {

broadcast use vstd::string::group_string_axioms;

/// Why building or reading a packfile failed.
#[derive(Debug, PartialEq, Eq, Structural)]
pub enum PackError {
    /// The object's type cannot be packed.
    UnsupportedObjectType,
    /// The object could not be encoded.
    Object(ObjectError),
    /// A delta's base hash is not 40 hexadecimal digits.
    InvalidBaseHash,
    /// A compressed object does not fit in the 24-bit size field.
    ObjectTooLarge,
    /// The data ends before the packfile does.
    UnexpectedEof,
    /// The data does not start with the packfile magic.
    InvalidFormat,
    /// An object has a type code that names no type.
    InvalidObjectType,
    /// An object's data is not a zlib stream.
    Decompression,
}

/// The types an object in a packfile can have.
#[derive(Debug, Clone, Copy, PartialEq, Eq, Structural)]
pub enum ObjectType {
    Commit,
    Tree,
    Blob,
    Tag,
    DeltaRef,
}

impl ObjectType {
    /// The numerical code of the type.
    pub open spec fn spec_code(self) -> u8 {
        match self {
            ObjectType::Commit => 1,
            ObjectType::Tree => 2,
            ObjectType::Blob => 3,
            ObjectType::Tag => 4,
            ObjectType::DeltaRef => 7,
        }
    }

    /// The type a numerical code names.
    pub open spec fn spec_from_code(code: u8) -> Option<ObjectType> {
        if code == 1 {
            Some(ObjectType::Commit)
        } else if code == 2 {
            Some(ObjectType::Tree)
        } else if code == 3 {
            Some(ObjectType::Blob)
        } else if code == 4 {
            Some(ObjectType::Tag)
        } else if code == 7 {
            Some(ObjectType::DeltaRef)
        } else {
            None
        }
    }

    /// The numerical code of the type.
    pub fn code(&self) -> (c: u8)
        ensures
            c == self.spec_code(),
    {
        match self {
            ObjectType::Commit => 1,
            ObjectType::Tree => 2,
            ObjectType::Blob => 3,
            ObjectType::Tag => 4,
            ObjectType::DeltaRef => 7,
        }
    }

    /// The type a numerical code names.
    pub fn from_code(code: u8) -> (t: Option<ObjectType>)
        ensures
            t == ObjectType::spec_from_code(code),
    {
        if code == 1 {
            Some(ObjectType::Commit)
        } else if code == 2 {
            Some(ObjectType::Tree)
        } else if code == 3 {
            Some(ObjectType::Blob)
        } else if code == 4 {
            Some(ObjectType::Tag)
        } else if code == 7 {
            Some(ObjectType::DeltaRef)
        } else {
            None
        }
    }
}

/// Type codes and types name each other: every type's code names it back, a
/// code names a type exactly when it is 1 to 4 or 7, and the codes are 1 for a
/// commit, 2 for a tree, 3 for a blob, 4 for a tag and 7 for a delta reference.
pub proof fn lemma_type_codes(t: ObjectType, code: u8)
    ensures
        ObjectType::spec_from_code(t.spec_code()) == Some(t),
        ObjectType::spec_from_code(code) is Some <==> (1 <= code <= 4 || code == 7),
        ObjectType::spec_from_code(code) matches Some(u) ==> u.spec_code() == code,
        t == ObjectType::Commit <==> t.spec_code() == 1,
        t == ObjectType::Tree <==> t.spec_code() == 2,
        t == ObjectType::Blob <==> t.spec_code() == 3,
        t == ObjectType::Tag <==> t.spec_code() == 4,
        t == ObjectType::DeltaRef <==> t.spec_code() == 7,
{
}

/// Where an object lies in a packfile.
#[derive(Debug, Clone, Copy, PartialEq, Eq, Structural)]
pub struct ObjectLocation {
    /// Byte offset where the object starts.
    pub offset: u64,
    /// Compressed size of the object in bytes.
    pub size: u32,
    /// The object's type code.
    pub type_code: u8,
}

/// A packed object: complete, or a delta against a base object.
#[derive(Debug)]
pub enum PackObject {
    /// A complete object with its raw data and type.
    Base(Vec<u8>, ObjectType),
    /// A delta-compressed object.
    Delta {
        /// Hash of the base object the delta applies to.
        base_hash: String,
        /// The delta instructions.
        data: Vec<u8>,
    },
}

/// The value of a packed object.
pub ghost enum PackObjectModel {
    Base(Seq<u8>, ObjectType),
    Delta { base_hash: Seq<char>, data: Seq<u8> },
}

impl View for PackObject {
    type V = PackObjectModel;

    open spec fn view(&self) -> PackObjectModel {
        match self {
            PackObject::Base(d, t) => PackObjectModel::Base(d@, *t),
            PackObject::Delta { base_hash, data } => PackObjectModel::Delta {
                base_hash: base_hash@,
                data: data@,
            },
        }
    }
}

/// The values of packed objects.
pub open spec fn objects_model(objs: Seq<PackObject>) -> Seq<PackObjectModel> {
    Seq::new(objs.len(), |i: int| objs[i]@)
}

/// The type code a packed object is written with.
pub open spec fn object_code(o: PackObjectModel) -> u8 {
    match o {
        PackObjectModel::Base(_, t) => t.spec_code(),
        PackObjectModel::Delta { .. } => 7,
    }
}

/// A packed object's data: a complete object's bytes, or a delta's
/// instructions (without its base hash). Objects are recorded by its hash.
pub open spec fn object_content(o: PackObjectModel) -> Seq<u8> {
    match o {
        PackObjectModel::Base(d, _) => d,
        PackObjectModel::Delta { data, .. } => data,
    }
}

/// The 20 bytes a delta's base hash stands for, where it is 40 hexadecimal
/// digits.
pub open spec fn base_hash_bytes(h: Seq<char>) -> Option<Seq<u8>> {
    match hex_decode(h) {
        Ok(b) => if b.len() == 20 {
            Some(b)
        } else {
            None
        },
        Err(_) => None,
    }
}

/// What a packed object's entry holds before compression: a complete object's
/// bytes; a delta's base hash as 20 bytes, then its instructions. `None` where
/// a delta's base hash is not 40 hexadecimal digits.
pub open spec fn object_payload(o: PackObjectModel) -> Option<Seq<u8>> {
    match o {
        PackObjectModel::Base(d, _) => Some(d),
        PackObjectModel::Delta { base_hash, data } => match base_hash_bytes(base_hash) {
            Some(b) => Some(b + data),
            None => None,
        },
    }
}

/// Whether every object can be written: each delta's base hash is 40
/// hexadecimal digits.
pub open spec fn payloads_ok(objs: Seq<PackObjectModel>) -> bool {
    forall|i: int| 0 <= i < objs.len() ==> (#[trigger] object_payload(objs[i])) is Some
}

/// The packfile magic, `VOXPACK`.
pub open spec fn pack_magic() -> Seq<u8> {
    seq![0x56u8, 0x4fu8, 0x58u8, 0x50u8, 0x41u8, 0x43u8, 0x4bu8]
}

/// The first byte of an object entry: the type code in bits 4-6, the high bit set.
pub open spec fn entry_tag(code: u8) -> u8 {
    ((code << 4u8) | 0x80u8) as u8
}

/// An object entry: tag byte, compressed size, compressed data.
pub open spec fn entry_bytes(code: u8, comp: Seq<u8>) -> Seq<u8> {
    seq![entry_tag(code)] + be24(comp.len() as u32) + comp
}

/// The entries of the first `n` objects, object `i` compressed as `comps[i]`.
pub open spec fn entries_bytes(objs: Seq<PackObjectModel>, comps: Seq<Seq<u8>>, n: int) -> Seq<u8>
    decreases n,
{
    if n <= 0 {
        Seq::empty()
    } else {
        entries_bytes(objs, comps, n - 1) + entry_bytes(object_code(objs[n - 1]), comps[n - 1])
    }
}

/// A whole packfile: magic, object count, entries.
pub open spec fn pack_bytes(objs: Seq<PackObjectModel>, comps: Seq<Seq<u8>>) -> Seq<u8> {
    pack_magic() + be32(objs.len() as u32) + entries_bytes(objs, comps, objs.len() as int)
}

/// The index after recording the first `n` objects, starting from `start`: each
/// object's hash maps to where its entry starts (after the 11 header bytes), its compressed
/// size and its type code.
pub open spec fn index_after(
    start: Map<Seq<char>, ObjectLocation>,
    objs: Seq<PackObjectModel>,
    comps: Seq<Seq<u8>>,
    n: int,
) -> Map<Seq<char>, ObjectLocation>
    decreases n,
{
    if n <= 0 {
        start
    } else {
        index_after(start, objs, comps, n - 1).insert(
            spec_object_hash(object_content(objs[n - 1])),
            ObjectLocation {
                offset: (11 + entries_bytes(objs, comps, n - 1).len()) as u64,
                size: comps[n - 1].len() as u32,
                type_code: object_code(objs[n - 1]),
            },
        )
    }
}

/// The zlib streams of the objects' entries at the best compression.
pub open spec fn compressed_objects(objs: Seq<PackObjectModel>) -> Seq<Seq<u8>> {
    Seq::new(objs.len(), |i: int| zlib_stream(BEST_LEVEL, object_payload(objs[i]).unwrap()))
}

/// Whether every compressed object is shorter than 2^24 bytes, so that its
/// size field holds its length.
pub open spec fn lengths_fit(comps: Seq<Seq<u8>>) -> bool {
    forall|i: int| 0 <= i < comps.len() ==> #[trigger] comps[i].len() < 0x1000000
}

/// Whether every compressed object fits the 24-bit size field (after the
/// conversion of its length to `u32`).
pub open spec fn sizes_fit(comps: Seq<Seq<u8>>) -> bool {
    forall|i: int| 0 <= i < comps.len() ==> (#[trigger] comps[i].len() as u32) < 0x1000000
}

/// What reading a packfile gives: objects and index, or an error; or a fault
/// on which reading aborts (a delta entry shorter than the 20-byte base hash),
/// which `deserialize` does not accept.
pub ghost enum PackParse {
    Panics,
    Parsed(Result<(Seq<PackObjectModel>, Map<Seq<char>, ObjectLocation>), PackError>),
}

/// Reading `left` more object entries from `pos`, after the objects `objs` and
/// the index `index` already read. An entry is recorded at the offset where
/// it starts.
pub open spec fn spec_parse_entries(
    data: Seq<u8>,
    pos: int,
    left: nat,
    objs: Seq<PackObjectModel>,
    index: Map<Seq<char>, ObjectLocation>,
) -> PackParse
    decreases left,
{
    if left == 0 {
        PackParse::Parsed(Ok((objs, index)))
    } else if pos < 0 || pos + 4 > data.len() {
        PackParse::Parsed(Err(PackError::UnexpectedEof))
    } else {
        let code = ((data[pos] >> 4u8) & 0x07u8) as u8;
        let size = be24_value(data, pos + 1);
        if pos + 4 + size > data.len() {
            PackParse::Parsed(Err(PackError::UnexpectedEof))
        } else {
            let next = pos + 4 + size;
            let loc = ObjectLocation { offset: pos as u64, size, type_code: code };
            match zlib_contents(data.subrange(pos + 4, next)) {
                None => PackParse::Parsed(Err(PackError::Decompression)),
                Some(dec) => match ObjectType::spec_from_code(code) {
                    None => PackParse::Parsed(Err(PackError::InvalidObjectType)),
                    Some(t) => if t == ObjectType::DeltaRef {
                        if dec.len() < 20 {
                            PackParse::Panics
                        } else {
                            let d = dec.subrange(20, dec.len() as int);
                            spec_parse_entries(
                                data,
                                next,
                                (left - 1) as nat,
                                objs.push(
                                    PackObjectModel::Delta {
                                        base_hash: spec_hex(dec.subrange(0, 20)),
                                        data: d,
                                    },
                                ),
                                index.insert(spec_object_hash(d), loc),
                            )
                        }
                    } else {
                        spec_parse_entries(
                            data,
                            next,
                            (left - 1) as nat,
                            objs.push(PackObjectModel::Base(dec, t)),
                            index.insert(spec_object_hash(dec), loc),
                        )
                    },
                },
            }
        }
    }
}

/// Reading a whole packfile.
pub open spec fn spec_parse_pack(data: Seq<u8>) -> PackParse {
    if data.len() < 7 {
        PackParse::Parsed(Err(PackError::UnexpectedEof))
    } else if data.subrange(0, 7) != pack_magic() {
        PackParse::Parsed(Err(PackError::InvalidFormat))
    } else if data.len() < 11 {
        PackParse::Parsed(Err(PackError::UnexpectedEof))
    } else {
        spec_parse_entries(data, 11, be32_value(data, 7) as nat, Seq::empty(), Map::empty())
    }
}

/// The kind of object whose first bytes are `data`.
pub open spec fn spec_detect_type(data: Seq<u8>) -> ObjectType {
    if data.len() >= 6 && data.subrange(0, 6) == seq![0x63u8, 0x6fu8, 0x6du8, 0x6du8, 0x69u8, 0x74u8] {
        ObjectType::Commit
    } else if data.len() >= 4 && data.subrange(0, 4) == seq![0x74u8, 0x72u8, 0x65u8, 0x65u8] {
        ObjectType::Tree
    } else if data.len() >= 3 && data.subrange(0, 3) == seq![0x74u8, 0x61u8, 0x67u8] {
        ObjectType::Tag
    } else {
        ObjectType::Blob
    }
}

/// Whether `data` starts with the UTF-8 bytes of `text`.
pub open spec fn starts_with_text(data: Seq<u8>, text: Seq<char>) -> bool {
    vstd::utf8::encode_utf8(text).len() <= data.len() && data.subrange(
        0,
        vstd::utf8::encode_utf8(text).len() as int,
    ) == vstd::utf8::encode_utf8(text)
}

/// The UTF-8 bytes of ASCII text are its characters' codes.
proof fn lemma_ascii_bytes(t: Seq<char>, b: Seq<u8>)
    requires
        t.len() == b.len(),
        forall|i: int| 0 <= i < t.len() ==> '\0' <= #[trigger] t[i] <= '\u{7f}' && t[i] as u8 == b[i],
    ensures
        vstd::utf8::encode_utf8(t) == b,
{
    vstd::utf8::is_ascii_chars_encode_utf8(t);
    assert(vstd::utf8::encode_utf8(t) =~= b);
}

/// How an object's first bytes decide the type detected: the text `commit`
/// makes a commit, else `tree` a tree, else `tag` a tag; anything else is a
/// blob.
pub proof fn lemma_detect_type(data: Seq<u8>)
    ensures
        starts_with_text(data, "commit"@) ==> spec_detect_type(data) == ObjectType::Commit,
        starts_with_text(data, "tree"@) ==> spec_detect_type(data) == ObjectType::Tree,
        starts_with_text(data, "tag"@) ==> spec_detect_type(data) == ObjectType::Tag,
        !starts_with_text(data, "commit"@) && !starts_with_text(data, "tree"@) && !starts_with_text(
            data,
            "tag"@,
        ) ==> spec_detect_type(data) == ObjectType::Blob,
{
    reveal_strlit("commit");
    reveal_strlit("tree");
    reveal_strlit("tag");
    lemma_ascii_bytes("commit"@, seq![99u8, 111u8, 109u8, 109u8, 105u8, 116u8]);
    lemma_ascii_bytes("tree"@, seq![116u8, 114u8, 101u8, 101u8]);
    lemma_ascii_bytes("tag"@, seq![116u8, 97u8, 103u8]);
    if starts_with_text(data, "tree"@) || starts_with_text(data, "tag"@) {
        assert(data[0] == 116u8);
        if data.len() >= 6 {
            assert(data.subrange(0, 6)[0] == 116u8);
        }
    }
    if starts_with_text(data, "tag"@) && data.len() >= 4 {
        assert(data[1] == 97u8);
        assert(data.subrange(0, 4)[1] == 97u8);
    }
}

/// The pack type an object type name stands for.
pub open spec fn spec_type_for_name(name: Seq<char>) -> Option<ObjectType> {
    if name == OBJ_TYPE_COMMIT@ {
        Some(ObjectType::Commit)
    } else if name == OBJ_TYPE_TREE@ {
        Some(ObjectType::Tree)
    } else if name == OBJ_TYPE_BLOB@ {
        Some(ObjectType::Blob)
    } else if name == OBJ_TYPE_TAG@ {
        Some(ObjectType::Tag)
    } else {
        None
    }
}

/// The byte sequences of byte vectors.
pub open spec fn byte_views(v: Seq<Vec<u8>>) -> Seq<Seq<u8>> {
    Seq::new(v.len(), |i: int| v[i]@)
}

/// Each entry is its 4-byte header and its compressed data.
pub proof fn lemma_entries_len(objs: Seq<PackObjectModel>, comps: Seq<Seq<u8>>, k: int, n: int)
    requires
        0 <= k <= n,
    ensures
        entries_bytes(objs, comps, k).len() <= entries_bytes(objs, comps, n).len(),
        k > 0 ==> entries_bytes(objs, comps, k).len() == entries_bytes(objs, comps, k - 1).len() + 4
            + comps[k - 1].len(),
    decreases n - k,
{
    if k < n {
        lemma_entries_len(objs, comps, k, n - 1);
    }
}

/// The entries of the first `k` objects are a prefix of those of the first `n`.
pub proof fn lemma_entries_prefix(objs: Seq<PackObjectModel>, comps: Seq<Seq<u8>>, k: int, n: int)
    requires
        0 <= k <= n,
    ensures
        entries_bytes(objs, comps, n).subrange(0, entries_bytes(objs, comps, k).len() as int)
            == entries_bytes(objs, comps, k),
    decreases n - k,
{
    lemma_entries_len(objs, comps, k, n);
    if k < n {
        lemma_entries_prefix(objs, comps, k, n - 1);
        lemma_entries_len(objs, comps, k, n - 1);
        let a = entries_bytes(objs, comps, n - 1);
        let b = entries_bytes(objs, comps, n);
        assert(b.subrange(0, a.len() as int) =~= a);
        assert(b.subrange(0, entries_bytes(objs, comps, k).len() as int) =~= a.subrange(
            0,
            entries_bytes(objs, comps, k).len() as int,
        ));
    } else {
        assert(entries_bytes(objs, comps, n).subrange(0, entries_bytes(objs, comps, n).len() as int)
            =~= entries_bytes(objs, comps, n));
    }
}

/// Whether `h` is a hash in lower-case hexadecimal: the 40 digits of 20 bytes.
pub open spec fn is_hex_hash(h: Seq<char>) -> bool {
    exists|b: Seq<u8>| b.len() == 20 && #[trigger] spec_hex(b) == h
}

/// Whether every object reads back as it was written: a complete object of a
/// type other than a delta reference, or a delta whose base hash is in
/// lower-case hexadecimal.
pub open spec fn all_packable(objs: Seq<PackObjectModel>) -> bool {
    forall|i: int|
        0 <= i < objs.len() ==> match #[trigger] objs[i] {
            PackObjectModel::Base(_, t) => t != ObjectType::DeltaRef,
            PackObjectModel::Delta { base_hash, .. } => is_hex_hash(base_hash),
        }
}

/// The type code sits in bits 4-6 of an entry's first byte.
proof fn lemma_entry_tag_code(code: u8)
    requires
        code <= 7,
    ensures
        ((entry_tag(code) >> 4u8) & 0x07u8) as u8 == code,
{
    assert(code <= 7 ==> ((((code << 4u8) | 0x80u8) as u8 >> 4u8) & 0x07u8) as u8 == code)
        by (bit_vector);
}

/// The packfile's layout: it starts with the bytes `VOXPACK` and the number of
/// objects in 4 big-endian bytes; an entry's first byte has its high bit set
/// and the object's type code in bits 4-6. Reading refuses data shorter than
/// the magic (`UnexpectedEof`) and data that does not start with it
/// (`InvalidFormat`).
pub proof fn lemma_pack_header(objs: Seq<PackObjectModel>, comps: Seq<Seq<u8>>, code: u8, data: Seq<u8>)
    requires
        objs.len() <= u32::MAX,
    ensures
        pack_bytes(objs, comps).subrange(0, 7) == seq![0x56u8, 0x4fu8, 0x58u8, 0x50u8, 0x41u8, 0x43u8, 0x4bu8],
        be32_value(pack_bytes(objs, comps), 7) == objs.len(),
        code <= 7 ==> (entry_tag(code) >> 4u8) & 0x07u8 == code && entry_tag(code) & 0x80u8 == 0x80u8,
        data.len() < 7 ==> spec_parse_pack(data) == PackParse::Parsed(Err(PackError::UnexpectedEof)),
        data.len() >= 7 && data.subrange(0, 7) != seq![0x56u8, 0x4fu8, 0x58u8, 0x50u8, 0x41u8, 0x43u8, 0x4bu8]
            ==> spec_parse_pack(data) == PackParse::Parsed(Err(PackError::InvalidFormat)),
{
    let b = pack_bytes(objs, comps);
    let n = objs.len() as int;
    crate::bytes::lemma_be_roundtrip(0, n as u32, 0);
    assert(b.subrange(0, 7) =~= pack_magic());
    assert(pack_magic() =~= seq![0x56u8, 0x4fu8, 0x58u8, 0x50u8, 0x41u8, 0x43u8, 0x4bu8]);
    assert(b.subrange(7, 11) =~= be32(n as u32));
    assert(b[7] == be32(n as u32)[0]);
    assert(b[8] == be32(n as u32)[1]);
    assert(b[9] == be32(n as u32)[2]);
    assert(b[10] == be32(n as u32)[3]);
    assert(be32_value(b, 7) == be32_value(be32(n as u32), 0));
    assert(code <= 7 ==> ((((code << 4u8) | 0x80u8) as u8 >> 4u8) & 0x07u8) == code && (((code
        << 4u8) | 0x80u8) as u8) & 0x80u8 == 0x80u8) by (bit_vector);
}

/// Reading the entries from the one of object `k` on gives back the objects and
/// the index the writer recorded.
#[verifier::spinoff_prover]
proof fn lemma_parse_entries_from(objs: Seq<PackObjectModel>, comps: Seq<Seq<u8>>, k: int)
    requires
        0 <= k <= objs.len(),
        comps.len() == objs.len(),
        all_packable(objs),
        sizes_fit(comps),
        forall|j: int| 0 <= j < objs.len() ==> zlib_contents(#[trigger] comps[j]) == object_payload(objs[j]),
        lengths_fit(comps),
        objs.len() <= u32::MAX,
    ensures
        spec_parse_entries(
            pack_bytes(objs, comps),
            11 + entries_bytes(objs, comps, k).len() as int,
            (objs.len() - k) as nat,
            objs.subrange(0, k),
            index_after(Map::empty(), objs, comps, k),
        ) == PackParse::Parsed(Ok((objs, index_after(Map::empty(), objs, comps, objs.len() as int)))),
    decreases objs.len() - k,
{
    let n = objs.len() as int;
    let b = pack_bytes(objs, comps);
    if k == n {
        assert(objs.subrange(0, k) =~= objs);
    } else {
        lemma_entries_len(objs, comps, k + 1, n);
        lemma_entries_prefix(objs, comps, k + 1, n);
        let ek = entries_bytes(objs, comps, k);
        let ekl = ek.len() as int;
        let en = entries_bytes(objs, comps, n);
        let comp = comps[k];
        let len = comp.len() as int;
        let pos = 11 + ekl;
        let code = object_code(objs[k]);
        let entry = entry_bytes(code, comp);
        assert(en.subrange(0, ekl + entry.len()) == ek + entry);
        assert forall|t: int| 0 <= t < entry.len() implies b[pos + t] == #[trigger] entry[t] by {
            assert(b[pos + t] == en[ekl + t]);
            assert(en.subrange(0, ekl + entry.len())[ekl + t] == (ek + entry)[ekl + t]);
        }
        assert(len < 0x1000000);
        let size = len as u32;
        assert(b[pos + 0] == entry[0]);
        assert(entry[0] == entry_tag(code));
        assert(code <= 7);
        lemma_entry_tag_code(code);
        proof_be24(size);
        assert(b[pos + 1] == entry[1]);
        assert(b[pos + 2] == entry[2]);
        assert(b[pos + 3] == entry[3]);
        assert(be24_value(b, pos + 1) == size);
        assert(b.subrange(pos + 4, pos + 4 + len) =~= comp) by {
            assert forall|t: int| 0 <= t < len implies b.subrange(pos + 4, pos + 4 + len)[t] == comp[t] by {
                assert(entry[4 + t] == comp[t]);
            }
        }
        match objs[k] {
            PackObjectModel::Base(d, t) => {
                assert(ObjectType::spec_from_code(code) == Some(t));
                assert(objs.subrange(0, k).push(PackObjectModel::Base(d, t)) =~= objs.subrange(0, k + 1));
            },
            PackObjectModel::Delta { base_hash, data } => {
                let hb = choose|hb: Seq<u8>| hb.len() == 20 && #[trigger] spec_hex(hb) == base_hash;
                lemma_hex_roundtrip(hb);
                let dec = hb + data;
                assert(zlib_contents(comp) == Some(dec));
                assert(dec.subrange(0, 20) =~= hb);
                assert(dec.subrange(20, dec.len() as int) =~= data);
                assert(ObjectType::spec_from_code(code) == Some(ObjectType::DeltaRef));
                assert(objs.subrange(0, k).push(PackObjectModel::Delta { base_hash, data })
                    =~= objs.subrange(0, k + 1));
            },
        }
        lemma_parse_entries_from(objs, comps, k + 1);
    }
}

/// The 24-bit size field reads back as the size it was written from.
proof fn proof_be24(size: u32)
    requires
        size < 0x1000000,
    ensures
        be24_value(be24(size), 0) == size,
{
    crate::bytes::lemma_be_roundtrip(0, size, 0);
}

/// What the reader gives back of a packfile of complete objects: the objects and
/// the index the writer records, starting from an empty one.
proof fn lemma_pack_roundtrip(objs: Seq<PackObjectModel>, comps: Seq<Seq<u8>>)
    requires
        comps.len() == objs.len(),
        all_packable(objs),
        sizes_fit(comps),
        forall|j: int| 0 <= j < objs.len() ==> zlib_contents(#[trigger] comps[j]) == object_payload(objs[j]),
        lengths_fit(comps),
        objs.len() <= u32::MAX,
    ensures
        spec_parse_pack(pack_bytes(objs, comps)) == PackParse::Parsed(
            Ok((objs, index_after(Map::empty(), objs, comps, objs.len() as int))),
        ),
{
    let n = objs.len() as int;
    let b = pack_bytes(objs, comps);
    crate::bytes::lemma_be_roundtrip(0, n as u32, 0);
    assert(b.subrange(0, 7) =~= pack_magic());
    assert(b[7] == be32(n as u32)[0]);
    assert(b[8] == be32(n as u32)[1]);
    assert(b[9] == be32(n as u32)[2]);
    assert(b[10] == be32(n as u32)[3]);
    assert(be32_value(b, 7) == n as u32);
    assert(objs.subrange(0, 0) =~= Seq::<PackObjectModel>::empty());
    lemma_parse_entries_from(objs, comps, 0);
}

/// The value of a packfile read: its objects and its index.
pub open spec fn pack_result_view(r: Result<Packfile, PackError>) -> Result<(Seq<PackObjectModel>, Map<Seq<char>, ObjectLocation>), PackError> {
    match r {
        Ok(p) => Ok((objects_model(p.objects@), p.index.as_map())),
        Err(e) => Err(e),
    }
}

/// A collection of packed objects, with an index from object hash to location.
#[derive(Debug)]
pub struct Packfile {
    /// The packed objects.
    pub objects: Vec<PackObject>,
    /// Where each object lies, by the hash of its data.
    pub index: KeyedMap<ObjectLocation>,
}

/// Whether the bytes `data[at..at + pat.len()]` are `pat`.
fn bytes_at(data: &[u8], at: usize, pat: &[u8]) -> (r: bool)
    requires
        at <= data@.len(),
    ensures
        r == (at + pat@.len() <= data@.len() && data@.subrange(at as int, at + pat@.len()) == pat@),
{
    let n: usize = data.len();
    if pat.len() > n - at {
        return false;
    }
    let mut i: usize = 0;
    while i < pat.len()
        invariant
            n == data@.len(),
            i <= pat@.len(),
            at + pat@.len() <= data@.len(),
            forall|j: int| 0 <= j < i ==> data@[at + j] == pat@[j],
        decreases pat@.len() - i,
    {
        assert(at + i < data@.len());
        if data[at + i] != pat[i] {
            assert(data@.subrange(at as int, at + pat@.len())[i as int] != pat@[i as int]);
            return false;
        }
        i = i + 1;
    }
    assert(data@.subrange(at as int, at + pat@.len()) =~= pat@);
    true
}

impl Packfile {
    /// An empty packfile.
    pub fn new() -> (p: Self)
        ensures
            p.objects@.len() == 0,
            p.index.as_map() == Map::<Seq<char>, ObjectLocation>::empty(),
    {
        Packfile { objects: Vec::new(), index: KeyedMap::new() }
    }

    /// Adds an object as a complete (base) entry. Only commits, trees, blobs and
    /// tags can be packed.
    pub fn add_object<O: VoxObject>(&mut self, obj: &O) -> (r: Result<(), PackError>)
        ensures
            final(self).index.as_map() == old(self).index.as_map(),
            spec_type_for_name(obj.kind()) is None ==> r == Err::<(), PackError>(
                PackError::UnsupportedObjectType,
            ) && final(self).objects@ == old(self).objects@,
            spec_type_for_name(obj.kind()) is Some && obj.encoding() is None ==> r == Err::<(), PackError>(
                PackError::Object(ObjectError::Encoding),
            ) && final(self).objects@ == old(self).objects@,
            spec_type_for_name(obj.kind()) is Some && obj.encoding() is Some ==> r is Ok
                && objects_model(final(self).objects@) == objects_model(old(self).objects@).push(
                PackObjectModel::Base(obj.encoding().unwrap(), spec_type_for_name(obj.kind()).unwrap()),
            ),
    {
        let name = obj.object_type();
        let obj_type = if str_eq(name, OBJ_TYPE_COMMIT) {
            ObjectType::Commit
        } else if str_eq(name, OBJ_TYPE_TREE) {
            ObjectType::Tree
        } else if str_eq(name, OBJ_TYPE_BLOB) {
            ObjectType::Blob
        } else if str_eq(name, OBJ_TYPE_TAG) {
            ObjectType::Tag
        } else {
            return Err(PackError::UnsupportedObjectType);
        };
        let data = match obj.serialize() {
            Ok(d) => d,
            Err(_) => {
                return Err(PackError::Object(ObjectError::Encoding));
            },
        };
        let ghost before = self.objects@;
        self.objects.push(PackObject::Base(data, obj_type));
        assert(objects_model(self.objects@) =~= objects_model(before).push(
            PackObjectModel::Base(obj.encoding().unwrap(), obj_type),
        ));
        Ok(())
    }

    /// Writes the packfile, object `i` compressed as `compressed[i]`, and records
    /// each object in the index: its hash maps to the offset where its entry
    /// starts, its compressed size and its type code.
    pub fn write_pack(&mut self, compressed: &Vec<Vec<u8>>) -> (bytes: Vec<u8>)
        requires
            compressed@.len() == old(self).objects@.len(),
            sizes_fit(byte_views(compressed@)),
            12 + entries_bytes(
                objects_model(old(self).objects@),
                byte_views(compressed@),
                old(self).objects@.len() as int,
            ).len() <= usize::MAX,
        ensures
            final(self).objects@ == old(self).objects@,
            bytes@ == pack_bytes(objects_model(old(self).objects@), byte_views(compressed@)),
            final(self).index.as_map() == index_after(
                old(self).index.as_map(),
                objects_model(old(self).objects@),
                byte_views(compressed@),
                old(self).objects@.len() as int,
            ),
    {
        let ghost objs = objects_model(self.objects@);
        let ghost comps = byte_views(compressed@);
        let ghost n = self.objects@.len() as int;
        let mut buffer: Vec<u8> = Vec::new();
        let magic: [u8; 7] = [0x56, 0x4f, 0x58, 0x50, 0x41, 0x43, 0x4b];
        let mut m: usize = 0;
        while m < 7
            invariant
                m <= 7,
                buffer@ == magic@.subrange(0, m as int),
            decreases 7 - m,
        {
            buffer.push(magic[m]);
            assert(magic@.subrange(0, m + 1) =~= magic@.subrange(0, m as int).push(magic@[m as int]));
            m = m + 1;
        }
        assert(magic@ =~= pack_magic());
        push_be32(&mut buffer, self.objects.len() as u32);
        let mut offset: usize = 11;
        let mut i: usize = 0;
        while i < self.objects.len()
            invariant
                self.objects@ == old(self).objects@,
                objs == objects_model(self.objects@),
                comps == byte_views(compressed@),
                n == self.objects@.len(),
                compressed@.len() == n,
                i <= n,
                sizes_fit(comps),
                12 + entries_bytes(objs, comps, n).len() <= usize::MAX,
                offset == 11 + entries_bytes(objs, comps, i as int).len(),
                buffer@ == pack_magic() + be32(n as u32) + entries_bytes(objs, comps, i as int),
                self.index.as_map() == index_after(old(self).index.as_map(), objs, comps, i as int),
            decreases n - i,
        {
            proof {
                lemma_entries_len(objs, comps, i + 1, n);
            }
            let (code, hash): (u8, String) = match &self.objects[i] {
                PackObject::Base(data, t) => (t.code(), object_hash(data.as_slice())),
                PackObject::Delta { base_hash: _, data } => (7u8, object_hash(data.as_slice())),
            };
            assert(objs[i as int] == self.objects@[i as int]@);
            let comp = &compressed[i];
            let size: u32 = comp.len() as u32;
            assert(comps[i as int] == comp@);
            assert((comps[i as int].len() as u32) < 0x1000000);
            let ghost before = buffer@;
            buffer.push(((code << 4u8) | 0x80u8) as u8);
            push_be24(&mut buffer, size);
            let mut j: usize = 0;
            while j < comp.len()
                invariant
                    j <= comp@.len(),
                    buffer@ == before + seq![entry_tag(code)] + be24(size) + comp@.subrange(0, j as int),
                decreases comp@.len() - j,
            {
                buffer.push(comp[j]);
                assert(comp@.subrange(0, j + 1) =~= comp@.subrange(0, j as int).push(comp@[j as int]));
                j = j + 1;
            }
            assert(comp@.subrange(0, comp@.len() as int) =~= comp@);
            assert(buffer@ =~= pack_magic() + be32(n as u32) + entries_bytes(objs, comps, i + 1));
            self.index.insert(hash, ObjectLocation { offset: offset as u64, size, type_code: code });
            offset = offset + 4 + comp.len();
            i = i + 1;
        }
        buffer
    }

    /// Writes the packfile: each object's entry compressed at the best level,
    /// after a header of its type code and compressed size; a delta's entry is
    /// its base hash as 20 bytes, then its instructions. Each object is recorded
    /// in the index by the hash of its data (for a delta, its instructions).
    ///
    /// Where a delta's base hash is not 40 hexadecimal digits, the result is
    /// `InvalidBaseHash`; where a compressed object does not fit the 24-bit size
    /// field, or the packfile would not fit in memory, `ObjectTooLarge`. Then
    /// nothing is recorded.
    pub fn serialize(&mut self) -> (r: Result<Vec<u8>, PackError>)
        ensures
            final(self).objects@ == old(self).objects@,
            !payloads_ok(objects_model(old(self).objects@)) ==> r == Err::<Vec<u8>, PackError>(
                PackError::InvalidBaseHash,
            ) && final(self).index.as_map() == old(self).index.as_map(),
            payloads_ok(objects_model(old(self).objects@)) ==> ({
                let objs = objects_model(old(self).objects@);
                let comps = compressed_objects(objs);
                if sizes_fit(comps) && 12 + entries_bytes(objs, comps, objs.len() as int).len()
                    <= usize::MAX {
                    r is Ok && r.unwrap()@ == pack_bytes(objs, comps) && final(self).index.as_map()
                        == index_after(old(self).index.as_map(), objs, comps, objs.len() as int)
                } else {
                    r == Err::<Vec<u8>, PackError>(PackError::ObjectTooLarge)
                        && final(self).index.as_map() == old(self).index.as_map()
                }
            }),
            // What the reader gives back of a packfile written with an empty index,
            // whose objects are complete ones of a type other than a delta reference
            // or deltas with a lower-case hexadecimal base hash, whose object count
            // fits its 32 bits and whose compressed objects are each shorter than
            // 2^24 bytes: the objects and the index.
            r is Ok && old(self).index.as_map() == Map::<Seq<char>, ObjectLocation>::empty()
                && all_packable(objects_model(old(self).objects@)) && old(self).objects@.len()
                <= u32::MAX && lengths_fit(compressed_objects(objects_model(old(self).objects@)))
                ==> spec_parse_pack(r.unwrap()@) == PackParse::Parsed(
                Ok((objects_model(old(self).objects@), final(self).index.as_map())),
            ),
    {
        let ghost objs = objects_model(self.objects@);
        let mut compressed: Vec<Vec<u8>> = Vec::new();
        let mut i: usize = 0;
        while i < self.objects.len()
            invariant
                objs == objects_model(self.objects@),
                i <= self.objects@.len(),
                compressed@.len() == i,
                self.objects@ == old(self).objects@,
                self.index.as_map() == old(self).index.as_map(),
                forall|j: int| 0 <= j < i ==> (#[trigger] object_payload(objs[j])) is Some,
                forall|j: int|
                    0 <= j < i ==> zlib_stream(BEST_LEVEL, object_payload(#[trigger] objs[j]).unwrap())
                        == compressed@[j]@,
                forall|j: int|
                    0 <= j < i ==> zlib_contents(#[trigger] compressed@[j]@) == object_payload(objs[j]),
            decreases self.objects@.len() - i,
        {
            assert(objs[i as int] == self.objects@[i as int]@);
            let c = match &self.objects[i] {
                PackObject::Base(data, _) => zlib_compress(data.as_slice(), BEST_LEVEL),
                PackObject::Delta { base_hash, data } => {
                    let mut entry = match decode_hex(base_hash.as_str()) {
                        Ok(b) => b,
                        Err(_) => {
                            assert(object_payload(objs[i as int]) is None);
                            return Err(PackError::InvalidBaseHash);
                        },
                    };
                    if entry.len() != 20 {
                        assert(object_payload(objs[i as int]) is None);
                        return Err(PackError::InvalidBaseHash);
                    }
                    append_range(&mut entry, data.as_slice(), 0, data.len());
                    assert(data@.subrange(0, data@.len() as int) =~= data@);
                    zlib_compress(entry.as_slice(), BEST_LEVEL)
                },
            };
            compressed.push(c.unwrap());
            i = i + 1;
        }
        assert(payloads_ok(objs));
        let ghost comps = byte_views(compressed@);
        assert(forall|j: int| 0 <= j < objs.len() ==> zlib_contents(#[trigger] comps[j]) == object_payload(objs[j])) by {
            assert(forall|j: int| 0 <= j < objs.len() ==> comps[j] == compressed@[j]@);
        }
        assert(compressed_objects(objs) =~= comps);
        let mut total: usize = 12;
        let mut k: usize = 0;
        while k < compressed.len()
            invariant
                k <= compressed@.len(),
                comps == byte_views(compressed@),
                compressed@.len() == objs.len(),
                total == 12 + entries_bytes(objs, comps, k as int).len(),
                sizes_fit(comps.subrange(0, k as int)),
                compressed_objects(objs) == comps,
                self.index.as_map() == old(self).index.as_map(),
                self.objects@ == old(self).objects@,
                objs == objects_model(old(self).objects@),
                payloads_ok(objs),
                forall|j: int|
                    0 <= j < objs.len() ==> zlib_contents(#[trigger] comps[j]) == object_payload(objs[j]),
            decreases compressed@.len() - k,
        {
            proof {
                lemma_entries_len(objs, comps, k + 1, k + 1);
            }
            let len: usize = compressed[k].len();
            assert(comps[k as int] == compressed@[k as int]@);
            if (len as u32) >= 0x1000000 {
                assert(!sizes_fit(comps));
                return Err(PackError::ObjectTooLarge);
            }
            if total > usize::MAX - 4 || total + 4 > usize::MAX - len {
                proof {
                    lemma_entries_len(objs, comps, k + 1, objs.len() as int);
                }
                return Err(PackError::ObjectTooLarge);
            }
            total = total + 4 + len;
            assert(comps.subrange(0, k + 1) =~= comps.subrange(0, k as int).push(comps[k as int]));
            k = k + 1;
        }
        assert(comps.subrange(0, k as int) =~= comps);
        let bytes = self.write_pack(&compressed);
        proof {
            if old(self).index.as_map() == Map::<Seq<char>, ObjectLocation>::empty()
                && all_packable(objs) && objs.len() <= u32::MAX && lengths_fit(comps) {
                lemma_pack_roundtrip(objs, comps);
            }
        }
        Ok(bytes)
    }

    /// Reads a packfile; `None` where reading aborts (a delta entry whose data
    /// is shorter than the 20-byte base hash).
    fn parse_pack(data: &[u8]) -> (r: Option<Result<Packfile, PackError>>)
        ensures
            r is None <==> spec_parse_pack(data@) == PackParse::Panics,
            r matches Some(res) ==> spec_parse_pack(data@) == PackParse::Parsed(pack_result_view(res)),
    {
        let magic: [u8; 7] = [0x56, 0x4f, 0x58, 0x50, 0x41, 0x43, 0x4b];
        assert(magic@ =~= pack_magic());
        if data.len() < 7 {
            return Some(Err(PackError::UnexpectedEof));
        }
        if !bytes_at(data, 0, magic.as_slice()) {
            return Some(Err(PackError::InvalidFormat));
        }
        if data.len() < 11 {
            return Some(Err(PackError::UnexpectedEof));
        }
        let count: u32 = read_be32(data, 7);
        let mut pack = Packfile::new();
        let mut pos: usize = 11;
        let mut k: u32 = 0;
        assert(objects_model(pack.objects@) =~= Seq::<PackObjectModel>::empty());
        while k < count
            invariant
                11 <= pos <= data@.len(),
                k <= count,
                spec_parse_pack(data@) == spec_parse_entries(
                    data@,
                    pos as int,
                    (count - k) as nat,
                    objects_model(pack.objects@),
                    pack.index.as_map(),
                ),
            decreases count - k,
        {
            let len: usize = data.len();
            if len - pos < 4 {
                return Some(Err(PackError::UnexpectedEof));
            }
            let first: u8 = data[pos];
            let code: u8 = (first >> 4u8) & 0x07u8;
            let size: u32 = read_be24(data, pos + 1);
            if (size as usize) > len - pos - 4 {
                return Some(Err(PackError::UnexpectedEof));
            }
            let next: usize = pos + 4 + size as usize;
            let comp = copy_range(data, pos + 4, next);
            let loc = ObjectLocation { offset: pos as u64, size, type_code: code };
            let dec = match zlib_decompress(comp.as_slice()) {
                Some(d) => d,
                None => {
                    return Some(Err(PackError::Decompression));
                },
            };
            let obj_type = match ObjectType::from_code(code) {
                Some(t) => t,
                None => {
                    return Some(Err(PackError::InvalidObjectType));
                },
            };
            let ghost objs_before = objects_model(pack.objects@);
            match obj_type {
                ObjectType::DeltaRef => {
                    if dec.len() < 20 {
                        return None;
                    }
                    let base = copy_range(dec.as_slice(), 0, 20);
                    let delta_data = copy_range(dec.as_slice(), 20, dec.len());
                    let hash = object_hash(delta_data.as_slice());
                    let base_hash = to_hex(base.as_slice());
                    pack.objects.push(PackObject::Delta { base_hash, data: delta_data });
                    pack.index.insert(hash, loc);
                },
                _ => {
                    let hash = object_hash(dec.as_slice());
                    pack.objects.push(PackObject::Base(dec, obj_type));
                    pack.index.insert(hash, loc);
                },
            }
            assert(objects_model(pack.objects@) =~= objs_before.push(pack.objects@.last()@));
            pos = next;
            k = k + 1;
        }
        Some(Ok(pack))
    }

    /// Reads a packfile: the magic, the object count, then each entry, its data
    /// decompressed; a delta entry's first 20 bytes are the base hash. Each
    /// object is recorded in the index by the hash of its data (for a delta,
    /// without the base hash).
    pub fn deserialize(data: &[u8]) -> (r: Result<Packfile, PackError>)
        requires
            spec_parse_pack(data@) != PackParse::Panics,
        ensures
            spec_parse_pack(data@) == PackParse::Parsed(pack_result_view(r)),
    {
        match Self::parse_pack(data) {
            Some(r) => r,
            None => Err(PackError::UnexpectedEof),
        }
    }

    /// Reads a packfile as `deserialize` does; `None` where reading aborts (a
    /// delta entry shorter than the 20-byte base hash).
    pub fn deserialize_checked(data: &[u8]) -> (r: Option<Result<Packfile, PackError>>)
        ensures
            r is None <==> spec_parse_pack(data@) == PackParse::Panics,
            r matches Some(res) ==> spec_parse_pack(data@) == PackParse::Parsed(pack_result_view(res)),
    {
        match Self::parse_pack(data) {
            None => None,
            Some(_) => Some(Self::deserialize(data)),
        }
    }

    /// Detects an object's type from its first bytes: "commit", "tree" and "tag"
    /// name themselves; anything else is a blob.
    pub fn detect_type(data: &[u8]) -> (r: Result<ObjectType, PackError>)
        ensures
            r == Ok::<ObjectType, PackError>(spec_detect_type(data@)),
    {
        let commit: [u8; 6] = [0x63, 0x6f, 0x6d, 0x6d, 0x69, 0x74];
        let tree: [u8; 4] = [0x74, 0x72, 0x65, 0x65];
        let tag: [u8; 3] = [0x74, 0x61, 0x67];
        assert(commit@ =~= seq![0x63u8, 0x6fu8, 0x6du8, 0x6du8, 0x69u8, 0x74u8]);
        assert(tree@ =~= seq![0x74u8, 0x72u8, 0x65u8, 0x65u8]);
        assert(tag@ =~= seq![0x74u8, 0x61u8, 0x67u8]);
        if bytes_at(data, 0, commit.as_slice()) {
            Ok(ObjectType::Commit)
        } else if bytes_at(data, 0, tree.as_slice()) {
            Ok(ObjectType::Tree)
        } else if bytes_at(data, 0, tag.as_slice()) {
            Ok(ObjectType::Tag)
        } else {
            Ok(ObjectType::Blob)
        }
    }
}

} // verus!
