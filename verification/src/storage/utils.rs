//! What every stored object offers, and the names the repository layout uses.

use vstd::prelude::*;
use vstd::utf8::*;
use crate::decimal::{decimal, usize_to_string};
use crate::paths::{join_path, path_join};
use crate::storage::codec::{object_hash, spec_object_hash, zlib_compress, zlib_contents, zlib_stream, DEFAULT_LEVEL};
use crate::text::{push_char, push_str, split_at_byte, str_bytes, str_chars, string_from_chars};

verus! {

/// The repository directory, relative to the working directory.
pub const VOX_DIR: &'static str = ".vox";

/// Where objects are stored, relative to the working directory.
pub const OBJ_DIR: &'static str = ".vox/objects";

/// Where references are stored, relative to the working directory.
pub const REFS_DIR: &'static str = ".vox/refs";

/// The file naming the current branch or commit.
pub const HEAD_DIR: &'static str = ".vox/HEAD";

/// The staging index file.
pub const INDEX_FILE: &'static str = ".vox/index";

pub const OBJ_TYPE_BLOB: &'static str = "blob";

pub const OBJ_TYPE_COMMIT: &'static str = "commit";

pub const OBJ_TYPE_TAG: &'static str = "tag";

pub const OBJ_TYPE_TREE: &'static str = "tree";

pub const OBJ_TYPE_CHANGE: &'static str = "change";

pub const UNKNOWN_TYPE: &'static str = "unknown type";

pub const PERM_FILE: &'static str = "100644";

pub const PERM_DIR: &'static str = "40000";

/// Why an object could not be encoded.
#[derive(Debug, PartialEq, Eq, Structural)]
pub enum ObjectError {
    /// The object's data could not be encoded.
    Encoding,
}

/// The path at which an object with hash `hash` is stored: the first two
/// characters of the hash name a directory, the rest the file in it.
pub open spec fn spec_object_path(objects_dir: Seq<char>, hash: Seq<char>) -> Seq<char> {
    objects_dir + seq!['/'] + hash.subrange(0, 2) + seq!['/'] + hash.subrange(2, hash.len() as int)
}

/// The storage path of the object with hash `hash` under `objects_dir`.
pub fn object_path_for(objects_dir: &str, hash: &str) -> (p: String)
    requires
        hash@.len() >= 2,
    ensures
        p@ == spec_object_path(objects_dir@, hash@),
{
    let cs = str_chars(hash);
    let mut p = String::new();
    push_str(&mut p, objects_dir);
    push_char(&mut p, '/');
    push_char(&mut p, cs[0]);
    push_char(&mut p, cs[1]);
    push_char(&mut p, '/');
    let mut i: usize = 2;
    while i < cs.len()
        invariant
            2 <= i <= cs@.len(),
            cs@ == hash@,
            p@ == objects_dir@ + seq!['/'] + cs@.subrange(0, 2) + seq!['/'] + cs@.subrange(2, i as int),
        decreases cs@.len() - i,
    {
        push_char(&mut p, cs[i]);
        assert(cs@.subrange(2, i + 1) =~= cs@.subrange(2, i as int).push(cs@[i as int]));
        i = i + 1;
    }
    assert(cs@.subrange(0, 2) =~= seq![cs@[0], cs@[1]]);
    p
}

/// An object that can be stored: it has a type name and an encoding, and is
/// known by the hash of that encoding.
pub trait VoxObject {
    /// The type name.
    spec fn kind(&self) -> Seq<char>;

    /// The encoding, where the object has one.
    spec fn encoding(&self) -> Option<Seq<u8>>;

    /// The type name ("blob", "commit", ...).
    fn object_type(&self) -> (t: &str)
        ensures
            t@ == self.kind(),
    ;

    /// The encoding.
    fn serialize(&self) -> (r: Result<Vec<u8>, ObjectError>)
        ensures
            r is Ok <==> self.encoding() is Some,
            r matches Ok(v) ==> self.encoding() == Some(v@),
    ;

    /// The SHA-1 hash of the encoding, in lower-case hexadecimal.
    fn hash(&self) -> (r: Result<String, ObjectError>)
        ensures
            r is Ok <==> self.encoding() is Some,
            r matches Ok(h) ==> h@ == spec_object_hash(self.encoding().unwrap()) && h@.len() == 40,
    {
        match self.serialize() {
            Ok(data) => Ok(object_hash(data.as_slice())),
            Err(e) => Err(e),
        }
    }

    /// Where the object is stored: under the objects directory, in the directory
    /// named by the first two characters of its hash.
    fn object_path(&self) -> (r: Result<String, ObjectError>)
        ensures
            r is Ok <==> self.encoding() is Some,
            r matches Ok(p) ==> p@ == spec_object_path(
                OBJ_DIR@,
                spec_object_hash(self.encoding().unwrap()),
            ),
    {
        match self.hash() {
            Ok(h) => Ok(object_path_for(OBJ_DIR, h.as_str())),
            Err(e) => Err(e),
        }
    }
}


/// How an object is stored before compression: its type name, a space, the
/// length of its encoding in decimal, a zero byte, then the encoding.
pub open spec fn framed(kind: Seq<char>, content: Seq<u8>) -> Seq<u8> {
    encode_utf8(kind + seq![' '] + decimal(content.len() as int)) + seq![0u8] + content
}

/// The stored form of an object of type `kind` with encoding `content`.
pub fn frame_object(kind: &str, content: &[u8]) -> (r: Vec<u8>)
    ensures
        r@ == framed(kind@, content@),
{
    let mut header = String::new();
    push_str(&mut header, kind);
    push_char(&mut header, ' ');
    let len = usize_to_string(content.len());
    push_str(&mut header, len.as_str());
    let mut r = str_bytes(header.as_str());
    r.push(0);
    crate::bytes::append_range(&mut r, content, 0, content.len());
    assert(content@.subrange(0, content@.len() as int) =~= content@);
    assert(header@ =~= kind@ + seq![' '] + decimal(content@.len() as int));
    assert(r@ =~= framed(kind@, content@));
    r
}

/// Where an object with hash `hash` is stored under `objects_dir`: the first
/// two bytes of the hash name a directory, the rest the file in it.
pub open spec fn stored_dir(objects_dir: Seq<char>, hash: Seq<char>) -> Seq<char> {
    path_join(objects_dir, decode_utf8(encode_utf8(hash).subrange(0, 2)))
}

pub open spec fn stored_file(objects_dir: Seq<char>, hash: Seq<char>) -> Seq<char> {
    path_join(
        stored_dir(objects_dir, hash),
        decode_utf8(encode_utf8(hash).subrange(2, encode_utf8(hash).len() as int)),
    )
}

/// Whether the first two bytes of `hash` end on a character boundary, as
/// slicing it there needs.
pub open spec fn hash_splits(hash: Seq<char>) -> bool {
    2 <= encode_utf8(hash).len() && is_char_boundary(encode_utf8(hash), 2)
}

/// The directory and file where the object with hash `hash` is stored.
pub fn object_file(objects_dir: &str, hash: &str) -> (r: (String, String))
    requires
        hash_splits(hash@),
    ensures
        r.0@ == stored_dir(objects_dir@, hash@),
        r.1@ == stored_file(objects_dir@, hash@),
{
    let (head, rest) = split_at_byte(hash, 2);
    let dir = join_path(objects_dir, head.as_str());
    let file = join_path(dir.as_str(), rest.as_str());
    (dir, file)
}

/// What to write to store an object: its hash, the directory and file it goes
/// in, and the compressed data.
#[derive(Debug)]
pub struct SavePlan {
    pub hash: String,
    pub dir: String,
    pub file: String,
    pub data: Vec<u8>,
}

/// An object hash is forty ASCII characters, so it splits after two bytes.
proof fn lemma_object_hash_splits(data: Seq<u8>)
    requires
        spec_object_hash(data).len() == 40,
    ensures
        hash_splits(spec_object_hash(data)),
{
    let h = spec_object_hash(data);
    crate::storage::codec::lemma_object_hash_ascii(data);
    crate::text::lemma_ascii_char_boundary(h, 2);
}

/// An object that can be read back from its stored form.
pub trait Loadable: Sized {
    /// Why a stored form could not be read back.
    type LoadError;

    /// The object whose stored form, compressed, is `data`.
    fn from_stored(data: &[u8]) -> Result<Self, Self::LoadError>;
}

/// An object that can be stored: compressed in its stored form under the
/// objects directory, at the path its hash names.
pub trait Storable: VoxObject {
    /// The object's hash, where it goes under `objects_dir`, and the data to
    /// write there: its stored form, compressed at the default level.
    fn save(&self, objects_dir: &str) -> (r: Result<SavePlan, ObjectError>)
        ensures
            match self.encoding() {
                None => r is Err,
                Some(enc) => r matches Ok(p) && p.hash@ == spec_object_hash(enc) && p.dir@
                    == stored_dir(objects_dir@, spec_object_hash(enc)) && p.file@ == stored_file(
                    objects_dir@,
                    spec_object_hash(enc),
                ) && p.data@ == zlib_stream(DEFAULT_LEVEL, framed(self.kind(), enc)) && zlib_contents(
                    p.data@,
                ) == Some(framed(self.kind(), enc)),
            },
    {
        let content = match self.serialize() {
            Ok(c) => c,
            Err(e) => return Err(e),
        };
        let hash = object_hash(content.as_slice());
        let framed = frame_object(self.object_type(), content.as_slice());
        let data = zlib_compress(framed.as_slice(), DEFAULT_LEVEL).unwrap();
        proof {
            lemma_object_hash_splits(content@);
        }
        let (dir, file) = object_file(objects_dir, hash.as_str());
        Ok(SavePlan { hash, dir, file, data })
    }
}


/// The header of an object's stored form ends at its first zero byte, where
/// the type name holds no NUL: the encoding follows it.
pub proof fn lemma_framed_content(kind: Seq<char>, content: Seq<u8>)
    requires
        forall|i: int| 0 <= i < kind.len() ==> kind[i] != '\0',
    ensures
        crate::bytes::first_zero(framed(kind, content), 0) == Some(
            encode_utf8(kind + seq![' '] + decimal(content.len() as int)).len() as int,
        ),
        framed(kind, content).subrange(
            encode_utf8(kind + seq![' '] + decimal(content.len() as int)).len() + 1int,
            framed(kind, content).len() as int,
        ) == content,
{
    let hs = kind + seq![' '] + decimal(content.len() as int);
    let h = encode_utf8(hs);
    let f = framed(kind, content);
    crate::decimal::lemma_digits_value(content.len() as nat);
    assert forall|i: int| 0 <= i < hs.len() implies hs[i] != '\0' by {
        if i > kind.len() {
            let ds = crate::decimal::digits(content.len() as nat);
            assert(hs[i] == ds[i - kind.len() - 1]);
            assert(crate::decimal::is_digit(ds[i - kind.len() - 1]));
        }
    }
    crate::text::lemma_utf8_no_zero(hs);
    assert forall|t: int| 0 <= t < h.len() implies f[t] != 0 by {
        assert(f[t] == h[t]);
    }
    assert(f[h.len() as int] == 0);
    crate::bytes::lemma_first_zero_after(f, 0, h.len() as int);
    assert(f.subrange(h.len() + 1int, f.len() as int) =~= content);
}


/// The object store of a repository: its objects directory.
#[derive(Debug)]
pub struct ObjectStorage {
    pub dir: String,
}

impl ObjectStorage {
    /// The object store of the repository at `repo_path`: `.vox/objects` under it.
    pub fn new(repo_path: &str) -> (s: Self)
        ensures
            s.dir@ == path_join(repo_path@, OBJ_DIR@),
    {
        ObjectStorage { dir: join_path(repo_path, OBJ_DIR) }
    }
}

} // verus!
