//! The staging index: one entry per tracked file, with the file's metadata and
//! the hash of its content, and its file format.
//!
//! File format: the signature `DIRC`, the version 2 and the number of entries,
//! each a big-endian `u32`; then each entry, in path order: mtime (`u64`), dev,
//! ino, uid, gid, mode, size (`u32` each, big-endian), the 20-byte hash, the
//! flags (`u16`) and the path, ended by a zero byte.

use vstd::prelude::*;
use vstd::utf8::*;
use crate::bytes::{
    first_zero, lemma_first_zero_after, be16, be16_value, be32, be32_value, be64, be64_value, copy_range, push_be16, push_be32,
    push_be64, read_be16, read_be32, read_be64,
};
use crate::keyed::{entries_map, keys_sorted, KeyedMap};
use crate::paths::{lookup_key, normalize_path, path_key, strip_cur_dir_key};
use crate::text::{lossy_text, str_bytes, string_from_utf8_lossy};

verus! {

/// Why an index file could not be read.
#[derive(Debug, PartialEq, Eq, Structural)]
pub enum IndexError {
    /// The data ends before the index does.
    UnexpectedEof,
    /// The data does not start with `DIRC`.
    InvalidSignature,
    /// The version is not 2.
    UnsupportedVersion,
}

/// An entry of the index: a tracked file's metadata and content hash.
#[derive(Debug, Clone)]
pub struct IndexEntry {
    /// Last modification time.
    pub mtime: u64,
    pub dev: u32,
    pub ino: u32,
    pub mode: u32,
    pub uid: u32,
    /// Group ID of the file owner.
    pub gid: u32,
    /// Size of the file in bytes.
    pub size: u32,
    /// SHA-1 hash of the file content.
    pub hash: [u8; 20],
    pub flags: u16,
    /// Path of the file, relative to the repository root.
    pub path: String,
}

/// The value of an index entry.
pub struct EntryModel {
    pub mtime: u64,
    pub dev: u32,
    pub ino: u32,
    pub mode: u32,
    pub uid: u32,
    pub gid: u32,
    pub size: u32,
    pub hash: Seq<u8>,
    pub flags: u16,
    pub path: Seq<char>,
}

impl View for IndexEntry {
    type V = EntryModel;

    open spec fn view(&self) -> EntryModel {
        EntryModel {
            mtime: self.mtime,
            dev: self.dev,
            ino: self.ino,
            mode: self.mode,
            uid: self.uid,
            gid: self.gid,
            size: self.size,
            hash: self.hash@,
            flags: self.flags,
            path: self.path@,
        }
    }
}

/// The index file signature, `DIRC`.
pub open spec fn index_signature() -> Seq<u8> {
    seq![0x44u8, 0x49u8, 0x52u8, 0x43u8]
}

/// How an entry is written.
pub open spec fn entry_record(e: EntryModel) -> Seq<u8> {
    be64(e.mtime) + be32(e.dev) + be32(e.ino) + be32(e.uid) + be32(e.gid) + be32(e.mode) + be32(
        e.size,
    ) + e.hash + be16(e.flags) + encode_utf8(e.path) + seq![0u8]
}

/// The records of the first `n` entries.
pub open spec fn records_bytes(es: Seq<(String, IndexEntry)>, n: int) -> Seq<u8>
    decreases n,
{
    if n <= 0 {
        Seq::empty()
    } else {
        records_bytes(es, n - 1) + entry_record(es[n - 1].1@)
    }
}

/// A whole index file for the entries `es`, in their order.
pub open spec fn index_bytes(es: Seq<(String, IndexEntry)>) -> Seq<u8> {
    index_signature() + be32(2) + be32(es.len() as u32) + records_bytes(es, es.len() as int)
}

/// The entry whose fixed fields start at `pos` and whose path ends at `z`. The
/// fields are read in the order they are written: mtime, dev, ino, uid, gid,
/// mode, size.
pub open spec fn read_entry(data: Seq<u8>, pos: int, z: int) -> EntryModel {
    EntryModel {
        mtime: be64_value(data, pos),
        dev: be32_value(data, pos + 8),
        ino: be32_value(data, pos + 12),
        uid: be32_value(data, pos + 16),
        gid: be32_value(data, pos + 20),
        mode: be32_value(data, pos + 24),
        size: be32_value(data, pos + 28),
        hash: data.subrange(pos + 32, pos + 52),
        flags: be16_value(data, pos + 52),
        path: lossy_text(data.subrange(pos + 54, z)),
    }
}

/// Reading `left` more entries from `pos` into the entries `m` read so far;
/// each goes in under its path, replacing an entry of the same path.
pub open spec fn spec_read_entries(data: Seq<u8>, pos: int, left: nat, m: Map<Seq<char>, EntryModel>) -> (Result<(), IndexError>, Map<Seq<char>, EntryModel>)
    decreases left,
{
    if left == 0 {
        (Ok(()), m)
    } else if pos < 0 || pos + 54 > data.len() {
        (Err(IndexError::UnexpectedEof), m)
    } else {
        match first_zero(data, pos + 54) {
            None => (Err(IndexError::UnexpectedEof), m),
            Some(z) => {
                let e = read_entry(data, pos, z);
                spec_read_entries(data, z + 1, (left - 1) as nat, m.insert(path_key(e.path), e))
            },
        }
    }
}

/// Reading an index file over an index holding `before`: the outcome, and the
/// entries held afterwards (the old ones are dropped once the header is read).
pub open spec fn spec_read_index(data: Seq<u8>, before: Map<Seq<char>, EntryModel>) -> (Result<(), IndexError>, Map<Seq<char>, EntryModel>) {
    if data.len() < 4 {
        (Err(IndexError::UnexpectedEof), before)
    } else if data.subrange(0, 4) != index_signature() {
        (Err(IndexError::InvalidSignature), before)
    } else if data.len() < 8 {
        (Err(IndexError::UnexpectedEof), before)
    } else if be32_value(data, 4) != 2 {
        (Err(IndexError::UnsupportedVersion), before)
    } else if data.len() < 12 {
        (Err(IndexError::UnexpectedEof), before)
    } else {
        spec_read_entries(data, 12, be32_value(data, 8) as nat, Map::empty())
    }
}

/// The entry models of a map of entries.
pub open spec fn entry_models(m: Map<Seq<char>, IndexEntry>) -> Map<Seq<char>, EntryModel> {
    m.map_values(|e: IndexEntry| e@)
}

/// Whether each entry of `es` is kept under its path's key.
pub open spec fn keyed_by_path(es: Seq<(String, IndexEntry)>) -> bool {
    forall|i: int| 0 <= i < es.len() ==> #[trigger] es[i].0@ == path_key(es[i].1.path@)
}

/// Whether no path holds a NUL character (which would end it early in the file).
pub open spec fn paths_without_nul(es: Seq<(String, IndexEntry)>) -> bool {
    forall|i: int, j: int|
        0 <= i < es.len() && 0 <= j < es[i].1.path@.len() ==> #[trigger] es[i].1.path@[j] != '\0'
}

/// The records of the first `k` entries are a prefix of those of the first `n`.
proof fn lemma_records_prefix(es: Seq<(String, IndexEntry)>, k: int, n: int)
    requires
        0 <= k <= n,
    ensures
        records_bytes(es, k).len() <= records_bytes(es, n).len(),
        records_bytes(es, n).subrange(0, records_bytes(es, k).len() as int) == records_bytes(es, k),
    decreases n - k,
{
    if k < n {
        lemma_records_prefix(es, k, n - 1);
        let a = records_bytes(es, n - 1);
        let b = records_bytes(es, n);
        assert(b.subrange(0, a.len() as int) =~= a);
        assert(b.subrange(0, records_bytes(es, k).len() as int) =~= a.subrange(
            0,
            records_bytes(es, k).len() as int,
        ));
    } else {
        assert(records_bytes(es, n).subrange(0, records_bytes(es, n).len() as int) =~= records_bytes(es, n));
    }
}

/// Where each piece of an entry's record lies in it: the modification time
/// in 8 big-endian bytes, then dev, ino, uid, gid, mode and size in 4 each, the
/// 20 hash bytes, the flags in 2, the path's UTF-8 bytes and a zero byte.
pub proof fn lemma_record_layout(e: EntryModel)
    requires
        e.hash.len() == 20,
    ensures
        entry_record(e).len() == 55 + encode_utf8(e.path).len(),
        entry_record(e).subrange(0, 8) == be64(e.mtime),
        entry_record(e).subrange(8, 12) == be32(e.dev),
        entry_record(e).subrange(12, 16) == be32(e.ino),
        entry_record(e).subrange(16, 20) == be32(e.uid),
        entry_record(e).subrange(20, 24) == be32(e.gid),
        entry_record(e).subrange(24, 28) == be32(e.mode),
        entry_record(e).subrange(28, 32) == be32(e.size),
        entry_record(e).subrange(32, 52) == e.hash,
        entry_record(e).subrange(52, 54) == be16(e.flags),
        entry_record(e).subrange(54, entry_record(e).len() - 1) == encode_utf8(e.path),
        entry_record(e)[entry_record(e).len() - 1] == 0,
{
    let r = entry_record(e);
    assert(r.subrange(0, 8) =~= be64(e.mtime));
    assert(r.subrange(8, 12) =~= be32(e.dev));
    assert(r.subrange(12, 16) =~= be32(e.ino));
    assert(r.subrange(16, 20) =~= be32(e.uid));
    assert(r.subrange(20, 24) =~= be32(e.gid));
    assert(r.subrange(24, 28) =~= be32(e.mode));
    assert(r.subrange(28, 32) =~= be32(e.size));
    assert(r.subrange(32, 52) =~= e.hash);
    assert(r.subrange(52, 54) =~= be16(e.flags));
    assert(r.subrange(54, r.len() - 1) =~= encode_utf8(e.path));
}

/// Where `s` lies at `p` of `data`, a piece of `s` lies at the same offset from `p`.
proof fn lemma_window(data: Seq<u8>, p: int, s: Seq<u8>, a: int, b: int)
    requires
        0 <= p,
        p + s.len() <= data.len(),
        data.subrange(p, p + s.len()) == s,
        0 <= a <= b <= s.len(),
    ensures
        data.subrange(p + a, p + b) == s.subrange(a, b),
{
    assert forall|t: int| 0 <= t < b - a implies data.subrange(p + a, p + b)[t] == s.subrange(a, b)[t] by {
        assert(data.subrange(p, p + s.len())[a + t] == s[a + t]);
    }
    assert(data.subrange(p + a, p + b) =~= s.subrange(a, b));
}

/// The big-endian values read at `p` of `data` are those read from the bytes lying there.
proof fn lemma_values_at(data: Seq<u8>, p: int, s: Seq<u8>)
    requires
        0 <= p,
        p + s.len() <= data.len(),
        data.subrange(p, p + s.len()) == s,
    ensures
        s.len() >= 2 ==> be16_value(data, p) == be16_value(s, 0),
        s.len() >= 4 ==> be32_value(data, p) == be32_value(s, 0),
        s.len() >= 8 ==> be64_value(data, p) == be64_value(s, 0),
{
    assert forall|t: int| 0 <= t < s.len() implies data[p + t] == #[trigger] s[t] by {
        assert(data.subrange(p, p + s.len())[t] == s[t]);
    }
    if s.len() >= 8 {
        assert(data[p + 4] == s[4]);
        assert(data[p + 5] == s[5]);
        assert(data[p + 6] == s[6]);
        assert(data[p + 7] == s[7]);
    }
    if s.len() >= 4 {
        assert(data[p + 2] == s[2]);
        assert(data[p + 3] == s[3]);
    }
    if s.len() >= 2 {
        assert(data[p] == s[0]);
        assert(data[p + 1] == s[1]);
    }
}

/// Reading the record at `pos` of `data` gives the entry it was written from,
/// and the record's path ends at its zero byte.
proof fn lemma_read_record(data: Seq<u8>, pos: int, e: EntryModel)
    requires
        0 <= pos,
        pos + entry_record(e).len() <= data.len(),
        data.subrange(pos, pos + entry_record(e).len()) == entry_record(e),
        e.hash.len() == 20,
        forall|j: int| 0 <= j < e.path.len() ==> #[trigger] e.path[j] != '\0',
    ensures
        pos + 54 <= data.len(),
        first_zero(data, pos + 54) == Some(pos + entry_record(e).len() - 1),
        read_entry(data, pos, pos + entry_record(e).len() - 1) == e,
{
    let r = entry_record(e);
    let enc = encode_utf8(e.path);
    let z = pos + r.len() - 1;
    lemma_record_layout(e);
    crate::text::lemma_utf8_no_zero(e.path);
    lemma_window(data, pos, r, 54, r.len() - 1);
    assert forall|t: int| pos + 54 <= t < z implies #[trigger] data[t] != 0 by {
        assert(data.subrange(pos + 54, z)[t - pos - 54] == enc[t - pos - 54]);
    }
    assert(data[z] == 0) by {
        assert(data.subrange(pos, pos + r.len())[r.len() - 1] == r[r.len() - 1]);
    }
    lemma_first_zero_after(data, pos + 54, z);
    crate::bytes::lemma_be_roundtrip(e.flags, e.dev, e.mtime);
    crate::bytes::lemma_be_roundtrip(0, e.ino, 0);
    crate::bytes::lemma_be_roundtrip(0, e.uid, 0);
    crate::bytes::lemma_be_roundtrip(0, e.gid, 0);
    crate::bytes::lemma_be_roundtrip(0, e.mode, 0);
    crate::bytes::lemma_be_roundtrip(0, e.size, 0);
    lemma_window(data, pos, r, 0, 8);
    lemma_window(data, pos, r, 8, 12);
    lemma_window(data, pos, r, 12, 16);
    lemma_window(data, pos, r, 16, 20);
    lemma_window(data, pos, r, 20, 24);
    lemma_window(data, pos, r, 24, 28);
    lemma_window(data, pos, r, 28, 32);
    lemma_window(data, pos, r, 32, 52);
    lemma_window(data, pos, r, 52, 54);
    lemma_values_at(data, pos, be64(e.mtime));
    lemma_values_at(data, pos + 8, be32(e.dev));
    lemma_values_at(data, pos + 12, be32(e.ino));
    lemma_values_at(data, pos + 16, be32(e.uid));
    lemma_values_at(data, pos + 20, be32(e.gid));
    lemma_values_at(data, pos + 24, be32(e.mode));
    lemma_values_at(data, pos + 28, be32(e.size));
    lemma_values_at(data, pos + 52, be16(e.flags));
    vstd::utf8::encode_utf8_valid_utf8(e.path);
    vstd::utf8::encode_utf8_decode_utf8(e.path);
    assert(lossy_text(data.subrange(pos + 54, z)) == e.path);
    assert(read_entry(data, pos, z) =~= e);
}

/// The entry models of the first `k` entries, as they are read back.
pub open spec fn read_back_prefix(es: Seq<(String, IndexEntry)>, k: int) -> Map<Seq<char>, EntryModel> {
    entry_models(entries_map(es.subrange(0, k)))
}

/// The record of entry `k` lies in the index file right after the records before it.
proof fn lemma_record_in_file(es: Seq<(String, IndexEntry)>, k: int)
    requires
        0 <= k < es.len(),
    ensures
        12 + records_bytes(es, k).len() + entry_record(es[k].1@).len() <= index_bytes(es).len(),
        index_bytes(es).subrange(
            12 + records_bytes(es, k).len() as int,
            12 + records_bytes(es, k).len() + entry_record(es[k].1@).len() as int,
        ) == entry_record(es[k].1@),
{
    let n = es.len() as int;
    let data = index_bytes(es);
    let rk = records_bytes(es, k);
    let rec = entry_record(es[k].1@);
    let rkl = rk.len() as int;
    let recl = rec.len() as int;
    let pos = 12 + rkl;
    lemma_records_prefix(es, k + 1, n);
    let rn = records_bytes(es, n);
    assert(rn.subrange(0, rkl + recl) == rk + rec);
    assert forall|t: int| 0 <= t < recl implies data.subrange(pos, pos + recl)[t] == rec[t] by {
        assert(data[pos + t] == rn[rkl + t]);
        assert(rn.subrange(0, rkl + recl)[rkl + t] == (rk + rec)[rkl + t]);
    }
    assert(data.subrange(pos, pos + recl) =~= rec);
}

/// Reading entry `k` adds it, as read back, to the entries read before it.
proof fn lemma_read_back_step(es: Seq<(String, IndexEntry)>, k: int)
    requires
        0 <= k < es.len(),
        keys_sorted(es),
        keyed_by_path(es),
    ensures
        read_back_prefix(es, k + 1) == read_back_prefix(es, k).insert(
            path_key(es[k].1@.path),
            es[k].1@,
        ),
{
    let e = es[k].1@;
    let prefix = es.subrange(0, k);
    assert(prefix.insert(k, es[k]) =~= es.subrange(0, k + 1));
    assert(keys_sorted(prefix));
    assert forall|i: int| 0 <= i < k implies crate::keyed::key_less(#[trigger] prefix[i].0@, es[k].0@) by {
        assert(crate::keyed::key_less(es[i].0@, es[k].0@));
    }
    crate::keyed::lemma_entries_map_insert(prefix, k, es[k].0, es[k].1);
    assert(es[k].0@ == path_key(e.path));
    assert(read_back_prefix(es, k + 1) =~= read_back_prefix(es, k).insert(
        path_key(e.path),
        e,
    ));
}

/// Reading the entries of the index file from entry `k` on, over those read
/// before it, gives all of them.
proof fn lemma_read_entries_from(es: Seq<(String, IndexEntry)>, k: int)
    requires
        0 <= k <= es.len(),
        keys_sorted(es),
        keyed_by_path(es),
        paths_without_nul(es),
        forall|i: int| 0 <= i < es.len() ==> (#[trigger] es[i].1).hash@.len() == 20,
    ensures
        spec_read_entries(
            index_bytes(es),
            12 + records_bytes(es, k).len() as int,
            (es.len() - k) as nat,
            read_back_prefix(es, k),
        ) == (Ok::<(), IndexError>(()), read_back_prefix(es, es.len() as int)),
    decreases es.len() - k,
{
    let n = es.len() as int;
    if k < n {
        let data = index_bytes(es);
        let e = es[k].1@;
        let pos = 12 + records_bytes(es, k).len() as int;
        lemma_record_in_file(es, k);
        assert forall|j: int| 0 <= j < e.path.len() implies #[trigger] e.path[j] != '\0' by {
            assert(es[k].1.path@[j] != '\0');
        }
        lemma_read_record(data, pos, e);
        lemma_read_back_step(es, k);
        assert(records_bytes(es, k + 1).len() == records_bytes(es, k).len() + entry_record(e).len());
        lemma_read_entries_from(es, k + 1);
    }
}

/// What reading an index file gives back: exactly the entries that were
/// written, by path. This holds for paths without NUL characters, where the
/// number of entries fits the 32-bit count.
pub proof fn lemma_index_roundtrip(es: Seq<(String, IndexEntry)>, before: Map<Seq<char>, EntryModel>)
    requires
        keys_sorted(es),
        keyed_by_path(es),
        paths_without_nul(es),
        es.len() <= u32::MAX,
    ensures
        spec_read_index(index_bytes(es), before) == (
            Ok::<(), IndexError>(()),
            entry_models(entries_map(es)),
        ),
{
    let data = index_bytes(es);
    let n = es.len() as int;
    crate::bytes::lemma_be_roundtrip(0, 2, 0);
    crate::bytes::lemma_be_roundtrip(0, n as u32, 0);
    assert(data.subrange(0, 4) =~= index_signature());
    assert(data.subrange(4, 8) =~= be32(2));
    assert(be32_value(data, 4) == be32_value(be32(2), 0));
    assert(data.subrange(8, 12) =~= be32(n as u32));
    assert(be32_value(data, 8) == be32_value(be32(n as u32), 0));
    assert(forall|i: int| 0 <= i < es.len() ==> (#[trigger] es[i].1).hash@.len() == 20);
    assert(es.subrange(0, 0) =~= Seq::<(String, IndexEntry)>::empty());
    assert(entries_map(Seq::<(String, IndexEntry)>::empty()) =~= Map::empty());
    assert(read_back_prefix(es, 0) =~= Map::empty());
    lemma_read_entries_from(es, 0);
    assert(es.subrange(0, n) =~= es);
}

/// The index file's header: the bytes `DIRC`, the version 2 and the number of
/// entries, each in 4 big-endian bytes. Reading refuses a file whose first
/// four bytes are not `DIRC` (`InvalidSignature`) or whose version is not 2
/// (`UnsupportedVersion`), and then keeps the entries it held.
pub proof fn lemma_index_header(es: Seq<(String, IndexEntry)>, data: Seq<u8>, before: Map<Seq<char>, EntryModel>)
    requires
        es.len() <= u32::MAX,
    ensures
        index_bytes(es).subrange(0, 4) == seq![0x44u8, 0x49u8, 0x52u8, 0x43u8],
        be32_value(index_bytes(es), 4) == 2,
        be32_value(index_bytes(es), 8) == es.len(),
        data.len() >= 4 && data.subrange(0, 4) != seq![0x44u8, 0x49u8, 0x52u8, 0x43u8]
            ==> spec_read_index(data, before) == (
            Err::<(), IndexError>(IndexError::InvalidSignature),
            before,
        ),
        data.len() >= 8 && data.subrange(0, 4) == seq![0x44u8, 0x49u8, 0x52u8, 0x43u8] && be32_value(
            data,
            4,
        ) != 2 ==> spec_read_index(data, before) == (
            Err::<(), IndexError>(IndexError::UnsupportedVersion),
            before,
        ),
{
    let b = index_bytes(es);
    let n = es.len() as int;
    crate::bytes::lemma_be_roundtrip(0, 2, 0);
    crate::bytes::lemma_be_roundtrip(0, n as u32, 0);
    assert(b.subrange(0, 4) =~= seq![0x44u8, 0x49u8, 0x52u8, 0x43u8]);
    assert(b.subrange(4, 8) =~= be32(2));
    assert(be32_value(b, 4) == be32_value(be32(2), 0));
    assert(b.subrange(8, 12) =~= be32(n as u32));
    assert(be32_value(b, 8) == be32_value(be32(n as u32), 0));
    assert(index_signature() =~= seq![0x44u8, 0x49u8, 0x52u8, 0x43u8]);
}

/// The index: the tracked files' entries, by path.
#[derive(Debug)]
pub struct Index {
    entries: KeyedMap<IndexEntry>,
}

impl Index {
    #[verifier::type_invariant]
    spec fn keys_are_paths(self) -> bool {
        forall|k: Seq<char>| #[trigger]
            self.entries.as_map().dom().contains(k) ==> path_key(self.entries.as_map()[k].path@)
                == k
    }

    /// The entries, by the key of their path.
    pub closed spec fn entry_map(&self) -> Map<Seq<char>, IndexEntry> {
        self.entries.as_map()
    }

    /// The entries in path order, each with its key.
    pub closed spec fn entry_seq(&self) -> Seq<(String, IndexEntry)> {
        self.entries.entry_seq()
    }

    /// The entries' values, by the key of their path.
    pub open spec fn models(&self) -> Map<Seq<char>, EntryModel> {
        entry_models(self.entry_map())
    }

    /// An empty index.
    pub fn new() -> (idx: Self)
        ensures
            idx.entry_map() == Map::<Seq<char>, IndexEntry>::empty(),
    {
        Index { entries: KeyedMap::new() }
    }

    /// An index holds finitely many entries.
    pub proof fn lemma_entries_finite(&self)
        ensures
            self.entry_map().dom().finite(),
    {
        crate::keyed::lemma_entries_map_finite(self.entries.entry_seq());
    }

    /// Adds `entry` under its path, replacing an entry of the same path.
    pub fn add_entry(&mut self, entry: IndexEntry)
        ensures
            final(self).entry_map() == old(self).entry_map().insert(path_key(entry.path@), entry),
    {
        proof {
            use_type_invariant(&*self);
        }
        let key = normalize_path(entry.path.as_str());
        let mut entries = KeyedMap::new();
        std::mem::swap(&mut entries, &mut self.entries);
        entries.insert(key, entry);
        self.entries = entries;
    }

    /// Removes the entry of path `path`; returns it.
    pub fn remove_entry(&mut self, path: &str) -> (r: Option<IndexEntry>)
        ensures
            final(self).entry_map() == old(self).entry_map().remove(path_key(path@)),
            r is Some <==> old(self).entry_map().dom().contains(path_key(path@)),
            r matches Some(e) ==> e == old(self).entry_map()[path_key(path@)],
    {
        proof {
            use_type_invariant(&*self);
        }
        let key = normalize_path(path);
        let mut entries = KeyedMap::new();
        std::mem::swap(&mut entries, &mut self.entries);
        let r = entries.remove(key.as_str());
        self.entries = entries;
        r
    }

    /// The entry of path `path`, a leading `./` ignored.
    pub fn get_entry(&self, path: &str) -> (r: Option<&IndexEntry>)
        ensures
            r is Some <==> self.entry_map().dom().contains(lookup_key(path@)),
            r matches Some(e) ==> *e == self.entry_map()[lookup_key(path@)],
    {
        let key = strip_cur_dir_key(path);
        self.entries.get(key.as_str())
    }

    /// All entries, by path.
    pub fn get_entries(&self) -> (m: &KeyedMap<IndexEntry>)
        ensures
            m.as_map() == self.entry_map(),
            m.entry_seq() == self.entry_seq(),
    {
        &self.entries
    }

    /// The index file for these entries, in path order.
    #[verifier::spinoff_prover]
    #[verifier::rlimit(40)]
    pub fn encode(&self) -> (bytes: Vec<u8>)
        ensures
            bytes@ == index_bytes(self.entry_seq()),
            entries_map(self.entry_seq()) == self.entry_map(),
            keys_sorted(self.entry_seq()),
            keyed_by_path(self.entry_seq()),
    {
        proof {
            use_type_invariant(self);
        }
        let ghost es = self.entries.entry_seq();
        let mut out: Vec<u8> = Vec::new();
        out.push(0x44);
        out.push(0x49);
        out.push(0x52);
        out.push(0x43);
        push_be32(&mut out, 2);
        let n: usize = self.entries.len();
        push_be32(&mut out, n as u32);
        assert(out@ =~= index_signature() + be32(2) + be32(es.len() as u32));
        let mut i: usize = 0;
        while i < n
            invariant
                n == es.len(),
                es == self.entries.entry_seq(),
                i <= n,
                out@ == index_signature() + be32(2) + be32(n as u32) + records_bytes(es, i as int),
            decreases n - i,
        {
            let pair = self.entries.entry_at(i);
            let e = &pair.1;
            let ghost before = out@;
            push_be64(&mut out, e.mtime);
            push_be32(&mut out, e.dev);
            push_be32(&mut out, e.ino);
            push_be32(&mut out, e.uid);
            push_be32(&mut out, e.gid);
            push_be32(&mut out, e.mode);
            push_be32(&mut out, e.size);
            let mut j: usize = 0;
            while j < 20
                invariant
                    j <= 20,
                    out@ == before + be64(e.mtime) + be32(e.dev) + be32(e.ino) + be32(e.uid) + be32(
                        e.gid,
                    ) + be32(e.mode) + be32(e.size) + e.hash@.subrange(0, j as int),
                decreases 20 - j,
            {
                out.push(e.hash[j]);
                assert(e.hash@.subrange(0, j + 1) =~= e.hash@.subrange(0, j as int).push(
                    e.hash@[j as int],
                ));
                j = j + 1;
            }
            assert(e.hash@.subrange(0, 20) =~= e.hash@);
            push_be16(&mut out, e.flags);
            let path_bytes = str_bytes(e.path.as_str());
            let mut t: usize = 0;
            let ghost mid = out@;
            while t < path_bytes.len()
                invariant
                    t <= path_bytes@.len(),
                    out@ == mid + path_bytes@.subrange(0, t as int),
                decreases path_bytes@.len() - t,
            {
                out.push(path_bytes[t]);
                assert(path_bytes@.subrange(0, t + 1) =~= path_bytes@.subrange(0, t as int).push(
                    path_bytes@[t as int],
                ));
                t = t + 1;
            }
            assert(path_bytes@.subrange(0, path_bytes@.len() as int) =~= path_bytes@);
            out.push(0);
            assert(es[i as int].1 == *e);
            assert(out@ =~= index_signature() + be32(2) + be32(n as u32) + records_bytes(es, i + 1));
            i = i + 1;
        }
        proof {
            assert forall|j: int| 0 <= j < es.len() implies #[trigger] es[j].0@ == path_key(
                es[j].1.path@,
            ) by {
                crate::keyed::lemma_entries_map_at(es, j);
            }
        }
        out
    }

    /// Reads an index file into this index, replacing its entries once the
    /// header is read; an entry goes in under its path, replacing an earlier
    /// entry of the same path.
    pub fn read_from_bytes(&mut self, data: &[u8]) -> (r: Result<(), IndexError>)
        ensures
            (r, final(self).models()) == spec_read_index(data@, old(self).models()),
    {
        let sig: [u8; 4] = [0x44, 0x49, 0x52, 0x43];
        assert(sig@ =~= index_signature());
        if data.len() < 4 {
            return Err(IndexError::UnexpectedEof);
        }
        let mut s: usize = 0;
        while s < 4
            invariant
                s <= 4,
                4 <= data@.len(),
                sig@ == index_signature(),
                forall|j: int| 0 <= j < s ==> data@[j] == sig@[j],
            decreases 4 - s,
        {
            if data[s] != sig[s] {
                assert(data@.subrange(0, 4)[s as int] != index_signature()[s as int]);
                return Err(IndexError::InvalidSignature);
            }
            s = s + 1;
        }
        assert(data@.subrange(0, 4) =~= index_signature());
        if data.len() < 8 {
            return Err(IndexError::UnexpectedEof);
        }
        let version: u32 = read_be32(data, 4);
        if version != 2 {
            return Err(IndexError::UnsupportedVersion);
        }
        if data.len() < 12 {
            return Err(IndexError::UnexpectedEof);
        }
        let count: u32 = read_be32(data, 8);
        self.entries = KeyedMap::new();
        assert(self.models() =~= Map::<Seq<char>, EntryModel>::empty());
        let len: usize = data.len();
        let mut pos: usize = 12;
        let mut k: u32 = 0;
        while k < count
            invariant
                len == data@.len(),
                pos <= len,
                k <= count,
                spec_read_index(data@, old(self).models()) == spec_read_entries(
                    data@,
                    pos as int,
                    (count - k) as nat,
                    self.models(),
                ),
            decreases count - k,
        {
            if len - pos < 54 {
                return Err(IndexError::UnexpectedEof);
            }
            let mtime: u64 = read_be64(data, pos);
            let dev: u32 = read_be32(data, pos + 8);
            let ino: u32 = read_be32(data, pos + 12);
            let uid: u32 = read_be32(data, pos + 16);
            let gid: u32 = read_be32(data, pos + 20);
            let mode: u32 = read_be32(data, pos + 24);
            let size: u32 = read_be32(data, pos + 28);
            let mut hash: [u8; 20] = [0; 20];
            let mut j: usize = 0;
            while j < 20
                invariant
                    j <= 20,
                    len == data@.len(),
                    pos + 54 <= data@.len(),
                    forall|q: int| 0 <= q < j ==> hash@[q] == data@[pos + 32 + q],
                decreases 20 - j,
            {
                hash[j] = data[pos + 32 + j];
                j = j + 1;
            }
            assert(hash@ =~= data@.subrange(pos + 32, pos + 52));
            let flags: u16 = read_be16(data, pos + 52);
            let start: usize = pos + 54;
            let mut z: usize = start;
            while z < len && data[z] != 0
                invariant
                    start <= z <= len,
                    len == data@.len(),
                    first_zero(data@, start as int) == first_zero(data@, z as int),
                decreases len - z,
            {
                z = z + 1;
            }
            if z == len {
                return Err(IndexError::UnexpectedEof);
            }
            let path_bytes = copy_range(data, start, z);
            let path = string_from_utf8_lossy(path_bytes.as_slice());
            let entry = IndexEntry { mtime, dev, ino, mode, uid, gid, size, hash, flags, path };
            assert(entry@ == read_entry(data@, pos as int, z as int));
            let ghost before = self.models();
            self.add_entry(entry);
            assert(self.models() =~= before.insert(path_key(entry@.path), entry@));
            pos = z + 1;
            k = k + 1;
        }
        Ok(())
    }
}


/// Adding an entry and then looking up any path whose key is the entry's
/// finds that entry; removing that path afterwards gives back the index as it
/// was without it.
pub proof fn lemma_added_entry_found(m: Map<Seq<char>, IndexEntry>, e: IndexEntry, p: Seq<char>)
    requires
        lookup_key(p) == path_key(e.path@),
    ensures
        m.insert(path_key(e.path@), e).dom().contains(lookup_key(p)),
        m.insert(path_key(e.path@), e)[lookup_key(p)] == e,
        m.insert(path_key(e.path@), e).remove(lookup_key(p)) == m.remove(lookup_key(p)),
{
    assert(m.insert(path_key(e.path@), e).remove(lookup_key(p)) =~= m.remove(lookup_key(p)));
}

} // verus!
