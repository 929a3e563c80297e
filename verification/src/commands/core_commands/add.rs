//! The `add` command: staging files in the index. The command finds the files
//! and stores their blobs; this part decides their paths in the repository,
//! builds their index entries, and makes the index file to write back.

use vstd::prelude::*;
use crate::commands::core_commands::index::idx_main::{entry_models, index_bytes, spec_read_index, EntryModel, Index, IndexEntry, IndexError};
use crate::commands::core_commands::status::{file_status, FileState, FileStatus};
use crate::keyed::{entries_map, keys_sorted};
use crate::paths::{
    join_path, path_after, path_join, path_key, path_starts_with, starts_with_path, strip_path_prefix,
};
use crate::text::{decode_hex, hex_decode, HexError};

verus! {

/// Why staging failed.
#[derive(Debug, PartialEq, Eq)]
pub enum AddError {
    /// The working directory is not inside the repository.
    OutsideRepository,
    /// A blob hash is not hexadecimal.
    Hex(HexError),
    /// An index file could not be read.
    Index(IndexError),
}

/// A file to stage: its entry (with the file's metadata), its path relative
/// to the repository root, and the hash its blob was stored under.
#[derive(Debug)]
pub struct StagedFile {
    pub entry: IndexEntry,
    pub rel_path: String,
    pub blob_hash: String,
}

/// The index file of the repository at `root`.
pub open spec fn index_file_of(root: Seq<char>) -> Seq<char> {
    path_join(root, ".vox/index"@)
}

/// An entry for a file, with its path and content hash set.
pub open spec fn staged_entry(e: IndexEntry, rel_path: Seq<char>, hash: Seq<u8>) -> EntryModel {
    EntryModel { path: rel_path, hash, ..e@ }
}

/// Staging a file keeps every piece of the metadata its entry was made with
/// (modification time, device, inode, mode, owner, group, size and flags); only
/// its path and its content hash are set. So the working tree's file, unchanged
/// since, stands as unchanged against what was staged.
pub proof fn lemma_staged_entry_keeps_metadata(e: IndexEntry, rel_path: Seq<char>, hash: Seq<u8>)
    ensures
        staged_entry(e, rel_path, hash).mtime == e.mtime,
        staged_entry(e, rel_path, hash).dev == e.dev,
        staged_entry(e, rel_path, hash).ino == e.ino,
        staged_entry(e, rel_path, hash).mode == e.mode,
        staged_entry(e, rel_path, hash).uid == e.uid,
        staged_entry(e, rel_path, hash).gid == e.gid,
        staged_entry(e, rel_path, hash).size == e.size,
        staged_entry(e, rel_path, hash).flags == e.flags,
        staged_entry(e, rel_path, hash).path == rel_path,
        staged_entry(e, rel_path, hash).hash == hash,
        forall|staged: IndexEntry|
            #[trigger] staged@ == staged_entry(e, rel_path, hash) ==> file_status(
                staged,
                Some(FileState { mtime: e.mtime, size: e.size }),
            ) == FileStatus::Added,
{
}

/// Whether decoding the hash of each staged file either fails or gives the
/// twenty bytes an entry holds.
pub open spec fn hashes_fit(fs: Seq<StagedFile>) -> bool {
    forall|i: int| 0 <= i < fs.len() ==> (hex_decode(#[trigger] fs[i].blob_hash@) matches Ok(b) ==> b.len() == 20)
}

/// The index entries once the first `n` of `fs` are staged over `m`.
pub open spec fn apply_staged(m: Map<Seq<char>, EntryModel>, fs: Seq<StagedFile>, n: int) -> Map<Seq<char>, EntryModel>
    decreases n,
{
    if n <= 0 {
        m
    } else {
        apply_staged(m, fs, n - 1).insert(
            path_key(fs[n - 1].rel_path@),
            staged_entry(fs[n - 1].entry, fs[n - 1].rel_path@, hex_decode(fs[n - 1].blob_hash@).unwrap()),
        )
    }
}

/// What staging a list of files leaves in the index: each staged file is
/// there under its path, with the entry staged for it, unless a file staged
/// later has the same path (the last one staged wins); an entry under a path
/// that no staged file has stays as it was, and no other path appears.
pub proof fn lemma_staged_files_found(m: Map<Seq<char>, EntryModel>, fs: Seq<StagedFile>, i: int, k: Seq<char>)
    ensures
        0 <= i < fs.len() && (forall|j: int|
            i < j < fs.len() ==> path_key(#[trigger] fs[j].rel_path@) != path_key(fs[i].rel_path@))
            ==> apply_staged(m, fs, fs.len() as int).dom().contains(path_key(fs[i].rel_path@))
            && apply_staged(m, fs, fs.len() as int)[path_key(fs[i].rel_path@)] == staged_entry(
            fs[i].entry,
            fs[i].rel_path@,
            hex_decode(fs[i].blob_hash@).unwrap(),
        ),
        (forall|j: int| 0 <= j < fs.len() ==> path_key(#[trigger] fs[j].rel_path@) != k) ==> (
        apply_staged(m, fs, fs.len() as int).dom().contains(k) == m.dom().contains(k) && (
        m.dom().contains(k) ==> apply_staged(m, fs, fs.len() as int)[k] == m[k])),
{
    lemma_staged_prefix(m, fs, fs.len() as int, i, k);
}

proof fn lemma_staged_prefix(m: Map<Seq<char>, EntryModel>, fs: Seq<StagedFile>, n: int, i: int, k: Seq<char>)
    requires
        n <= fs.len(),
    ensures
        0 <= i < n && (forall|j: int| i < j < n ==> path_key(#[trigger] fs[j].rel_path@) != path_key(fs[i].rel_path@))
            ==> apply_staged(m, fs, n).dom().contains(path_key(fs[i].rel_path@)) && apply_staged(
            m,
            fs,
            n,
        )[path_key(fs[i].rel_path@)] == staged_entry(
            fs[i].entry,
            fs[i].rel_path@,
            hex_decode(fs[i].blob_hash@).unwrap(),
        ),
        (forall|j: int| 0 <= j < n ==> path_key(#[trigger] fs[j].rel_path@) != k) ==> (apply_staged(
            m,
            fs,
            n,
        ).dom().contains(k) == m.dom().contains(k) && (m.dom().contains(k) ==> apply_staged(m, fs, n)[k]
            == m[k])),
    decreases n,
{
    if n > 0 {
        lemma_staged_prefix(m, fs, n - 1, i, k);
        if 0 <= i < n - 1 && (forall|j: int| i < j < n ==> path_key(#[trigger] fs[j].rel_path@) != path_key(fs[i].rel_path@)) {
            assert(path_key(fs[n - 1].rel_path@) != path_key(fs[i].rel_path@));
        }
        if forall|j: int| 0 <= j < n ==> path_key(#[trigger] fs[j].rel_path@) != k {
            assert(path_key(fs[n - 1].rel_path@) != k);
        }
    }
}

/// Whether the hash of each staged file is hexadecimal.
pub open spec fn hashes_decode(fs: Seq<StagedFile>) -> bool {
    forall|i: int| 0 <= i < fs.len() ==> hex_decode(#[trigger] fs[i].blob_hash@) is Ok
}

/// The `add` command's state: the repository root, its index, and the
/// working directory.
pub struct AddCommand {
    repo_root: String,
    index: Index,
    current_dir: String,
}

impl AddCommand {
    /// The command for the repository at `repo_root`, run from `current_dir`,
    /// over the index `index`.
    pub fn new(repo_root: String, current_dir: String, index: Index) -> (c: Self)
        ensures
            c.root_view() == repo_root@,
            c.cwd_view() == current_dir@,
            c.index_view() == index.models(),
    {
        AddCommand { repo_root, index, current_dir }
    }

    pub closed spec fn root_view(&self) -> Seq<char> {
        self.repo_root@
    }

    pub closed spec fn cwd_view(&self) -> Seq<char> {
        self.current_dir@
    }

    /// The index's entries, by path.
    pub closed spec fn index_view(&self) -> Map<Seq<char>, EntryModel> {
        self.index.models()
    }

    /// The index held by the command, in path order.
    pub closed spec fn index_seq(&self) -> Seq<(String, IndexEntry)> {
        self.index.entry_seq()
    }

    /// The index to stage into: the one read from `index_data` where the
    /// repository has an index file, an empty one where it has none.
    pub fn load_or_create_index(index_data: Option<&[u8]>) -> (r: Result<Index, IndexError>)
        ensures
            index_data is None ==> (r matches Ok(i) && i.models() == Map::<
                Seq<char>,
                EntryModel,
            >::empty()),
            index_data matches Some(d) ==> match spec_read_index(
                d@,
                Map::empty(),
            ) {
                (Ok(()), m) => r matches Ok(i) && i.models() == m,
                (Err(e), _) => r == Err::<Index, IndexError>(e),
            },
    {
        let mut index = Index::new();
        assert(index.models() =~= Map::empty());
        match index_data {
            None => Ok(index),
            Some(d) => match index.read_from_bytes(d) {
                Ok(()) => Ok(index),
                Err(e) => Err(e),
            },
        }
    }

    /// The working directory relative to the repository root.
    pub fn relative_base(&self) -> (r: Result<String, AddError>)
        ensures
            match path_after(self.cwd_view(), self.root_view()) {
                Some(t) => r matches Ok(s) && s@ == t,
                None => r == Err::<String, AddError>(AddError::OutsideRepository),
            },
    {
        match strip_path_prefix(self.current_dir.as_str(), self.repo_root.as_str()) {
            Some(s) => Ok(s),
            None => Err(AddError::OutsideRepository),
        }
    }

    /// The path, relative to the root, of a file named on the command line:
    /// the path under the root where it names one, else the path joined onto
    /// the working directory's place in the repository.
    pub fn file_path(&self, path: &str, relative_base: &str) -> (p: String)
        ensures
            p@ == match path_after(path@, self.root_view()) {
                Some(t) => t,
                None => path_join(relative_base@, path@),
            },
    {
        match strip_path_prefix(path, self.repo_root.as_str()) {
            Some(s) => s,
            None => join_path(relative_base, path),
        }
    }

    /// Whether walking a directory named on the command line passes over the
    /// entry at `entry_path`: entries under the repository's `.vox`, `.git`,
    /// `target` and `build` are not staged.
    pub fn walk_skips(&self, entry_path: &str) -> (b: bool)
        ensures
            b == (path_starts_with(entry_path@, path_join(self.root_view(), ".vox"@))
                || path_starts_with(entry_path@, path_join(self.root_view(), ".git"@))
                || path_starts_with(entry_path@, path_join(self.root_view(), "target"@))
                || path_starts_with(entry_path@, path_join(self.root_view(), "build"@))),
    {
        let root = self.repo_root.as_str();
        starts_with_path(entry_path, join_path(root, ".vox").as_str())
            || starts_with_path(entry_path, join_path(root, ".git").as_str())
            || starts_with_path(entry_path, join_path(root, "target").as_str())
            || starts_with_path(entry_path, join_path(root, "build").as_str())
    }

    /// The path, relative to the root, of a file found under a directory named
    /// on the command line: its path under the working directory, joined onto
    /// the working directory's place in the repository.
    pub fn found_file_path(&self, found: &str, relative_base: &str) -> (r: Option<String>)
        ensures
            match path_after(found@, self.cwd_view()) {
                Some(t) => r matches Some(p) && p@ == path_join(relative_base@, t),
                None => r is None,
            },
    {
        match strip_path_prefix(found, self.current_dir.as_str()) {
            Some(s) => Some(join_path(relative_base, s.as_str())),
            None => None,
        }
    }

    /// Stages one file: its entry gets the path `rel_path` and the content hash
    /// `blob_hash` decodes to, and goes into the index under that path.
    pub fn create_index_entry(&mut self, entry: &IndexEntry, rel_path: &str, blob_hash: &str) -> (r:
        Result<(), AddError>)
        requires
            hex_decode(blob_hash@) matches Ok(b) ==> b.len() == 20,
        ensures
            final(self).root_view() == old(self).root_view(),
            final(self).cwd_view() == old(self).cwd_view(),
            match hex_decode(blob_hash@) {
                Ok(b) => r is Ok && final(self).index_view() == old(self).index_view().insert(
                    path_key(rel_path@),
                    staged_entry(*entry, rel_path@, b),
                ),
                Err(e) => r == Err::<(), AddError>(AddError::Hex(e)) && final(self).index_view()
                    == old(self).index_view(),
            },
    {
        let bytes = match decode_hex(blob_hash) {
            Ok(b) => b,
            Err(e) => return Err(AddError::Hex(e)),
        };
        let mut hash: [u8; 20] = [0; 20];
        let mut i: usize = 0;
        while i < 20
            invariant
                i <= 20,
                bytes@.len() == 20,
                forall|t: int| 0 <= t < i ==> hash@[t] == bytes@[t],
            decreases 20 - i,
        {
            hash[i] = bytes[i];
            i = i + 1;
        }
        assert(hash@ =~= bytes@);
        let staged = IndexEntry {
            mtime: entry.mtime,
            dev: entry.dev,
            ino: entry.ino,
            mode: entry.mode,
            uid: entry.uid,
            gid: entry.gid,
            size: entry.size,
            hash,
            flags: entry.flags,
            path: rel_path.to_string(),
        };
        let ghost before = self.index.models();
        self.index.add_entry(staged);
        assert(self.index.models() =~= before.insert(path_key(staged.path@), staged@));
        Ok(())
    }

    /// The index file and the bytes to write to it.
    pub fn save_index(&self) -> (r: (String, Vec<u8>))
        ensures
            r.0@ == index_file_of(self.root_view()),
            r.1@ == index_bytes(self.index_seq()),
            keys_sorted(self.index_seq()),
            entry_models(entries_map(self.index_seq())) == self.index_view(),
    {
        (join_path(self.repo_root.as_str(), ".vox/index"), self.index.encode())
    }

    /// Stages the files `staged`, in order, then gives the index file to
    /// write; stops at the first hash that is not hexadecimal.
    pub fn execute(self, staged: Vec<StagedFile>) -> (r: Result<(String, Vec<u8>), AddError>)
        requires
            hashes_fit(staged@),
        ensures
            r matches Ok((p, d)) ==> p@ == index_file_of(self.root_view()) && exists|
                s: Seq<(String, IndexEntry)>,
            |
                keys_sorted(s) && d@ == index_bytes(s) && entry_models(entries_map(s))
                    == apply_staged(self.index_view(), staged@, staged@.len() as int),
            r is Err <==> !hashes_decode(staged@),
    {
        let ghost root = self.root_view();
        let ghost start = self.index_view();
        let mut cmd = self;
        let n = staged.len();
        let mut k: usize = 0;
        while k < n
            invariant
                n == staged@.len(),
                k <= n,
                hashes_fit(staged@),
                forall|t: int| 0 <= t < k ==> hex_decode(#[trigger] staged@[t].blob_hash@) is Ok,
                cmd.root_view() == root,
                cmd.index_view() == apply_staged(start, staged@, k as int),
            decreases n - k,
        {
            let f = &staged[k];
            match cmd.create_index_entry(&f.entry, f.rel_path.as_str(), f.blob_hash.as_str()) {
                Ok(()) => {},
                Err(e) => {
                    assert(hex_decode(staged@[k as int].blob_hash@) is Err);
                    return Err(e);
                },
            }
            k = k + 1;
        }
        let out = cmd.save_index();
        proof {
            let s = cmd.index_seq();
            assert(keys_sorted(s) && out.1@ == index_bytes(s));
        }
        Ok(out)
    }
}

} // verus!
