//! The working tree's status against the index: which tracked files are
//! unchanged, modified or deleted, and which files are untracked; and the
//! report the `status` command prints.

use vstd::prelude::*;
use vstd::utf8::*;
use crate::commands::core_commands::index::idx_main::{Index, IndexEntry};
use crate::keyed::string_views;
use crate::paths::{
    join_path, normalize_path, path_after, path_join, path_key, path_starts_with, starts_with_path,
    strip_path_prefix,
};
use crate::text::{has_prefix, push_str, str_bytes, str_chars, string_from_chars, string_from_utf8, strip_prefix_chars};

verus! {

/// What the working tree holds at a tracked file's path: its modification
/// time and its size (as the index stores them).
#[derive(Debug, Clone, Copy, PartialEq, Eq, Structural)]
pub struct FileState {
    pub mtime: u64,
    pub size: u32,
}

/// Where a tracked file stands.
#[derive(Debug, Clone, Copy, PartialEq, Eq, Structural)]
pub enum FileStatus {
    /// Present with the metadata the index holds.
    Added,
    /// Present with other metadata.
    Modified,
    /// Not present.
    Deleted,
}

/// Where the tracked file `e` stands, given what the working tree holds at its path.
pub open spec fn file_status(e: IndexEntry, st: Option<FileState>) -> FileStatus {
    match st {
        None => FileStatus::Deleted,
        Some(s) => if s.mtime != e.mtime || s.size != e.size {
            FileStatus::Modified
        } else {
            FileStatus::Added
        },
    }
}

/// The paths of the first `n` tracked files that stand at `kind`, in order.
pub open spec fn paths_with(
    es: Seq<(String, IndexEntry)>,
    states: Seq<Option<FileState>>,
    kind: FileStatus,
    n: int,
) -> Seq<Seq<char>>
    decreases n,
{
    if n <= 0 {
        Seq::empty()
    } else {
        let prev = paths_with(es, states, kind, n - 1);
        if file_status(es[n - 1].1, states[n - 1]) == kind {
            prev.push(es[n - 1].1.path@)
        } else {
            prev
        }
    }
}

/// A path is among the first `n` tracked files standing at `kind` exactly where
/// one of them with that path stands at `kind`.
proof fn lemma_paths_with_contains(
    es: Seq<(String, IndexEntry)>,
    states: Seq<Option<FileState>>,
    kind: FileStatus,
    n: int,
    p: Seq<char>,
)
    requires
        0 <= n <= es.len(),
        n <= states.len(),
    ensures
        paths_with(es, states, kind, n).contains(p) <==> exists|i: int|
            0 <= i < n && #[trigger] es[i].1.path@ == p && file_status(es[i].1, states[i]) == kind,
    decreases n,
{
    if n > 0 {
        lemma_paths_with_contains(es, states, kind, n - 1, p);
        let prev = paths_with(es, states, kind, n - 1);
        if file_status(es[n - 1].1, states[n - 1]) == kind {
            let q = prev.push(es[n - 1].1.path@);
            assert(q[prev.len() as int] == es[n - 1].1.path@);
            if q.contains(p) {
                let k = choose|k: int| 0 <= k < q.len() && #[trigger] q[k] == p;
                if k < prev.len() {
                    assert(prev[k] == p);
                }
            }
            if prev.contains(p) {
                let k = choose|k: int| 0 <= k < prev.len() && #[trigger] prev[k] == p;
                assert(q[k] == p);
            }
        }
    }
}

/// How the status classifies the tracked files: one that is missing from the
/// working tree is deleted; one that is present with the modification time and
/// the size its entry records is unchanged ("added"); one present with another
/// modification time or another size (either one) is modified. Where the
/// tracked paths differ, each file is listed under its class and no other.
pub proof fn lemma_status_classes(es: Seq<(String, IndexEntry)>, states: Seq<Option<FileState>>, i: int)
    requires
        0 <= i < es.len(),
        states.len() == es.len(),
        forall|j: int, k: int|
            0 <= j < es.len() && 0 <= k < es.len() && j != k ==> #[trigger] es[j].1.path@
                != #[trigger] es[k].1.path@,
    ensures
        ({
            let e = es[i].1;
            let n = es.len() as int;
            let added = paths_with(es, states, FileStatus::Added, n);
            let modified = paths_with(es, states, FileStatus::Modified, n);
            let deleted = paths_with(es, states, FileStatus::Deleted, n);
            &&& states[i] is None ==> deleted.contains(e.path@) && !added.contains(e.path@)
                && !modified.contains(e.path@)
            &&& (states[i] matches Some(st) && st.mtime == e.mtime && st.size == e.size)
                ==> added.contains(e.path@) && !modified.contains(e.path@) && !deleted.contains(e.path@)
            &&& (states[i] matches Some(st) && (st.mtime != e.mtime || st.size != e.size))
                ==> modified.contains(e.path@) && !added.contains(e.path@) && !deleted.contains(e.path@)
        }),
{
    let e = es[i].1;
    let n = es.len() as int;
    let p = e.path@;
    lemma_paths_with_contains(es, states, FileStatus::Added, n, p);
    lemma_paths_with_contains(es, states, FileStatus::Modified, n, p);
    lemma_paths_with_contains(es, states, FileStatus::Deleted, n, p);
    assert forall|j: int| 0 <= j < n && #[trigger] es[j].1.path@ == p implies j == i by {
        if j != i {
            assert(es[j].1.path@ != es[i].1.path@);
        }
    }
}

/// The first `n` files found in the working tree that the index does not track.
pub open spec fn untracked_paths(walked: Seq<String>, known: Set<Seq<char>>, n: int) -> Seq<Seq<char>>
    decreases n,
{
    if n <= 0 {
        Seq::empty()
    } else {
        let prev = untracked_paths(walked, known, n - 1);
        if known.contains(path_key(walked[n - 1]@)) {
            prev
        } else {
            prev.push(walked[n - 1]@)
        }
    }
}

/// Which walked files the status lists as untracked: a path is listed exactly
/// where a file found in the working tree has that path and the index tracks
/// no entry under that path once normalized; tracked files are never listed.
pub proof fn lemma_untracked_listed(walked: Seq<String>, known: Set<Seq<char>>, p: Seq<char>)
    ensures
        untracked_paths(walked, known, walked.len() as int).contains(p) <==> exists|i: int|
            0 <= i < walked.len() && #[trigger] walked[i]@ == p && !known.contains(path_key(walked[i]@)),
{
    lemma_untracked_prefix(walked, known, walked.len() as int, p);
}

proof fn lemma_untracked_prefix(walked: Seq<String>, known: Set<Seq<char>>, n: int, p: Seq<char>)
    requires
        n <= walked.len(),
    ensures
        untracked_paths(walked, known, n).contains(p) <==> exists|i: int|
            0 <= i < n && #[trigger] walked[i]@ == p && !known.contains(path_key(walked[i]@)),
    decreases n,
{
    if n > 0 {
        lemma_untracked_prefix(walked, known, n - 1, p);
        let prev = untracked_paths(walked, known, n - 1);
        if !known.contains(path_key(walked[n - 1]@)) {
            let q = prev.push(walked[n - 1]@);
            assert(q[prev.len() as int] == walked[n - 1]@);
            if q.contains(p) {
                let k = choose|k: int| 0 <= k < q.len() && #[trigger] q[k] == p;
                if k < prev.len() {
                    assert(prev[k] == p);
                }
            }
            if prev.contains(p) {
                let k = choose|k: int| 0 <= k < prev.len() && #[trigger] prev[k] == p;
                assert(q[k] == p);
            }
        }
    }
}

/// Whether the walk of the working tree at `repo_path` passes over the entry
/// at `entry_path`: the repository's `.vox`, `.git` and `target` are not looked
/// into.
pub fn status_walk_skips(repo_path: &str, entry_path: &str) -> (b: bool)
    ensures
        b == (path_starts_with(entry_path@, path_join(repo_path@, ".vox"@)) || path_starts_with(
            entry_path@,
            path_join(repo_path@, ".git"@),
        ) || path_starts_with(entry_path@, path_join(repo_path@, "target"@))),
{
    starts_with_path(entry_path, join_path(repo_path, ".vox").as_str())
        || starts_with_path(entry_path, join_path(repo_path, ".git").as_str())
        || starts_with_path(entry_path, join_path(repo_path, "target").as_str())
}

/// The path of a file the walk found, relative to the working tree at
/// `repo_path`; `None` where it does not lie under it.
pub fn walked_path(repo_path: &str, entry_path: &str) -> (r: Option<String>)
    ensures
        match path_after(entry_path@, repo_path@) {
            Some(t) => r matches Some(p) && p@ == t,
            None => r is None,
        },
{
    strip_path_prefix(entry_path, repo_path)
}

/// The status of the working tree against `index`. `states` holds, for each
/// tracked file in path order, what the working tree holds at its path (`None`
/// where nothing is there); `walked` the files found in the working tree. The
/// result lists the paths of the unchanged ("added"), modified and deleted
/// tracked files, in path order, and the untracked files, in the order found.
pub fn get_status(index: &Index, states: &[Option<FileState>], walked: &[String]) -> (r: (
    Vec<String>,
    Vec<String>,
    Vec<String>,
    Vec<String>,
))
    requires
        states@.len() == index.entry_seq().len(),
    ensures
        string_views(r.0@) == paths_with(
            index.entry_seq(),
            states@,
            FileStatus::Added,
            states@.len() as int,
        ),
        string_views(r.1@) == paths_with(
            index.entry_seq(),
            states@,
            FileStatus::Modified,
            states@.len() as int,
        ),
        string_views(r.2@) == paths_with(
            index.entry_seq(),
            states@,
            FileStatus::Deleted,
            states@.len() as int,
        ),
        string_views(r.3@) == untracked_paths(
            walked@,
            index.entry_map().dom(),
            walked@.len() as int,
        ),
{
    let entries = index.get_entries();
    let ghost es = index.entry_seq();
    let n = entries.len();
    let mut added: Vec<String> = Vec::new();
    let mut modified: Vec<String> = Vec::new();
    let mut deleted: Vec<String> = Vec::new();
    let mut i: usize = 0;
    while i < n
        invariant
            n == es.len(),
            es == entries.entry_seq(),
            states@.len() == n,
            i <= n,
            string_views(added@) == paths_with(es, states@, FileStatus::Added, i as int),
            string_views(modified@) == paths_with(es, states@, FileStatus::Modified, i as int),
            string_views(deleted@) == paths_with(es, states@, FileStatus::Deleted, i as int),
        decreases n - i,
    {
        let e = &entries.entry_at(i).1;
        let p = e.path.clone();
        match states[i] {
            None => {
                deleted.push(p);
                assert(string_views(deleted@) =~= paths_with(es, states@, FileStatus::Deleted, i + 1));
            },
            Some(s) => {
                if s.mtime != e.mtime || s.size != e.size {
                    modified.push(p);
                    assert(string_views(modified@) =~= paths_with(
                        es,
                        states@,
                        FileStatus::Modified,
                        i + 1,
                    ));
                } else {
                    added.push(p);
                    assert(string_views(added@) =~= paths_with(es, states@, FileStatus::Added, i + 1));
                }
            },
        }
        assert(string_views(added@) =~= paths_with(es, states@, FileStatus::Added, i + 1));
        assert(string_views(modified@) =~= paths_with(es, states@, FileStatus::Modified, i + 1));
        assert(string_views(deleted@) =~= paths_with(es, states@, FileStatus::Deleted, i + 1));
        i = i + 1;
    }
    let mut untracked: Vec<String> = Vec::new();
    let mut j: usize = 0;
    while j < walked.len()
        invariant
            j <= walked@.len(),
            entries.as_map() == index.entry_map(),
            string_views(untracked@) == untracked_paths(walked@, index.entry_map().dom(), j as int),
        decreases walked@.len() - j,
    {
        let key = normalize_path(walked[j].as_str());
        if !entries.contains_key(key.as_str()) {
            untracked.push(walked[j].clone());
        }
        assert(string_views(untracked@) =~= untracked_paths(
            walked@,
            index.entry_map().dom(),
            j + 1,
        ));
        j = j + 1;
    }
    (added, modified, deleted, untracked)
}

/// The first seven bytes of a commit hash, where they end on a character
/// boundary.
pub open spec fn short_hash_ok(c: Seq<char>) -> bool {
    encode_utf8(c).len() >= 7 && valid_utf8(encode_utf8(c).subrange(0, 7))
}

/// The first seven bytes of a commit hash, as text.
pub open spec fn short_hash(c: Seq<char>) -> Seq<char> {
    decode_utf8(encode_utf8(c).subrange(0, 7))
}

/// One line per path: a tab, the opening `open`, the path, the closing `close`.
pub open spec fn path_lines(open: Seq<char>, paths: Seq<Seq<char>>, close: Seq<char>) -> Seq<char>
    decreases paths.len(),
{
    if paths.len() == 0 {
        Seq::empty()
    } else {
        path_lines(open, paths.drop_last(), close) + "\t"@ + open + paths.last() + close + "\n"@
    }
}

/// The first lines of the report: the branch, and the current commit.
pub open spec fn status_head(branch: Seq<char>, commit: Option<Seq<char>>) -> Seq<char> {
    "On branch "@ + branch + "\n"@ + match commit {
        Some(c) => "Current commit ["@ + short_hash(c) + "]\n"@,
        None => Seq::empty(),
    }
}

/// The section on staged files.
pub open spec fn staged_text(added: Seq<Seq<char>>) -> Seq<char> {
    if added.len() > 0 {
        "Changes to be committed:\n"@ + "  (use \"vox reset HEAD <file>...\" to unstage)\n\n"@
            + path_lines("\x1b[32mnew file:   "@, added, "\x1b[0m"@) + "\n"@
    } else {
        Seq::empty()
    }
}

/// The section on modified and deleted files.
pub open spec fn changed_text(modified: Seq<Seq<char>>, deleted: Seq<Seq<char>>) -> Seq<char> {
    if modified.len() > 0 || deleted.len() > 0 {
        "Changes not added for commit:\n"@
            + "  (use \"vox add <file>...\" to update what will be committed)\n"@
            + "  (use \"vox restore <file>...\" to discard changes)\n\n"@ + path_lines(
            "\x1b[31mmodified:   "@,
            modified,
            "\x1b[0m"@,
        ) + path_lines("\x1b[31mdeleted:    "@, deleted, "\x1b[0m"@) + "\n"@
    } else {
        Seq::empty()
    }
}

/// The section on untracked files.
pub open spec fn untracked_text(untracked: Seq<Seq<char>>) -> Seq<char> {
    if untracked.len() > 0 {
        "Untracked files:\n"@
            + "  (use \"vox add <file>...\" to include in what will be committed)\n\n"@
            + path_lines("\x1b[31m"@, untracked, "\x1b[0m"@) + "\n"@
    } else {
        Seq::empty()
    }
}

/// The closing hint, where there are modified or untracked files.
pub open spec fn hint_text(modified: Seq<Seq<char>>, untracked: Seq<Seq<char>>) -> Seq<char> {
    if modified.len() > 0 || untracked.len() > 0 {
        "no changes added to commit (use \"vox add\" and/or \"vox commit -a\")\n"@
    } else {
        Seq::empty()
    }
}

/// The report of the `status` command.
pub open spec fn status_text(
    branch: Seq<char>,
    commit: Option<Seq<char>>,
    added: Seq<Seq<char>>,
    modified: Seq<Seq<char>>,
    deleted: Seq<Seq<char>>,
    untracked: Seq<Seq<char>>,
) -> Seq<char> {
    if added.len() == 0 && modified.len() == 0 && deleted.len() == 0 && untracked.len() == 0 {
        status_head(branch, commit) + "\u{2713} Working tree clean\n"@
    } else {
        status_head(branch, commit) + staged_text(added) + changed_text(modified, deleted)
            + untracked_text(untracked) + hint_text(modified, untracked)
    }
}

/// Appends one line per path.
fn push_path_lines(out: &mut String, open: &str, paths: &[String], close: &str)
    ensures
        final(out)@ == old(out)@ + path_lines(open@, string_views(paths@), close@),
{
    let mut i: usize = 0;
    while i < paths.len()
        invariant
            i <= paths@.len(),
            out@ == old(out)@ + path_lines(open@, string_views(paths@.subrange(0, i as int)), close@),
        decreases paths@.len() - i,
    {
        push_str(out, "\t");
        push_str(out, open);
        push_str(out, paths[i].as_str());
        push_str(out, close);
        push_str(out, "\n");
        proof {
            let pre = string_views(paths@.subrange(0, i as int));
            let cur = string_views(paths@.subrange(0, i + 1));
            assert(cur.drop_last() =~= pre);
            assert(cur.last() == paths@[i as int]@);
        }
        i = i + 1;
    }
    assert(paths@.subrange(0, paths@.len() as int) =~= paths@);
}

/// The first seven bytes of `c`, as text.
fn short_hash_of(c: &str) -> (s: String)
    requires
        short_hash_ok(c@),
    ensures
        s@ == short_hash(c@),
{
    let bytes = str_bytes(c);
    let mut head: Vec<u8> = Vec::new();
    let mut i: usize = 0;
    while i < 7
        invariant
            i <= 7,
            7 <= bytes@.len(),
            head@ == bytes@.subrange(0, i as int),
        decreases 7 - i,
    {
        head.push(bytes[i]);
        assert(bytes@.subrange(0, i + 1) =~= bytes@.subrange(0, i as int).push(bytes@[i as int]));
        i = i + 1;
    }
    match string_from_utf8(head) {
        Some(s) => s,
        None => String::new(),
    }
}

fn staged_section(added: &[String]) -> (s: String)
    ensures
        s@ == staged_text(string_views(added@)),
{
    let mut s = String::new();
    if added.len() > 0 {
        push_str(&mut s, "Changes to be committed:\n");
        push_str(&mut s, "  (use \"vox reset HEAD <file>...\" to unstage)\n\n");
        push_path_lines(&mut s, "\x1b[32mnew file:   ", added, "\x1b[0m");
        push_str(&mut s, "\n");
    }
    assert(s@ =~= staged_text(string_views(added@)));
    s
}

fn changed_section(modified: &[String], deleted: &[String]) -> (s: String)
    ensures
        s@ == changed_text(string_views(modified@), string_views(deleted@)),
{
    let mut s = String::new();
    if modified.len() > 0 || deleted.len() > 0 {
        push_str(&mut s, "Changes not added for commit:\n");
        push_str(&mut s, "  (use \"vox add <file>...\" to update what will be committed)\n");
        push_str(&mut s, "  (use \"vox restore <file>...\" to discard changes)\n\n");
        push_path_lines(&mut s, "\x1b[31mmodified:   ", modified, "\x1b[0m");
        push_path_lines(&mut s, "\x1b[31mdeleted:    ", deleted, "\x1b[0m");
        push_str(&mut s, "\n");
    }
    assert(s@ =~= changed_text(string_views(modified@), string_views(deleted@)));
    s
}

fn untracked_section(untracked: &[String]) -> (s: String)
    ensures
        s@ == untracked_text(string_views(untracked@)),
{
    let mut s = String::new();
    if untracked.len() > 0 {
        push_str(&mut s, "Untracked files:\n");
        push_str(&mut s, "  (use \"vox add <file>...\" to include in what will be committed)\n\n");
        push_path_lines(&mut s, "\x1b[31m", untracked, "\x1b[0m");
        push_str(&mut s, "\n");
    }
    assert(s@ =~= untracked_text(string_views(untracked@)));
    s
}

fn head_section(branch: &str, current_commit: Option<&str>) -> (s: String)
    requires
        current_commit matches Some(c) ==> short_hash_ok(c@),
    ensures
        s@ == status_head(
            branch@,
            match current_commit {
                Some(c) => Some(c@),
                None => None,
            },
        ),
{
    let mut s = String::new();
    push_str(&mut s, "On branch ");
    push_str(&mut s, branch);
    push_str(&mut s, "\n");
    match current_commit {
        Some(c) => {
            push_str(&mut s, "Current commit [");
            let h = short_hash_of(c);
            push_str(&mut s, h.as_str());
            push_str(&mut s, "]\n");
        },
        None => {},
    }
    s
}

/// The report of the `status` command: the branch, the current commit (by the
/// first seven bytes of its hash), then the staged, changed and untracked
/// files, or that the working tree is clean.
pub fn status_report(
    branch: &str,
    current_commit: Option<&str>,
    added: &[String],
    modified: &[String],
    deleted: &[String],
    untracked: &[String],
) -> (s: String)
    requires
        current_commit matches Some(c) ==> short_hash_ok(c@),
    ensures
        s@ == status_text(
            branch@,
            match current_commit {
                Some(c) => Some(c@),
                None => None,
            },
            string_views(added@),
            string_views(modified@),
            string_views(deleted@),
            string_views(untracked@),
        ),
{
    let mut s = head_section(branch, current_commit);
    if added.len() == 0 && modified.len() == 0 && deleted.len() == 0 && untracked.len() == 0 {
        push_str(&mut s, "\u{2713} Working tree clean\n");
        return s;
    }
    let a = staged_section(added);
    let c = changed_section(modified, deleted);
    let u = untracked_section(untracked);
    push_str(&mut s, a.as_str());
    push_str(&mut s, c.as_str());
    push_str(&mut s, u.as_str());
    if modified.len() > 0 || untracked.len() > 0 {
        push_str(&mut s, "no changes added to commit (use \"vox add\" and/or \"vox commit -a\")\n");
    }
    s
}


/// The branch the `HEAD` text names, as the status report shows it: the text
/// after `ref: refs/heads/`, up to its final line feed.
pub open spec fn status_branch(head: Seq<char>) -> Option<Seq<char>> {
    let p = "ref: refs/heads/"@;
    if has_prefix(head, p) && head.len() > p.len() && head.last() == '\n' {
        Some(head.subrange(p.len() as int, head.len() - 1))
    } else {
        None
    }
}

/// The branch the `HEAD` text names, where it ends in a line feed.
pub fn branch_from_head(head: &str) -> (r: Option<String>)
    ensures
        match status_branch(head@) {
            Some(b) => r matches Some(s) && s@ == b,
            None => r is None,
        },
{
    let cs = str_chars(head);
    match strip_prefix_chars(&cs, "ref: refs/heads/") {
        None => None,
        Some(mut rest) => {
            if rest.len() > 0 && rest[rest.len() - 1] == '\n' {
                rest.pop();
                Some(string_from_chars(rest.as_slice()))
            } else {
                None
            }
        },
    }
}

} // verus!
