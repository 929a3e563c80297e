//! The `checkout` command's decisions: which commit a target names, what
//! `HEAD` holds afterwards, which entries of the working directory are cleared,
//! and which files need rewriting.

use vstd::prelude::*;
use vstd::utf8::*;
use crate::storage::codec::{object_hash, spec_object_hash};
use crate::storage::objects::branch::{head_branch, head_ref_prefix, Branch};
use crate::text::{has_prefix, is_trimmed, lemma_trimmed_unchanged, push_str, str_bytes, str_chars, str_eq};

verus! {

/// Whether `target` names a commit: forty bytes of text.
pub open spec fn names_commit(target: Seq<char>) -> bool {
    encode_utf8(target).len() == 40
}

/// The first of `branches` named `name`.
pub open spec fn branch_index(branches: Seq<Branch>, name: Seq<char>, i: int) -> Option<int>
    decreases branches.len() - i,
{
    if i < 0 || i >= branches.len() {
        None
    } else if branches[i].name@ == name {
        Some(i)
    } else {
        branch_index(branches, name, i + 1)
    }
}

/// The commit a checkout target names: the target itself where it is forty
/// bytes long, else the commit of the first branch of that name.
pub open spec fn target_commit(target: Seq<char>, branches: Seq<Branch>) -> Option<Seq<char>> {
    if names_commit(target) {
        Some(target)
    } else {
        match branch_index(branches, target, 0) {
            Some(i) => Some(branches[i].commit_hash@),
            None => None,
        }
    }
}

/// The search for a branch named `name` from `i` finds `j` where that is the
/// first such branch at or after `i`.
proof fn lemma_branch_index_first(branches: Seq<Branch>, name: Seq<char>, i: int, j: int)
    requires
        0 <= i <= j < branches.len(),
        branches[j].name@ == name,
        forall|k: int| i <= k < j ==> branches[k].name@ != name,
    ensures
        branch_index(branches, name, i) == Some(j),
    decreases j - i,
{
    if i < j {
        lemma_branch_index_first(branches, name, i + 1, j);
    }
}

/// The search for a branch named `name` from `i` finds none where no branch
/// from `i` on has that name.
proof fn lemma_branch_index_none(branches: Seq<Branch>, name: Seq<char>, i: int)
    requires
        0 <= i,
        forall|k: int| i <= k < branches.len() ==> branches[k].name@ != name,
    ensures
        branch_index(branches, name, i) is None,
    decreases branches.len() - i,
{
    if i < branches.len() {
        lemma_branch_index_none(branches, name, i + 1);
    }
}

/// What a checkout target names: a target of forty bytes names itself as a
/// commit; any other target names the commit of the first branch in the list
/// with that name, wherever in the list it stands, and nothing where no branch
/// has that name.
pub proof fn lemma_checkout_target(target: Seq<char>, branches: Seq<Branch>)
    ensures
        encode_utf8(target).len() == 40 ==> target_commit(target, branches) == Some(target),
        forall|j: int|
            encode_utf8(target).len() != 40 && 0 <= j < branches.len() && #[trigger] branches[j].name@
                == target && (forall|k: int| 0 <= k < j ==> branches[k].name@ != target)
                ==> target_commit(target, branches) == Some(branches[j].commit_hash@),
        encode_utf8(target).len() != 40 && (forall|k: int|
            0 <= k < branches.len() ==> branches[k].name@ != target) ==> target_commit(
            target,
            branches,
        ) is None,
{
    assert forall|j: int|
        encode_utf8(target).len() != 40 && 0 <= j < branches.len() && #[trigger] branches[j].name@
            == target && (forall|k: int| 0 <= k < j ==> branches[k].name@ != target) implies target_commit(
        target,
        branches,
    ) == Some(branches[j].commit_hash@) by {
        lemma_branch_index_first(branches, target, 0, j);
    }
    if encode_utf8(target).len() != 40 && (forall|k: int|
        0 <= k < branches.len() ==> branches[k].name@ != target) {
        lemma_branch_index_none(branches, target, 0);
    }
}

/// Whether checking out is refused: unless forced, it is while any tracked
/// file is modified or deleted, or any file is untracked.
pub fn checkout_refused(
    force: bool,
    modified: &Vec<String>,
    deleted: &Vec<String>,
    untracked: &Vec<String>,
) -> (b: bool)
    ensures
        b == (!force && (modified@.len() > 0 || deleted@.len() > 0 || untracked@.len() > 0)),
{
    !force && (modified.len() > 0 || deleted.len() > 0 || untracked.len() > 0)
}

/// The commit the checkout target `target` names, among `branches`.
pub fn checkout_commit(target: &str, branches: &[Branch]) -> (r: Option<String>)
    ensures
        match target_commit(target@, branches@) {
            Some(h) => r matches Some(s) && s@ == h,
            None => r is None,
        },
{
    if str_bytes(target).len() == 40 {
        return Some(target.to_string());
    }
    let mut i: usize = 0;
    while i < branches.len()
        invariant
            i <= branches@.len(),
            !names_commit(target@),
            branch_index(branches@, target@, 0) == branch_index(branches@, target@, i as int),
        decreases branches@.len() - i,
    {
        if str_eq(branches[i].name.as_str(), target) {
            return Some(branches[i].commit_hash.clone());
        }
        i = i + 1;
    }
    None
}

/// What `HEAD` holds after checking out `target`: the commit hash itself, or
/// a reference to the branch.
pub open spec fn head_after(target: Seq<char>) -> Seq<char> {
    if names_commit(target) {
        target
    } else {
        "ref: refs/heads/"@ + target + "\n"@
    }
}

/// Checking out a branch makes it the current branch: the branch that `HEAD`
/// names afterwards is the one checked out, for every branch name without
/// white space at its ends. Checking out a commit leaves `HEAD` holding the
/// commit hash itself.
pub proof fn lemma_checkout_head(target: Seq<char>)
    requires
        target.len() > 0,
        is_trimmed(target),
    ensures
        !names_commit(target) ==> head_branch(head_after(target)) == Some(target),
        names_commit(target) ==> head_after(target) == target,
{
    reveal_strlit("ref: refs/heads/");
    reveal_strlit("\n");
    if !names_commit(target) {
        let h = head_after(target);
        let p = head_ref_prefix();
        assert(h =~= p + target + seq!['\n']);
        assert(h.subrange(0, p.len() as int) =~= p);
        assert(h.subrange(p.len() as int, h.len() as int) =~= target + seq!['\n']);
        lemma_trimmed_unchanged(target);
    }
}

/// The text `HEAD` gets after checking out `target`.
pub fn head_text(target: &str) -> (s: String)
    ensures
        s@ == head_after(target@),
{
    if str_bytes(target).len() == 40 {
        return target.to_string();
    }
    let mut s = String::new();
    push_str(&mut s, "ref: refs/heads/");
    push_str(&mut s, target);
    push_str(&mut s, "\n");
    s
}

/// Whether clearing the working directory keeps the entry named `name`:
/// hidden entries stay, and so do the special directories `.orf`, `.git` and
/// `target`.
pub open spec fn kept_in_clean(name: Option<Seq<char>>, is_dir: bool) -> bool {
    name matches Some(n) && (has_prefix(n, "."@) || (is_dir && (n == ".orf"@ || n == ".git"@ || n
        == "target"@)))
}

/// Whether clearing the working directory keeps the entry named `name`.
pub fn keeps_entry(name: Option<&str>, is_dir: bool) -> (b: bool)
    ensures
        b == kept_in_clean(
            match name {
                Some(n) => Some(n@),
                None => None,
            },
            is_dir,
        ),
{
    match name {
        Some(n) => {
            let cs = str_chars(n);
            crate::text::strip_prefix_chars(&cs, ".").is_some() || (is_dir && (str_eq(n, ".orf")
                || str_eq(n, ".git") || str_eq(n, "target")))
        },
        None => false,
    }
}

/// Whether a file must be written from the blob with hash `expected`: where it
/// cannot be read (`None`), or its content's hash differs.
pub open spec fn file_needs_update(content: Option<Seq<u8>>, expected: Seq<char>) -> bool {
    match content {
        None => true,
        Some(c) => spec_object_hash(c) != expected,
    }
}

/// Whether the file with content `content` (`None` where it is missing or
/// cannot be read) must be written from the blob with hash `expected`.
pub fn should_update_file(content: Option<&[u8]>, expected: &str) -> (b: bool)
    ensures
        b == file_needs_update(
            match content {
                Some(c) => Some(c@),
                None => None,
            },
            expected@,
        ),
{
    match content {
        None => true,
        Some(c) => {
            let h = object_hash(c);
            !str_eq(h.as_str(), expected)
        },
    }
}

} // verus!
