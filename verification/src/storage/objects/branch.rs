//! Branches: a name for a commit, kept in a file under `.vox/refs/heads`, and
//! the `HEAD` file that names the current branch.

use vstd::prelude::*;
use crate::paths::is_rooted;
use crate::text::{
    has_prefix, lemma_text_less_irreflexive, lemma_text_less_transitive, push_str, str_chars,
    str_eq, string_from_chars, strip_prefix_chars, text_before, text_less, trim_chars, trimmed,
};

verus! {

/// A branch: its name and the commit it points to.
#[derive(Debug)]
pub struct Branch {
    pub name: String,
    pub commit_hash: String,
}

/// The file of the branch `name`: `name` joined onto `.vox/refs/heads` the way
/// `PathBuf::join` joins (a rooted `name` replaces the base).
pub open spec fn branch_path(name: Seq<char>) -> Seq<char> {
    if is_rooted(name) {
        name
    } else {
        ".vox/refs/heads/"@ + name
    }
}

/// What `HEAD` holds when it names a branch: this prefix, then the name.
pub open spec fn head_ref_prefix() -> Seq<char> {
    "ref: refs/heads/"@
}

/// The branch `HEAD` names, white space around it trimmed; none where `HEAD`
/// does not name a branch.
pub open spec fn head_branch(head: Seq<char>) -> Option<Seq<char>> {
    if has_prefix(head, head_ref_prefix()) {
        Some(trimmed(head.subrange(head_ref_prefix().len() as int, head.len() as int)))
    } else {
        None
    }
}

/// The text a new branch's file holds: a line feed, then the commit hash.
pub open spec fn branch_file_text(commit_hash: Seq<char>) -> Seq<char> {
    "\n"@ + commit_hash
}

impl Branch {
    /// The file of the branch `name`.
    pub fn get_branch_path(name: &str) -> (p: String)
        ensures
            p@ == branch_path(name@),
    {
        let cs = str_chars(name);
        if cs.len() > 0 && cs[0] == '/' {
            return name.to_string();
        }
        let mut p = String::new();
        push_str(&mut p, ".vox/refs/heads/");
        push_str(&mut p, name);
        p
    }

    /// The name of the branch `HEAD` names, where it names one.
    pub fn current_branch_name(head: &str) -> (r: Option<String>)
        ensures
            match head_branch(head@) {
                Some(n) => r matches Some(s) && s@ == n,
                None => r is None,
            },
    {
        let cs = str_chars(head);
        match strip_prefix_chars(&cs, "ref: refs/heads/") {
            None => None,
            Some(rest) => {
                let t = trim_chars(&rest);
                Some(string_from_chars(t.as_slice()))
            },
        }
    }

    /// The text the file of a new branch on `commit_hash` holds.
    pub fn file_text(commit_hash: &str) -> (s: String)
        ensures
            s@ == branch_file_text(commit_hash@),
    {
        let mut s = String::new();
        push_str(&mut s, "\n");
        push_str(&mut s, commit_hash);
        s
    }

    /// The branch `name`, read from the text of its file: the commit hash is the
    /// text with white space around it trimmed.
    pub fn from_file(name: &str, content: &str) -> (b: Branch)
        ensures
            b.name@ == name@,
            b.commit_hash@ == trimmed(content@),
    {
        let cs = str_chars(content);
        let t = trim_chars(&cs);
        Branch { name: name.to_string(), commit_hash: string_from_chars(t.as_slice()) }
    }
}

/// Why a branch could not be created or deleted.
#[derive(Debug, PartialEq, Eq, Structural)]
pub enum BranchError {
    /// A branch of that name exists already.
    AlreadyExists,
    /// No branch has that name.
    NotFound,
    /// The branch is the current one.
    CurrentBranch,
}

impl Branch {
    /// Whether a branch may be created, given whether its file exists: not
    /// over an existing one.
    pub fn check_new(exists: bool) -> (r: Result<(), BranchError>)
        ensures
            r == (if exists {
                Err::<(), BranchError>(BranchError::AlreadyExists)
            } else {
                Ok::<(), BranchError>(())
            }),
    {
        if exists {
            Err(BranchError::AlreadyExists)
        } else {
            Ok(())
        }
    }

    /// Whether the branch `name` may be deleted, given whether its file
    /// exists and the current branch: it must exist, and not be current.
    pub fn check_delete(name: &str, exists: bool, current: Option<&Branch>) -> (r: Result<
        (),
        BranchError,
    >)
        ensures
            r == (if !exists {
                Err::<(), BranchError>(BranchError::NotFound)
            } else if current matches Some(c) && c.name@ == name@ {
                Err::<(), BranchError>(BranchError::CurrentBranch)
            } else {
                Ok::<(), BranchError>(())
            }),
    {
        if !exists {
            return Err(BranchError::NotFound);
        }
        match current {
            Some(c) => {
                if str_eq(c.name.as_str(), name) {
                    Err(BranchError::CurrentBranch)
                } else {
                    Ok(())
                }
            },
            None => Ok(()),
        }
    }
}

/// Whether the branches come in the order of their names.
pub open spec fn names_in_order(bs: Seq<Branch>) -> bool {
    forall|i: int, j: int|
        0 <= i < j < bs.len() ==> !text_less(#[trigger] bs[j].name@, #[trigger] bs[i].name@)
}

/// Putting `x` at `p` in branches in name order keeps them in order, where no
/// branch before `p` comes after `x` and `x` comes before the one at `p`.
proof fn lemma_insert_in_order(r: Seq<Branch>, p: int, x: Branch)
    requires
        names_in_order(r),
        0 <= p <= r.len(),
        forall|k: int| 0 <= k < p ==> !text_less(x.name@, #[trigger] r[k].name@),
        p < r.len() ==> text_less(x.name@, r[p].name@),
    ensures
        names_in_order(r.insert(p, x)),
{
    let n = r.insert(p, x);
    assert forall|i: int, j: int| 0 <= i < j < n.len() implies !text_less(
        #[trigger] n[j].name@,
        #[trigger] n[i].name@,
    ) by {
        if j < p {
            assert(n[i] == r[i] && n[j] == r[j]);
        } else if j == p {
            assert(n[i] == r[i] && n[j] == x);
        } else if i < p {
            assert(n[i] == r[i] && n[j] == r[j - 1]);
        } else if i == p {
            assert(n[i] == x && n[j] == r[j - 1]);
            if text_less(r[j - 1].name@, x.name@) {
                lemma_text_less_transitive(r[j - 1].name@, x.name@, r[p].name@);
                if j - 1 == p {
                    lemma_text_less_irreflexive(r[p].name@);
                }
            }
        } else {
            assert(n[i] == r[i - 1] && n[j] == r[j - 1]);
        }
    }
}

impl Branch {
    /// The branches in the order of their names, as `list` gives them.
    pub fn sort_by_name(branches: Vec<Branch>) -> (r: Vec<Branch>)
        ensures
            names_in_order(r@),
            r@.to_multiset() == branches@.to_multiset(),
    {
        broadcast use vstd::multiset::group_multiset_axioms;
        broadcast use vstd::seq_lib::group_to_multiset_ensures;
        broadcast use vstd::multiset::lemma_multiset_empty_len;

        let mut r: Vec<Branch> = Vec::new();
        let mut rest = branches;
        proof {
            assert(r@.to_multiset() =~= vstd::multiset::Multiset::<Branch>::empty());
        }
        while rest.len() > 0
            invariant
                names_in_order(r@),
                r@.to_multiset().add(rest@.to_multiset()) == branches@.to_multiset(),
            decreases rest@.len(),
        {
            let ghost before = rest@;
            let x = rest.remove(0);
            let mut p: usize = 0;
            while p < r.len() && !text_before(x.name.as_str(), r[p].name.as_str())
                invariant
                    p <= r@.len(),
                    forall|k: int| 0 <= k < p ==> !text_less(x.name@, #[trigger] r@[k].name@),
                decreases r@.len() - p,
            {
                p = p + 1;
            }
            proof {
                lemma_insert_in_order(r@, p as int, x);
            }
            let ghost old_r = r@;
            r.insert(p, x);
            proof {
                assert(rest@ == before.remove(0));
                assert(before[0] == x);
                vstd::seq_lib::to_multiset_remove(before, 0);
                assert(r@ == old_r.insert(p as int, x));
                vstd::seq_lib::to_multiset_insert(old_r, p as int, x);
                assert(rest@.to_multiset() == before.to_multiset().remove(x));
                assert(r@.to_multiset() == old_r.to_multiset().insert(x));
                assert(before.contains(x));
                vstd::seq_lib::to_multiset_contains(before, x);
                assert(before.to_multiset().count(x) > 0);
                assert(r@.to_multiset().add(rest@.to_multiset()) =~= old_r.to_multiset().add(
                    before.to_multiset(),
                ));
            }
        }
        proof {
            assert(rest@.to_multiset() =~= vstd::multiset::Multiset::<Branch>::empty());
        }
        r
    }
}

/// Reading back the file of a new branch gives its commit hash, where the
/// hash has no white space around it.
pub proof fn lemma_branch_file_roundtrip(commit_hash: Seq<char>)
    requires
        trimmed(commit_hash) == commit_hash,
        commit_hash.len() > 0,
    ensures
        trimmed(branch_file_text(commit_hash)) == commit_hash,
{
    reveal_strlit("\n");
    let t = branch_file_text(commit_hash);
    assert(t.drop_first() =~= commit_hash);
    assert(crate::text::trim_start(t) == crate::text::trim_start(commit_hash));
    lemma_trim_start_of_trimmed(commit_hash);
}

/// Text that trimming leaves alone starts with no white space.
proof fn lemma_trim_start_of_trimmed(s: Seq<char>)
    requires
        trimmed(s) == s,
        s.len() > 0,
    ensures
        crate::text::trim_start(s) == s,
{
    lemma_trim_start_suffix(s);
    if crate::text::trim_start(s) != s {
        assert(crate::text::trim_start(s).len() < s.len());
        lemma_trim_end_shorter(crate::text::trim_start(s));
    }
}

/// Trimming the start gives a suffix, no longer than the text.
proof fn lemma_trim_start_suffix(s: Seq<char>)
    ensures
        crate::text::trim_start(s).len() <= s.len(),
        crate::text::trim_start(s).len() == s.len() ==> crate::text::trim_start(s) == s,
    decreases s.len(),
{
    if s.len() > 0 && crate::text::is_white(s[0]) {
        lemma_trim_start_suffix(s.drop_first());
    }
}

/// Trimming the end gives no longer text.
proof fn lemma_trim_end_shorter(s: Seq<char>)
    ensures
        crate::text::trim_end(s).len() <= s.len(),
    decreases s.len(),
{
    if s.len() > 0 && crate::text::is_white(s.last()) {
        lemma_trim_end_shorter(s.drop_last());
    }
}

} // verus!
