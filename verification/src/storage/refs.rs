//! References: files naming a commit, and what `HEAD` points to.

use vstd::prelude::*;
use vstd::utf8::*;
use crate::paths::is_rooted;
use crate::storage::objects::branch::{head_branch, head_ref_prefix};
use crate::text::{
    has_prefix, is_trimmed, lemma_trimmed_unchanged, push_str, str_chars, string_from_chars,
    string_from_utf8, strip_prefix_chars, trim_chars, trimmed,
};

verus! {

/// The text a reference file holds: the commit hash and a line feed.
pub open spec fn ref_text(commit_hash: Seq<char>) -> Seq<char> {
    commit_hash + "\n"@
}

/// The text a reference file holds for `commit_hash`.
pub fn ref_file_text(commit_hash: &str) -> (s: String)
    ensures
        s@ == ref_text(commit_hash@),
{
    let mut s = String::new();
    push_str(&mut s, commit_hash);
    push_str(&mut s, "\n");
    s
}

/// The commit a reference file names: its text, in UTF-8, with white space
/// around it trimmed; none where the bytes are not UTF-8.
pub fn read_ref_content(data: Vec<u8>) -> (r: Option<String>)
    ensures
        r is Some <==> valid_utf8(data@),
        r matches Some(s) ==> s@ == trimmed(decode_utf8(data@)),
{
    match string_from_utf8(data) {
        None => None,
        Some(text) => {
            let cs = str_chars(text.as_str());
            let t = trim_chars(&cs);
            Some(string_from_chars(t.as_slice()))
        },
    }
}

/// Reading back a reference file gives the commit hash written to it, where
/// the hash has no white space at its ends.
pub proof fn lemma_ref_roundtrip(commit_hash: Seq<char>)
    requires
        is_trimmed(commit_hash),
    ensures
        valid_utf8(encode_utf8(ref_text(commit_hash))),
        trimmed(decode_utf8(encode_utf8(ref_text(commit_hash)))) == commit_hash,
{
    reveal_strlit("\n");
    assert("\n"@ =~= seq!['\n']);
    encode_utf8_valid_utf8(ref_text(commit_hash));
    encode_utf8_decode_utf8(ref_text(commit_hash));
    lemma_trimmed_unchanged(commit_hash);
    if commit_hash.len() == 0 {
        let t = ref_text(commit_hash);
        assert(t =~= seq!['\n']);
        assert(t.drop_first() =~= Seq::<char>::empty());
        assert(crate::text::is_white(t[0]));
        assert(crate::text::trim_start(Seq::<char>::empty()) =~= Seq::<char>::empty());
        assert(crate::text::trim_start(t) =~= Seq::<char>::empty());
        assert(trimmed(t) =~= Seq::<char>::empty());
    }
}

/// `s` with every leading copy of `p` removed, as `str::trim_start_matches` removes them.
pub open spec fn strip_all(s: Seq<char>, p: Seq<char>) -> Seq<char>
    decreases s.len(),
{
    if p.len() > 0 && has_prefix(s, p) {
        strip_all(s.subrange(p.len() as int, s.len() as int), p)
    } else {
        s
    }
}

/// The path of the reference `r` in the repository: `r` joined onto `.vox`.
pub open spec fn ref_path(r: Seq<char>) -> Seq<char> {
    if is_rooted(r) {
        r
    } else {
        ".vox/"@ + r
    }
}

/// What `HEAD` points to: the file of a branch, or a commit.
#[derive(Debug, PartialEq, Eq)]
pub enum HeadTarget {
    /// The path of the reference file of the current branch.
    Branch(String),
    /// The hash of the current commit (a detached `HEAD`).
    Detached(String),
}

/// The value of what `HEAD` points to.
pub enum HeadModel {
    Branch(Seq<char>),
    Detached(Seq<char>),
}

impl View for HeadTarget {
    type V = HeadModel;

    open spec fn view(&self) -> HeadModel {
        match self {
            HeadTarget::Branch(p) => HeadModel::Branch(p@),
            HeadTarget::Detached(h) => HeadModel::Detached(h@),
        }
    }
}

/// What the `HEAD` text `head` points to: where it starts with `ref: `, the
/// reference after those prefixes, trimmed and joined onto `.vox`; otherwise
/// the trimmed text, a commit hash.
pub open spec fn head_target(head: Seq<char>) -> HeadModel {
    if has_prefix(head, "ref: "@) {
        HeadModel::Branch(ref_path(trimmed(strip_all(head, "ref: "@))))
    } else {
        HeadModel::Detached(trimmed(head))
    }
}

/// Moving the current position to the commit `h` and reading it back gives
/// `h`. Where `HEAD` names a branch, the branch's file gets the reference text
/// of `h`, and reading that file gives `h`; where `HEAD` is detached, `HEAD`
/// itself gets it, and then points to `h` as a detached commit. This holds for
/// a hash without white space at its ends that does not start with `ref: `.
pub proof fn lemma_head_roundtrip(head: Seq<char>, h: Seq<char>)
    requires
        is_trimmed(h),
        !has_prefix(h, "ref: "@),
    ensures
        match head_target(head) {
            HeadModel::Branch(_) => valid_utf8(encode_utf8(ref_text(h))) && trimmed(
                decode_utf8(encode_utf8(ref_text(h))),
            ) == h,
            HeadModel::Detached(_) => head_target(ref_text(h)) == HeadModel::Detached(h),
        },
{
    lemma_ref_roundtrip(h);
    encode_utf8_decode_utf8(ref_text(h));
    reveal_strlit("\n");
    reveal_strlit("ref: ");
    let t = ref_text(h);
    assert(t =~= h + seq!['\n']);
    assert(!has_prefix(t, "ref: "@)) by {
        if has_prefix(t, "ref: "@) {
            if h.len() >= 5 {
                assert(h.subrange(0, 5) =~= t.subrange(0, 5));
            } else {
                assert(t[h.len() as int] == '\n');
                assert(t.subrange(0, 5)[h.len() as int] == "ref: "@[h.len() as int]);
            }
        }
    }
    assert(trimmed(t) == h);
}

/// What `HEAD` holds in a new repository: a reference to the branch `main`.
pub open spec fn initial_head_text() -> Seq<char> {
    "ref: refs/heads/main\n"@
}

/// The text `HEAD` is created with. It points to the file of the branch
/// `main`, which is the current branch.
pub fn initial_head() -> (s: String)
    ensures
        s@ == initial_head_text(),
        head_target(s@) == HeadModel::Branch(".vox/refs/heads/main"@),
        head_branch(s@) == Some("main"@),
{
    let s = "ref: refs/heads/main\n".to_string();
    proof {
        reveal_strlit("ref: refs/heads/main\n");
        reveal_strlit("ref: ");
        reveal_strlit("refs/heads/main");
        reveal_strlit(".vox/refs/heads/main");
        reveal_strlit(".vox/");
        reveal_strlit("ref: refs/heads/");
        reveal_strlit("main");
        let h = s@;
        assert(has_prefix(h, "ref: "@)) by {
            assert(h.subrange(0, 5) =~= "ref: "@);
        }
        let rest = h.subrange(5, h.len() as int);
        assert(rest =~= "refs/heads/main"@ + seq!['\n']);
        assert(!has_prefix(rest, "ref: "@)) by {
            assert(rest.subrange(0, 5)[3] != "ref: "@[3]);
        }
        assert(strip_all(rest, "ref: "@) == rest);
        assert(strip_all(h, "ref: "@) == rest);
        lemma_trimmed_unchanged("refs/heads/main"@);
        assert(trimmed(rest) == "refs/heads/main"@);
        assert(ref_path("refs/heads/main"@) =~= ".vox/refs/heads/main"@);
        assert(has_prefix(h, head_ref_prefix())) by {
            assert(h.subrange(0, 16) =~= head_ref_prefix());
        }
        let name = h.subrange(16, h.len() as int);
        assert(name =~= "main"@ + seq!['\n']);
        lemma_trimmed_unchanged("main"@);
    }
    s
}

/// What the `HEAD` text `head` points to.
pub fn read_head(head: &str) -> (t: HeadTarget)
    ensures
        t@ == head_target(head@),
{
    proof {
        reveal_strlit("ref: ");
    }
    let cs = str_chars(head);
    let first = strip_prefix_chars(&cs, "ref: ");
    if first.is_none() {
        let t = trim_chars(&cs);
        return HeadTarget::Detached(string_from_chars(t.as_slice()));
    }
    let mut rest = first.unwrap();
    assert(strip_all(head@, "ref: "@) == strip_all(rest@, "ref: "@));
    loop
        invariant
            strip_all(head@, "ref: "@) == strip_all(rest@, "ref: "@),
            "ref: "@.len() == 5,
        ensures
            strip_all(head@, "ref: "@) == strip_all(rest@, "ref: "@),
            !has_prefix(rest@, "ref: "@),
        decreases rest@.len(),
    {
        match strip_prefix_chars(&rest, "ref: ") {
            None => {
                break;
            },
            Some(next) => {
                rest = next;
            },
        }
    }
    assert(strip_all(rest@, "ref: "@) == rest@);
    let r = trim_chars(&rest);
    let mut p = String::new();
    if r.len() > 0 && r[0] == '/' {
        p = string_from_chars(r.as_slice());
    } else {
        push_str(&mut p, ".vox/");
        let rs = string_from_chars(r.as_slice());
        push_str(&mut p, rs.as_str());
    }
    HeadTarget::Branch(p)
}

} // verus!
