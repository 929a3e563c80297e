//! Commits: a snapshot's tree, its parent, author, time and message, and the
//! text they are stored as.
//!
//! The text is `tree <hash>`, then `parent <hash>` where there is a parent,
//! then `author <author> <seconds since the epoch>`, each on a line of its own;
//! then an empty line and the message, ended by a line feed.

use vstd::prelude::*;
use vstd::utf8::*;
use crate::decimal::{decimal, i64_to_string, lemma_decimal_one_word, lemma_parse_decimal, parse_i64, parse_i64_chars};
use crate::lines::{
    find_char, find_char_exec, join_lines, join_lines_from, keeps_line_ends, lemma_find_char_at,
    lemma_join_lines_from, lemma_line_at, lemma_rfind_char_at, lines_from, rfind_char,
    rfind_char_exec, single_line, split_lines, strip_cr, sub_chars, text_lines,
};
use crate::bytes::{copy_range, find_zero, first_zero};
use crate::storage::codec::{zlib_contents, zlib_decompress};
use crate::storage::utils::{Loadable, framed, ObjectError, Storable, VoxObject, OBJ_TYPE_COMMIT};
use crate::text::has_prefix;
use crate::text::{push_str, str_bytes, str_chars, string_from_chars, string_from_utf8};

verus! {

/// The seconds since the epoch of chrono's earliest date and time,
/// `DateTime::<Utc>::MIN_UTC`.
pub const MIN_TIMESTAMP: i64 = -8334601228800;

/// The seconds since the epoch of the last whole second of chrono's latest
/// date and time, `DateTime::<Utc>::MAX_UTC`.
pub const MAX_TIMESTAMP: i64 = 8210266876799;

/// Whether `chrono::DateTime::from_timestamp(secs, 0)` gives a date for `secs`:
/// exactly where `secs` lies between chrono's earliest and latest dates.
pub open spec fn timestamp_in_range(secs: i64) -> bool {
    MIN_TIMESTAMP <= secs <= MAX_TIMESTAMP
}

/// `chrono::DateTime::from_timestamp(secs, 0)`: whether it gives a date. It
/// does exactly for the seconds from chrono's earliest date to its latest.
#[verifier::external_body]
pub(crate) fn timestamp_accepted(secs: i64) -> (r: bool)
    ensures
        r == timestamp_in_range(secs),
{
    chrono::DateTime::from_timestamp(secs, 0).is_some()
}

/// A commit: the root tree of a snapshot, its parent, who made it and when
/// (seconds since the epoch), and why.
#[derive(Debug, PartialEq, Eq, Hash)]
pub struct Commit {
    /// Hash of the root tree object for this commit
    pub tree: String,
    /// Optional hash of the parent commit
    pub parent: Option<String>,
    /// Author of the commit (identifier)
    pub author: String,
    /// When the commit was made, in seconds since the epoch
    pub timestamp: i64,
    /// Commit message describing the changes
    pub message: String,
}

/// The value of a commit.
pub struct CommitModel {
    pub tree: Seq<char>,
    pub parent: Option<Seq<char>>,
    pub author: Seq<char>,
    pub timestamp: i64,
    pub message: Seq<char>,
}

/// The characters of an optional string.
pub open spec fn opt_chars(o: Option<String>) -> Option<Seq<char>> {
    match o {
        Some(s) => Some(s@),
        None => None,
    }
}

impl View for Commit {
    type V = CommitModel;

    open spec fn view(&self) -> CommitModel {
        CommitModel {
            tree: self.tree@,
            parent: opt_chars(self.parent),
            author: self.author@,
            timestamp: self.timestamp,
            message: self.message@,
        }
    }
}

pub open spec fn tree_word() -> Seq<char> {
    seq!['t', 'r', 'e', 'e']
}

pub open spec fn parent_word() -> Seq<char> {
    seq!['p', 'a', 'r', 'e', 'n', 't']
}

pub open spec fn author_word() -> Seq<char> {
    seq!['a', 'u', 't', 'h', 'o', 'r']
}

/// The `parent` line of a commit's text, where it has a parent.
pub open spec fn parent_line(parent: Option<Seq<char>>) -> Seq<char> {
    match parent {
        Some(p) => parent_word() + seq![' '] + p + seq!['\n'],
        None => Seq::empty(),
    }
}

/// The text a commit is stored as.
pub open spec fn commit_text(c: CommitModel) -> Seq<char> {
    tree_word() + seq![' '] + c.tree + seq!['\n'] + parent_line(c.parent) + author_word() + seq![' ']
        + c.author + seq![' '] + decimal(c.timestamp as int) + seq!['\n'] + seq!['\n'] + c.message
        + seq!['\n']
}

/// Why commit text could not be read.
#[derive(Debug, PartialEq, Eq)]
pub enum CommitError {
    /// A header line has no space between its key and value.
    InvalidFormat,
    /// A header line has a key other than `tree`, `parent` and `author`.
    UnknownField(String),
    /// The author's timestamp is not an `i64`.
    InvalidTimestamp,
    MissingTree,
    MissingAuthor,
    MissingTimestamp,
    /// The `author` value has no space before a timestamp.
    AuthorWithoutTimestamp,
    /// The timestamp names no date that chrono can hold.
    TimestampOutOfRange,
}

/// The value of a commit error.
pub enum CommitFault {
    InvalidFormat,
    UnknownField(Seq<char>),
    InvalidTimestamp,
    MissingTree,
    MissingAuthor,
    MissingTimestamp,
    AuthorWithoutTimestamp,
    TimestampOutOfRange,
}

impl View for CommitError {
    type V = CommitFault;

    open spec fn view(&self) -> CommitFault {
        match self {
            CommitError::InvalidFormat => CommitFault::InvalidFormat,
            CommitError::UnknownField(k) => CommitFault::UnknownField(k@),
            CommitError::InvalidTimestamp => CommitFault::InvalidTimestamp,
            CommitError::MissingTree => CommitFault::MissingTree,
            CommitError::MissingAuthor => CommitFault::MissingAuthor,
            CommitError::MissingTimestamp => CommitFault::MissingTimestamp,
            CommitError::AuthorWithoutTimestamp => CommitFault::AuthorWithoutTimestamp,
            CommitError::TimestampOutOfRange => CommitFault::TimestampOutOfRange,
        }
    }
}

/// The faults on which reading a commit aborts rather than failing: an
/// `author` value without a space, and a timestamp chrono cannot hold.
pub open spec fn aborts(f: CommitFault) -> bool {
    f is AuthorWithoutTimestamp || f is TimestampOutOfRange
}

/// The header fields read so far.
pub struct HeaderFields {
    pub tree: Option<Seq<char>>,
    pub parent: Option<Seq<char>>,
    pub author: Option<Seq<char>>,
    pub timestamp: Option<i64>,
}

pub open spec fn no_fields() -> HeaderFields {
    HeaderFields { tree: None, parent: None, author: None, timestamp: None }
}

/// Reading one header line `key value`: `tree` and `parent` take the value;
/// `author` takes the value up to its last space as the author and the rest
/// as the timestamp. A later line replaces what an earlier one gave.
pub open spec fn header_step(f: HeaderFields, line: Seq<char>) -> Result<HeaderFields, CommitFault> {
    match find_char(line, ' ', 0) {
        None => Err(CommitFault::InvalidFormat),
        Some(j) => {
            let key = line.subrange(0, j);
            let value = line.subrange(j + 1, line.len() as int);
            if key == tree_word() {
                Ok(HeaderFields { tree: Some(value), ..f })
            } else if key == parent_word() {
                Ok(HeaderFields { parent: Some(value), ..f })
            } else if key == author_word() {
                match rfind_char(value, ' ') {
                    None => Err(CommitFault::AuthorWithoutTimestamp),
                    Some(l) => match parse_i64(value.subrange(l + 1, value.len() as int)) {
                        None => Err(CommitFault::InvalidTimestamp),
                        Some(t) => if timestamp_in_range(t) {
                            Ok(
                                HeaderFields {
                                    author: Some(value.subrange(0, l)),
                                    timestamp: Some(t),
                                    ..f
                                },
                            )
                        } else {
                            Err(CommitFault::TimestampOutOfRange)
                        },
                    },
                }
            } else {
                Err(CommitFault::UnknownField(key))
            }
        },
    }
}

/// Reading header lines from `i` on, up to the first empty line: the fields
/// read, and where the message starts.
pub open spec fn run_header(ls: Seq<Seq<char>>, i: int, f: HeaderFields) -> (
    Result<HeaderFields, CommitFault>,
    int,
)
    decreases ls.len() - i,
{
    if i < 0 || i >= ls.len() {
        (Ok(f), ls.len() as int)
    } else if ls[i].len() == 0 {
        (Ok(f), i + 1)
    } else {
        match header_step(f, ls[i]) {
            Err(e) => (Err(e), i),
            Ok(g) => run_header(ls, i + 1, g),
        }
    }
}

/// The commit the header fields and message make, where no field is missing.
pub open spec fn finish(f: HeaderFields, message: Seq<char>) -> Result<CommitModel, CommitFault> {
    if f.tree is None {
        Err(CommitFault::MissingTree)
    } else if f.author is None {
        Err(CommitFault::MissingAuthor)
    } else if f.timestamp is None {
        Err(CommitFault::MissingTimestamp)
    } else {
        Ok(
            CommitModel {
                tree: f.tree.unwrap(),
                parent: f.parent,
                author: f.author.unwrap(),
                timestamp: f.timestamp.unwrap(),
                message,
            },
        )
    }
}

/// Reading commit text: header lines up to the first empty line, then the
/// message, its lines joined by line feeds.
pub open spec fn commit_parse(content: Seq<char>) -> Result<CommitModel, CommitFault> {
    let ls = text_lines(content);
    let (r, k) = run_header(ls, 0, no_fields());
    match r {
        Err(e) => Err(e),
        Ok(f) => finish(f, join_lines(ls.subrange(k, ls.len() as int))),
    }
}

/// A commit result, by value.
pub open spec fn commit_result(r: Result<Commit, CommitError>) -> Result<CommitModel, CommitFault> {
    match r {
        Ok(c) => Ok(c@),
        Err(e) => Err(e@),
    }
}

/// The header fields read so far, held by the reader.
struct Header {
    tree: Option<Vec<char>>,
    parent: Option<Vec<char>>,
    author: Option<Vec<char>>,
    timestamp: Option<i64>,
}

spec fn opt_seq(o: Option<Vec<char>>) -> Option<Seq<char>> {
    match o {
        Some(v) => Some(v@),
        None => None,
    }
}

impl Header {
    spec fn fields(&self) -> HeaderFields {
        HeaderFields {
            tree: opt_seq(self.tree),
            parent: opt_seq(self.parent),
            author: opt_seq(self.author),
            timestamp: self.timestamp,
        }
    }
}

/// Whether `v` holds exactly the characters `w`.
fn chars_are(v: &Vec<char>, w: &str) -> (r: bool)
    ensures
        r == (v@ == w@),
{
    let wc = str_chars(w);
    if v.len() != wc.len() {
        return false;
    }
    let mut i: usize = 0;
    while i < v.len()
        invariant
            v@.len() == wc@.len(),
            wc@ == w@,
            i <= v@.len(),
            forall|t: int| 0 <= t < i ==> v@[t] == wc@[t],
        decreases v@.len() - i,
    {
        if v[i] != wc[i] {
            return false;
        }
        i = i + 1;
    }
    assert(v@ =~= wc@);
    true
}

/// Reads one header line into `h`.
fn read_header_line(h: Header, line: &Vec<char>) -> (r: Result<Header, CommitError>)
    ensures
        match header_step(h.fields(), line@) {
            Ok(f) => r matches Ok(h2) && h2.fields() == f,
            Err(e) => r matches Err(x) && x@ == e,
        },
{
    proof {
        reveal_strlit("tree");
        reveal_strlit("parent");
        reveal_strlit("author");
        assert("tree"@ =~= tree_word());
        assert("parent"@ =~= parent_word());
        assert("author"@ =~= author_word());
    }
    proof {
        crate::lines::lemma_find_char(line@, ' ', 0);
    }
    let found = find_char_exec(line, ' ', 0);
    if found.is_none() {
        return Err(CommitError::InvalidFormat);
    }
    let j = found.unwrap();
    let n = line.len();
    assert(j < n);
    let key = sub_chars(line, 0, j);
    let value = sub_chars(line, j + 1, n);
    let is_tree = chars_are(&key, "tree");
    let is_parent = chars_are(&key, "parent");
    let is_author = chars_are(&key, "author");
    assert(is_tree == (key@ == tree_word()));
    assert(is_parent == (key@ == parent_word()));
    assert(is_author == (key@ == author_word()));
    assert(value@ == line@.subrange(j + 1, line@.len() as int));
    if is_tree {
        Ok(Header { tree: Some(value), ..h })
    } else if is_parent {
        Ok(Header { parent: Some(value), ..h })
    } else if is_author {
        proof {
            crate::lines::lemma_rfind_char(value@, ' ');
        }
        let last = rfind_char_exec(&value, ' ');
        if last.is_none() {
            return Err(CommitError::AuthorWithoutTimestamp);
        }
        let l = last.unwrap();
        let stamp = sub_chars(&value, l + 1, value.len());
        match parse_i64_chars(stamp.as_slice()) {
            None => Err(CommitError::InvalidTimestamp),
            Some(t) => {
                if timestamp_accepted(t) {
                    let name = sub_chars(&value, 0, l);
                    Ok(Header { author: Some(name), timestamp: Some(t), ..h })
                } else {
                    Err(CommitError::TimestampOutOfRange)
                }
            },
        }
    } else {
        let k = string_from_chars(key.as_slice());
        Err(CommitError::UnknownField(k))
    }
}

impl Commit {
    /// A commit of the tree `tree_hash` on `parent_hash`, made at `timestamp`
    /// (seconds since the epoch; the caller reads the clock).
    pub fn new(
        tree_hash: String,
        parent_hash: Option<String>,
        author: String,
        message: String,
        timestamp: i64,
    ) -> (c: Self)
        ensures
            c.tree == tree_hash,
            c.parent == parent_hash,
            c.author == author,
            c.message == message,
            c.timestamp == timestamp,
    {
        Commit { tree: tree_hash, parent: parent_hash, author, timestamp, message }
    }

    /// Reads commit text, reporting each way it can be wrong.
    fn read_text(content: &str) -> (r: Result<Commit, CommitError>)
        ensures
            commit_result(r) == commit_parse(content@),
    {
        let cs = str_chars(content);
        let ls = split_lines(&cs);
        let ghost sl = text_lines(content@);
        let n = ls.len();
        let mut h = Header { tree: None, parent: None, author: None, timestamp: None };
        let mut i: usize = 0;
        let mut start: usize = n;
        let mut in_header = true;
        while in_header && i < n
            invariant
                n == ls@.len(),
                n == sl.len(),
                sl == text_lines(content@),
                forall|t: int| 0 <= t < n ==> #[trigger] ls@[t]@ == sl[t],
                i <= n,
                in_header ==> run_header(sl, 0, no_fields()) == run_header(sl, i as int, h.fields()),
                in_header ==> start == n,
                !in_header ==> run_header(sl, 0, no_fields()) == (
                    Ok::<HeaderFields, CommitFault>(h.fields()),
                    start as int,
                ) && start <= n,
            decreases n - i + if in_header { 1int } else { 0int },
        {
            if ls[i].len() == 0 {
                assert(sl[i as int].len() == 0);
                start = i + 1;
                in_header = false;
            } else {
                assert(ls@[i as int]@ == sl[i as int]);
                match read_header_line(h, &ls[i]) {
                    Err(e) => return Err(e),
                    Ok(h2) => {
                        h = h2;
                    },
                }
                i = i + 1;
            }
        }
        proof {
            if in_header {
                assert(run_header(sl, i as int, h.fields()) == (
                    Ok::<HeaderFields, CommitFault>(h.fields()),
                    n as int,
                ));
            }
        }
        let msg = join_lines_from(&ls, start);
        proof {
            let want = Seq::new((ls@.len() - start) as nat, |t: int| ls@[start + t]@);
            assert(want =~= sl.subrange(start as int, n as int));
        }
        let tree = match h.tree {
            None => return Err(CommitError::MissingTree),
            Some(t) => t,
        };
        let author = match h.author {
            None => return Err(CommitError::MissingAuthor),
            Some(a) => a,
        };
        let timestamp = match h.timestamp {
            None => return Err(CommitError::MissingTimestamp),
            Some(t) => t,
        };
        let parent = match h.parent {
            None => None,
            Some(p) => Some(string_from_chars(p.as_slice())),
        };
        Ok(
            Commit {
                tree: string_from_chars(tree.as_slice()),
                parent,
                author: string_from_chars(author.as_slice()),
                timestamp,
                message: string_from_chars(msg.as_slice()),
            },
        )
    }

    /// Reads a commit from its text: header lines (`tree`, `parent`, `author`)
    /// up to the first empty line, then the message. The text must not be one
    /// on which reading aborts (`aborts`).
    pub fn parse(content: &str) -> (r: Result<Commit, CommitError>)
        requires
            !(commit_parse(content@) matches Err(f) && aborts(f)),
        ensures
            commit_result(r) == commit_parse(content@),
    {
        Self::read_text(content)
    }

    /// Reads a commit from its text as `parse` does; where reading would
    /// abort, gives the fault as an error instead.
    pub fn parse_checked(content: &str) -> (r: Result<Commit, CommitError>)
        ensures
            commit_result(r) == commit_parse(content@),
    {
        match Self::read_text(content) {
            Err(CommitError::AuthorWithoutTimestamp) => Err(CommitError::AuthorWithoutTimestamp),
            Err(CommitError::TimestampOutOfRange) => Err(CommitError::TimestampOutOfRange),
            _ => Self::parse(content),
        }
    }

    /// The commit's text.
    pub fn text(&self) -> (s: String)
        ensures
            s@ == commit_text(self@),
    {
        let mut s = String::new();
        push_str(&mut s, "tree ");
        push_str(&mut s, self.tree.as_str());
        push_str(&mut s, "\n");
        match &self.parent {
            Some(p) => {
                push_str(&mut s, "parent ");
                push_str(&mut s, p.as_str());
                push_str(&mut s, "\n");
            },
            None => {},
        }
        push_str(&mut s, "author ");
        push_str(&mut s, self.author.as_str());
        push_str(&mut s, " ");
        let stamp = i64_to_string(self.timestamp);
        push_str(&mut s, stamp.as_str());
        push_str(&mut s, "\n");
        push_str(&mut s, "\n");
        push_str(&mut s, self.message.as_str());
        push_str(&mut s, "\n");
        proof {
            reveal_strlit("tree ");
            reveal_strlit("parent ");
            reveal_strlit("author ");
            reveal_strlit(" ");
            reveal_strlit("\n");
            assert(s@ =~= commit_text(self@));
        }
        s
    }
}

impl VoxObject for Commit {
    open spec fn kind(&self) -> Seq<char> {
        OBJ_TYPE_COMMIT@
    }

    open spec fn encoding(&self) -> Option<Seq<u8>> {
        Some(encode_utf8(commit_text(self@)))
    }

    /// "commit"
    fn object_type(&self) -> (t: &str) {
        OBJ_TYPE_COMMIT
    }

    /// The commit's text, in UTF-8.
    fn serialize(&self) -> (r: Result<Vec<u8>, ObjectError>) {
        let s = self.text();
        Ok(str_bytes(s.as_str()))
    }
}

/// Whether `s` fits on one line and comes back from its line unchanged: no
/// line feed, and no carriage return at its end.
pub open spec fn plain_line(s: Seq<char>) -> bool {
    single_line(s) && (s.len() > 0 ==> s.last() != '\r')
}

/// A commit's `tree` line.
pub open spec fn tree_line(c: CommitModel) -> Seq<char> {
    tree_word() + seq![' '] + c.tree
}

/// A `parent` line without its line feed.
pub open spec fn parent_text(p: Seq<char>) -> Seq<char> {
    parent_word() + seq![' '] + p
}

/// A commit's `author` line.
pub open spec fn author_line(c: CommitModel) -> Seq<char> {
    author_word() + seq![' '] + c.author + seq![' '] + decimal(c.timestamp as int)
}

/// The header lines of a commit's text, with the empty line after them.
pub open spec fn header_lines(c: CommitModel) -> Seq<Seq<char>> {
    match c.parent {
        Some(p) => seq![tree_line(c), parent_text(p), author_line(c), Seq::empty()],
        None => seq![tree_line(c), author_line(c), Seq::empty()],
    }
}

/// The line `l` that lies between `x` and `y` is the next line after `x`.
proof fn lemma_line_in(s: Seq<char>, x: Seq<char>, l: Seq<char>, y: Seq<char>)
    requires
        s == x + l + seq!['\n'] + y,
        single_line(l),
    ensures
        lines_from(s, x.len() as int) == seq![strip_cr(l)] + lines_from(s, x.len() + l.len() + 1int),
{
    assert(s.subrange(x.len() as int, x.len() + l.len() as int) =~= l);
    assert(s[x.len() + l.len() as int] == '\n');
    lemma_line_at(s, x.len() as int, l);
}

/// Whether the tree, parent and author fit on their lines.
pub open spec fn header_plain(c: CommitModel) -> bool {
    &&& plain_line(c.tree)
    &&& c.parent matches Some(p) ==> plain_line(p)
    &&& single_line(c.author)
}

/// The lines of a commit's text: its header lines, the empty line, then the
/// lines of the message, which join back into the message.
#[verifier::spinoff_prover]
#[verifier::rlimit(60)]
proof fn lemma_commit_lines(c: CommitModel)
    requires
        header_plain(c),
        keeps_line_ends(c.message),
    ensures
        text_lines(commit_text(c)) == header_lines(c) + lines_from(
            commit_text(c),
            commit_text(c).len() - c.message.len() - 1,
        ),
        join_lines(lines_from(commit_text(c), commit_text(c).len() - c.message.len() - 1))
            == c.message,
{
    let s = commit_text(c);
    let t = tree_line(c);
    let pl = parent_line(c.parent);
    let a = author_line(c);
    let m = c.message;
    let nl = seq!['\n'];
    lemma_decimal_one_word(c.timestamp as int);
    assert(s =~= t + nl + pl + a + nl + nl + m + nl);
    let qm = s.len() - m.len() - 1;
    // The tree line.
    assert(single_line(t)) by {
        assert forall|i: int| 0 <= i < t.len() implies t[i] != '\n' by {
            if i >= 5 {
                assert(t[i] == c.tree[i - 5]);
            }
        }
    }
    assert(s =~= Seq::<char>::empty() + t + nl + (pl + a + nl + nl + m + nl));
    lemma_line_in(s, Seq::<char>::empty(), t, pl + a + nl + nl + m + nl);
    assert(strip_cr(t) == t) by {
        if c.tree.len() > 0 {
            assert(t.last() == c.tree.last());
        }
    }
    // The parent line.
    if c.parent is Some {
        let p = c.parent.unwrap();
        let lp = parent_text(p);
        assert(single_line(lp)) by {
            assert forall|i: int| 0 <= i < lp.len() implies lp[i] != '\n' by {
                if i >= 7 {
                    assert(lp[i] == p[i - 7]);
                }
            }
        }
        assert(s =~= (t + nl) + lp + nl + (a + nl + nl + m + nl));
        lemma_line_in(s, t + nl, lp, a + nl + nl + m + nl);
        assert(strip_cr(lp) == lp) by {
            if p.len() > 0 {
                assert(lp.last() == p.last());
            }
        }
    }
    // The author line.
    assert(single_line(a)) by {
        let d = decimal(c.timestamp as int);
        assert forall|i: int| 0 <= i < a.len() implies a[i] != '\n' by {
            if 7 <= i < 7 + c.author.len() {
                assert(a[i] == c.author[i - 7]);
            } else if i >= 8 + c.author.len() {
                assert(a[i] == d[i - 8 - c.author.len()]);
            }
        }
    }
    assert(s =~= (t + nl + pl) + a + nl + (nl + m + nl));
    lemma_line_in(s, t + nl + pl, a, nl + m + nl);
    assert(strip_cr(a) == a) by {
        assert(a.last() == decimal(c.timestamp as int).last());
    }
    // The empty line.
    assert(s =~= (t + nl + pl + a + nl) + Seq::<char>::empty() + nl + (m + nl));
    lemma_line_in(s, t + nl + pl + a + nl, Seq::<char>::empty(), m + nl);
    assert(strip_cr(Seq::<char>::empty()) =~= Seq::<char>::empty());
    // The message.
    assert(s.subrange(qm, s.len() - 1) =~= m);
    lemma_join_lines_from(s, qm);
    assert(text_lines(s) =~= header_lines(c) + lines_from(s, qm));
}

/// Reading the header lines of a commit's text gives its fields, and finds its
/// message after them.
proof fn lemma_commit_header(c: CommitModel, ls: Seq<Seq<char>>)
    requires
        timestamp_in_range(c.timestamp),
        header_lines(c).len() <= ls.len(),
        ls.subrange(0, header_lines(c).len() as int) == header_lines(c),
    ensures
        run_header(ls, 0, no_fields()) == (
            Ok::<HeaderFields, CommitFault>(
                HeaderFields {
                    tree: Some(c.tree),
                    parent: c.parent,
                    author: Some(c.author),
                    timestamp: Some(c.timestamp),
                },
            ),
            header_lines(c).len() as int,
        ),
{
    let hl = header_lines(c);
    assert forall|i: int| 0 <= i < hl.len() implies ls[i] == hl[i] by {
        assert(ls.subrange(0, hl.len() as int)[i] == ls[i]);
    }
    let t = tree_line(c);
    let a = author_line(c);
    let d = decimal(c.timestamp as int);
    lemma_parse_decimal(c.timestamp);
    lemma_decimal_one_word(c.timestamp as int);
    lemma_find_char_at(t, ' ', 0, 4);
    assert(t.subrange(0, 4) =~= tree_word());
    assert(t.subrange(5, t.len() as int) =~= c.tree);
    let f1 = HeaderFields { tree: Some(c.tree), ..no_fields() };
    assert(header_step(no_fields(), t) == Ok::<HeaderFields, CommitFault>(f1));
    let f2 = HeaderFields { parent: c.parent, ..f1 };
    if c.parent is Some {
        let p = c.parent.unwrap();
        let lp = parent_text(p);
        lemma_find_char_at(lp, ' ', 0, 6);
        assert(lp.subrange(0, 6) =~= parent_word());
        assert(lp.subrange(7, lp.len() as int) =~= p);
        assert(parent_word() != tree_word());
        assert(header_step(f1, lp) == Ok::<HeaderFields, CommitFault>(f2));
    }
    let av = c.author + seq![' '] + d;
    lemma_find_char_at(a, ' ', 0, 6);
    assert(a.subrange(0, 6) =~= author_word());
    assert(a.subrange(7, a.len() as int) =~= av);
    assert(author_word() != tree_word());
    assert(author_word() != parent_word()) by {
        assert(author_word()[0] != parent_word()[0]);
    }
    assert forall|i: int| c.author.len() < i < av.len() implies av[i] != ' ' by {
        assert(av[i] == d[i - c.author.len() - 1]);
    }
    lemma_rfind_char_at(av, ' ', c.author.len() as int);
    assert(av.subrange(0, c.author.len() as int) =~= c.author);
    assert(av.subrange(c.author.len() + 1int, av.len() as int) =~= d);
    let f3 = HeaderFields { author: Some(c.author), timestamp: Some(c.timestamp), ..f2 };
    assert(header_step(f2, a) == Ok::<HeaderFields, CommitFault>(f3));
    if c.parent is Some {
        assert(run_header(ls, 3, f3) == (Ok::<HeaderFields, CommitFault>(f3), 4int));
        assert(run_header(ls, 2, f2) == run_header(ls, 3, f3));
        assert(run_header(ls, 1, f1) == run_header(ls, 2, f2));
    } else {
        assert(f2 == f1);
        assert(run_header(ls, 2, f3) == (Ok::<HeaderFields, CommitFault>(f3), 3int));
        assert(run_header(ls, 1, f1) == run_header(ls, 2, f3));
    }
    assert(run_header(ls, 0, no_fields()) == run_header(ls, 1, f1));
}

/// Reading back a commit's text gives the commit, for a commit whose tree,
/// parent and author each fit on a line, whose message keeps its line ends,
/// and whose timestamp chrono can hold.
pub proof fn lemma_commit_roundtrip(c: CommitModel)
    requires
        header_plain(c),
        keeps_line_ends(c.message),
        timestamp_in_range(c.timestamp),
    ensures
        commit_parse(commit_text(c)) == Ok::<CommitModel, CommitFault>(c),
{
    let s = commit_text(c);
    lemma_commit_lines(c);
    let ls = text_lines(s);
    let hl = header_lines(c);
    let rest = lines_from(s, s.len() - c.message.len() - 1);
    assert(ls.subrange(0, hl.len() as int) =~= hl);
    lemma_commit_header(c, ls);
    assert(ls.subrange(hl.len() as int, ls.len() as int) =~= rest);
}

impl Storable for Commit {

}

/// Why a stored commit could not be read back.
#[derive(Debug, PartialEq, Eq)]
pub enum CommitLoadError {
    /// The data is not a zlib stream.
    Decompress,
    /// The stored form has no zero byte ending its header.
    NoHeaderEnd,
    /// The header is not UTF-8.
    HeaderNotUtf8,
    /// The header does not start with `commit `.
    NotACommit,
    /// The text is not UTF-8.
    ContentNotUtf8,
    /// The text is not a commit.
    Parse(CommitError),
}

/// The value of a stored-commit error.
pub enum LoadFault {
    Decompress,
    NoHeaderEnd,
    HeaderNotUtf8,
    NotACommit,
    ContentNotUtf8,
    Parse(CommitFault),
}

impl View for CommitLoadError {
    type V = LoadFault;

    open spec fn view(&self) -> LoadFault {
        match self {
            CommitLoadError::Decompress => LoadFault::Decompress,
            CommitLoadError::NoHeaderEnd => LoadFault::NoHeaderEnd,
            CommitLoadError::HeaderNotUtf8 => LoadFault::HeaderNotUtf8,
            CommitLoadError::NotACommit => LoadFault::NotACommit,
            CommitLoadError::ContentNotUtf8 => LoadFault::ContentNotUtf8,
            CommitLoadError::Parse(e) => LoadFault::Parse(e@),
        }
    }
}

/// Reading a stored commit: decompress, split at the first zero byte, check
/// the header names a commit, and read the text after it.
pub open spec fn commit_load(data: Seq<u8>) -> Result<CommitModel, LoadFault> {
    match zlib_contents(data) {
        None => Err(LoadFault::Decompress),
        Some(d) => match first_zero(d, 0) {
            None => Err(LoadFault::NoHeaderEnd),
            Some(z) => {
                let h = d.subrange(0, z);
                let c = d.subrange(z + 1, d.len() as int);
                if !valid_utf8(h) {
                    Err(LoadFault::HeaderNotUtf8)
                } else if !has_prefix(decode_utf8(h), "commit "@) {
                    Err(LoadFault::NotACommit)
                } else if !valid_utf8(c) {
                    Err(LoadFault::ContentNotUtf8)
                } else {
                    match commit_parse(decode_utf8(c)) {
                        Ok(m) => Ok(m),
                        Err(f) => Err(LoadFault::Parse(f)),
                    }
                }
            },
        },
    }
}

impl Loadable for Commit {
    type LoadError = CommitLoadError;

    /// The commit stored as the compressed `data`. Where reading its text
    /// would abort (see `parse`), the fault is the error.
    fn from_stored(data: &[u8]) -> (r: Result<Commit, CommitLoadError>)
        ensures
            match r {
                Ok(c) => commit_load(data@) == Ok::<CommitModel, LoadFault>(c@),
                Err(e) => commit_load(data@) == Err::<CommitModel, LoadFault>(e@),
            },
    {
        let unpacked = zlib_decompress(data);
        if unpacked.is_none() {
            return Err(CommitLoadError::Decompress);
        }
        let d = unpacked.unwrap();
        let found = find_zero(d.as_slice(), 0);
        if found.is_none() {
            return Err(CommitLoadError::NoHeaderEnd);
        }
        let z = found.unwrap();
        let n = d.len();
        let header = match string_from_utf8(copy_range(d.as_slice(), 0, z)) {
            None => return Err(CommitLoadError::HeaderNotUtf8),
            Some(h) => h,
        };
        let hc = str_chars(header.as_str());
        if crate::text::strip_prefix_chars(&hc, "commit ").is_none() {
            return Err(CommitLoadError::NotACommit);
        }
        let content = match string_from_utf8(copy_range(d.as_slice(), z + 1, n)) {
            None => return Err(CommitLoadError::ContentNotUtf8),
            Some(c) => c,
        };
        match Self::parse_checked(content.as_str()) {
            Ok(c) => Ok(c),
            Err(e) => Err(CommitLoadError::Parse(e)),
        }
    }
}

/// Reading back what saving a commit writes gives the commit, for a commit
/// `lemma_commit_roundtrip` covers.
pub proof fn lemma_commit_store_roundtrip(c: Commit, stored: Seq<u8>)
    requires
        zlib_contents(stored) == Some(framed(c.kind(), c.encoding().unwrap())),
        header_plain(c@),
        keeps_line_ends(c@.message),
        timestamp_in_range(c@.timestamp),
    ensures
        commit_load(stored) == Ok::<CommitModel, LoadFault>(c@),
{
    reveal_strlit("commit");
    reveal_strlit("commit ");
    let enc = encode_utf8(commit_text(c@));
    let hs = c.kind() + seq![' '] + decimal(enc.len() as int);
    crate::storage::utils::lemma_framed_content(c.kind(), enc);
    let f = framed(c.kind(), enc);
    let h = encode_utf8(hs);
    assert(f.subrange(0, h.len() as int) =~= h);
    encode_utf8_valid_utf8(hs);
    encode_utf8_decode_utf8(hs);
    assert(hs.subrange(0, 7) =~= "commit "@);
    encode_utf8_valid_utf8(commit_text(c@));
    encode_utf8_decode_utf8(commit_text(c@));
    lemma_commit_roundtrip(c@);
}

} // verus!
