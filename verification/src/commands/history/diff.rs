//! Line diffs between two texts, and the report the `diff` command prints for
//! a set of changes.

use vstd::prelude::*;
use crate::storage::objects::change::{opt_view, ChangeSet, ChangeType, DiffSummary};
use crate::text::push_str;
use similar::ChangeTag;

verus! {

/// What a line of a diff does: stays, goes, or comes.
#[derive(Debug, Clone, Copy, PartialEq, Eq, Structural)]
pub enum DiffTag {
    Equal,
    Delete,
    Insert,
}

/// A line of a diff: what it does, and its text as `similar` writes it (ended
/// by a line feed).
#[derive(Debug)]
pub struct LineChange {
    pub tag: DiffTag,
    pub text: String,
}

/// The line changes as values.
pub open spec fn change_views(cs: Seq<LineChange>) -> Seq<(DiffTag, Seq<char>)> {
    Seq::new(cs.len(), |i: int| (cs[i].tag, cs[i].text@))
}

/// The line changes `similar` finds between `old` and `new` with the Myers
/// algorithm, in order.
pub uninterp spec fn myers_lines(old: Seq<char>, new: Seq<char>) -> Seq<(DiffTag, Seq<char>)>;

/// `similar::TextDiff` configured with `Algorithm::Myers`, `diff_lines(old,
/// new)`, then `iter_all_changes`: each change's tag and its text as its
/// `Display` writes it. What they are is named (`myers_lines`), not stated.
#[verifier::external_body]
fn myers_line_changes(old: &str, new: &str) -> (r: Vec<LineChange>)
    ensures
        change_views(r@) == myers_lines(old@, new@),
{
    let diff = similar::TextDiff::configure().algorithm(similar::Algorithm::Myers).diff_lines(old, new);
    let mut out = Vec::new();
    for change in diff.iter_all_changes() {
        let tag = match change.tag() {
            ChangeTag::Equal => DiffTag::Equal,
            ChangeTag::Delete => DiffTag::Delete,
            ChangeTag::Insert => DiffTag::Insert,
        };
        out.push(LineChange { tag, text: change.to_string() });
    }
    out
}

/// The mark a line of a unified diff starts with.
pub open spec fn tag_mark(t: DiffTag) -> Seq<char> {
    match t {
        DiffTag::Equal => " "@,
        DiffTag::Delete => "-"@,
        DiffTag::Insert => "+"@,
    }
}

/// The unified diff text of the first `n` line changes: each line's mark,
/// its text and a line feed.
pub open spec fn unified_text(cs: Seq<(DiffTag, Seq<char>)>, n: int) -> Seq<char>
    decreases n,
{
    if n <= 0 {
        Seq::empty()
    } else {
        unified_text(cs, n - 1) + tag_mark(cs[n - 1].0) + cs[n - 1].1 + "\n"@
    }
}

/// How many of the first `n` line changes have the tag `t`.
pub open spec fn count_tag(cs: Seq<(DiffTag, Seq<char>)>, t: DiffTag, n: int) -> nat
    decreases n,
{
    if n <= 0 {
        0
    } else {
        count_tag(cs, t, n - 1) + if cs[n - 1].0 == t {
            1nat
        } else {
            0nat
        }
    }
}

proof fn lemma_count_bound(cs: Seq<(DiffTag, Seq<char>)>, t: DiffTag, n: int)
    requires
        n >= 0,
    ensures
        count_tag(cs, t, n) <= n,
    decreases n,
{
    if n > 0 {
        lemma_count_bound(cs, t, n - 1);
    }
}

/// Every line of a diff counts under exactly one kind: the inserted, the
/// deleted and the unchanged lines together are all of them. In the unified
/// text each line starts with `+` where it is inserted, `-` where it is
/// deleted and a space where it stays, then its text and a line feed.
pub proof fn lemma_line_counts(cs: Seq<(DiffTag, Seq<char>)>, n: int)
    requires
        0 <= n <= cs.len(),
    ensures
        count_tag(cs, DiffTag::Insert, n) + count_tag(cs, DiffTag::Delete, n) + count_tag(
            cs,
            DiffTag::Equal,
            n,
        ) == n,
        n > 0 ==> unified_text(cs, n) == unified_text(cs, n - 1) + (match cs[n - 1].0 {
            DiffTag::Insert => seq!['+'],
            DiffTag::Delete => seq!['-'],
            DiffTag::Equal => seq![' '],
        }) + cs[n - 1].1 + seq!['\n'],
    decreases n,
{
    reveal_strlit("+");
    reveal_strlit("-");
    reveal_strlit(" ");
    reveal_strlit("\n");
    if n > 0 {
        lemma_line_counts(cs, n - 1);
    }
}

/// The unified diff text of `changes`, with the number of inserted and of
/// deleted lines.
pub fn render_line_changes(changes: &[LineChange]) -> (r: (String, usize, usize))
    ensures
        r.0@ == unified_text(change_views(changes@), changes@.len() as int),
        r.1 == count_tag(change_views(changes@), DiffTag::Insert, changes@.len() as int),
        r.2 == count_tag(change_views(changes@), DiffTag::Delete, changes@.len() as int),
{
    let ghost cs = change_views(changes@);
    let mut text = String::new();
    let mut insertions: usize = 0;
    let mut deletions: usize = 0;
    let mut i: usize = 0;
    while i < changes.len()
        invariant
            i <= changes@.len(),
            cs == change_views(changes@),
            text@ == unified_text(cs, i as int),
            insertions == count_tag(cs, DiffTag::Insert, i as int),
            deletions == count_tag(cs, DiffTag::Delete, i as int),
        decreases changes@.len() - i,
    {
        proof {
            lemma_count_bound(cs, DiffTag::Insert, i as int);
            lemma_count_bound(cs, DiffTag::Delete, i as int);
        }
        let c = &changes[i];
        match c.tag {
            DiffTag::Delete => {
                push_str(&mut text, "-");
                deletions = deletions + 1;
            },
            DiffTag::Insert => {
                push_str(&mut text, "+");
                insertions = insertions + 1;
            },
            DiffTag::Equal => {
                push_str(&mut text, " ");
            },
        }
        push_str(&mut text, c.text.as_str());
        push_str(&mut text, "\n");
        assert(cs[i as int] == (c.tag, c.text@));
        i = i + 1;
    }
    (text, insertions, deletions)
}

/// The unified line diff of `old` and `new` (Myers), with the number of
/// inserted and of deleted lines.
pub fn text_diff(old: &str, new: &str) -> (r: (String, usize, usize))
    ensures
        r.0@ == unified_text(myers_lines(old@, new@), myers_lines(old@, new@).len() as int),
        r.1 == count_tag(myers_lines(old@, new@), DiffTag::Insert, myers_lines(old@, new@).len() as int),
        r.2 == count_tag(myers_lines(old@, new@), DiffTag::Delete, myers_lines(old@, new@).len() as int),
{
    let changes = myers_line_changes(old, new);
    render_line_changes(changes.as_slice())
}

/// A line of the `diff` command's report; the command colours the marks and
/// references as it prints them.
#[derive(Debug, PartialEq, Eq)]
pub enum ReportLine {
    /// `diff between <from> and <to>`
    Header(String, String),
    /// `No changes`
    NoChanges,
    /// `Changes: `
    ChangesTitle,
    /// `A <path>`
    Added(String),
    /// `D <path>`
    Deleted(String),
    /// `M <path>`
    Modified(String),
    /// `R <old path> -> <new path>`
    Renamed(String, String),
    /// `<insertions> lines added, <removals> lines deleted`, indented by two
    /// spaces where the flag is set.
    Counts(bool, usize, usize),
    /// A diff text, as it is.
    Text(String),
}

/// The value of a report line.
pub enum ReportModel {
    Header(Seq<char>, Seq<char>),
    NoChanges,
    ChangesTitle,
    Added(Seq<char>),
    Deleted(Seq<char>),
    Modified(Seq<char>),
    Renamed(Seq<char>, Seq<char>),
    Counts(bool, usize, usize),
    Text(Seq<char>),
}

impl View for ReportLine {
    type V = ReportModel;

    open spec fn view(&self) -> ReportModel {
        match self {
            ReportLine::Header(a, b) => ReportModel::Header(a@, b@),
            ReportLine::NoChanges => ReportModel::NoChanges,
            ReportLine::ChangesTitle => ReportModel::ChangesTitle,
            ReportLine::Added(p) => ReportModel::Added(p@),
            ReportLine::Deleted(p) => ReportModel::Deleted(p@),
            ReportLine::Modified(p) => ReportModel::Modified(p@),
            ReportLine::Renamed(a, b) => ReportModel::Renamed(a@, b@),
            ReportLine::Counts(i, a, b) => ReportModel::Counts(*i, *a, *b),
            ReportLine::Text(t) => ReportModel::Text(t@),
        }
    }
}

/// The report lines as values.
pub open spec fn report_views(ls: Seq<ReportLine>) -> Seq<ReportModel> {
    Seq::new(ls.len(), |i: int| ls[i]@)
}

/// The lines of a summary: the counts, indented where `indent` is set, then
/// the diff text where `with_text` is set and there is one.
pub open spec fn summary_lines(s: DiffSummary, indent: bool, with_text: bool) -> Seq<ReportModel> {
    seq![ReportModel::Counts(indent, s@.insertions, s@.removals)] + if with_text && s@.text_diff is Some {
        seq![ReportModel::Text(s@.text_diff.unwrap())]
    } else {
        Seq::empty()
    }
}

/// The report lines of one change.
pub open spec fn change_lines(c: ChangeType) -> Seq<ReportModel> {
    match c {
        ChangeType::ADDED { path, .. } => seq![ReportModel::Added(path@)],
        ChangeType::DELETED { path, .. } => seq![ReportModel::Deleted(path@)],
        ChangeType::MODIFIED { path, summary, .. } => seq![ReportModel::Modified(path@)] + match summary {
            Some(s) => summary_lines(s, true, true),
            None => Seq::empty(),
        },
        ChangeType::RENAMED { old_path, new_path, summary, .. } => seq![
            ReportModel::Renamed(old_path@, new_path@),
        ] + match summary {
            Some(s) => summary_lines(s, false, false),
            None => Seq::empty(),
        },
    }
}

/// The report lines of the first `n` changes.
pub open spec fn changes_lines(cs: Seq<(String, ChangeType)>, n: int) -> Seq<ReportModel>
    decreases n,
{
    if n <= 0 {
        Seq::empty()
    } else {
        changes_lines(cs, n - 1) + change_lines(cs[n - 1].1)
    }
}

/// The `diff` command's report of `changes`: the states compared (`initial`
/// and `working` where they are not named), then each change, in path order,
/// or that there are none.
pub open spec fn report_of(changes: ChangeSet) -> Seq<ReportModel> {
    let header = ReportModel::Header(
        match changes.from_view() {
            Some(f) => f,
            None => "initial"@,
        },
        match changes.to_view() {
            Some(t) => t,
            None => "working"@,
        },
    );
    if changes.change_seq().len() == 0 {
        seq![header, ReportModel::NoChanges]
    } else {
        seq![header, ReportModel::ChangesTitle] + changes_lines(
            changes.change_seq(),
            changes.change_seq().len() as int,
        )
    }
}

/// Each line of a change's report lines is among the report lines of any
/// longer run of changes that holds it.
proof fn lemma_changes_lines_hold(cs: Seq<(String, ChangeType)>, n: int, k: int, j: int)
    requires
        0 <= k < n <= cs.len(),
        0 <= j < change_lines(cs[k].1).len(),
    ensures
        changes_lines(cs, n).contains(change_lines(cs[k].1)[j]),
    decreases n,
{
    let prev = changes_lines(cs, n - 1);
    let all = changes_lines(cs, n);
    assert(all == prev + change_lines(cs[n - 1].1));
    if k == n - 1 {
        assert(all[prev.len() + j] == change_lines(cs[k].1)[j]);
    } else {
        lemma_changes_lines_hold(cs, n - 1, k, j);
        let t = choose|t: int| 0 <= t < prev.len() && prev[t] == change_lines(cs[k].1)[j];
        assert(all[t] == prev[t]);
    }
}

/// What the `diff` report says of a set of changes: its first line names the
/// two states compared (`initial` and `working` where they are not named);
/// with no changes it says so and nothing more; otherwise, after the title,
/// every change is reported by its kind and path(s): `A` for an added file,
/// `D` for a deleted one, `M` for a modified one with its line counts
/// (indented) and its diff text where it has them, `R` for a renamed one with
/// its line counts (not indented) where it has them.
pub proof fn lemma_report_mentions(changes: ChangeSet, k: int)
    ensures
        ({
            let r = report_of(changes);
            let cs = changes.change_seq();
            &&& r[0] == ReportModel::Header(
                match changes.from_view() {
                    Some(f) => f,
                    None => "initial"@,
                },
                match changes.to_view() {
                    Some(t) => t,
                    None => "working"@,
                },
            )
            &&& cs.len() == 0 ==> r.len() == 2 && r[1] == ReportModel::NoChanges
            &&& cs.len() > 0 ==> r[1] == ReportModel::ChangesTitle && !r.contains(ReportModel::NoChanges)
            &&& 0 <= k < cs.len() ==> match cs[k].1 {
                ChangeType::ADDED { path, .. } => r.contains(ReportModel::Added(path@)),
                ChangeType::DELETED { path, .. } => r.contains(ReportModel::Deleted(path@)),
                ChangeType::MODIFIED { path, summary, .. } => r.contains(ReportModel::Modified(path@))
                    && (summary matches Some(s) ==> r.contains(
                    ReportModel::Counts(true, s@.insertions, s@.removals),
                ) && (s@.text_diff matches Some(t) ==> r.contains(ReportModel::Text(t)))),
                ChangeType::RENAMED { old_path, new_path, summary, .. } => r.contains(
                    ReportModel::Renamed(old_path@, new_path@),
                ) && (summary matches Some(s) ==> r.contains(
                    ReportModel::Counts(false, s@.insertions, s@.removals),
                )),
            }
        }),
{
    let r = report_of(changes);
    let cs = changes.change_seq();
    let n = cs.len() as int;
    if n > 0 {
        let head = seq![r[0], ReportModel::ChangesTitle];
        let body = changes_lines(cs, n);
        assert(r == head + body);
        assert forall|j: int| 0 <= j < change_lines(cs[k].1).len() && 0 <= k < n implies r.contains(
            change_lines(cs[k].1)[j],
        ) by {
            lemma_changes_lines_hold(cs, n, k, j);
            let t = choose|t: int| 0 <= t < body.len() && body[t] == change_lines(cs[k].1)[j];
            assert(r[2 + t] == body[t]);
        }
        assert(!r.contains(ReportModel::NoChanges)) by {
            if r.contains(ReportModel::NoChanges) {
                let t = choose|t: int| 0 <= t < r.len() && r[t] == ReportModel::NoChanges;
                if t >= 2 {
                    lemma_no_changes_line(cs, n, t - 2);
                }
            }
        }
        if 0 <= k < n {
            match cs[k].1 {
                ChangeType::MODIFIED { path, summary, .. } => {
                    let cl = change_lines(cs[k].1);
                    assert(cl[0] == ReportModel::Modified(path@));
                    if let Some(s) = summary {
                        assert(cl[1] == ReportModel::Counts(true, s@.insertions, s@.removals));
                        if let Some(t) = s@.text_diff {
                            assert(cl[2] == ReportModel::Text(t));
                        }
                    }
                },
                ChangeType::RENAMED { old_path, new_path, summary, .. } => {
                    let cl = change_lines(cs[k].1);
                    assert(cl[0] == ReportModel::Renamed(old_path@, new_path@));
                    if let Some(s) = summary {
                        assert(cl[1] == ReportModel::Counts(false, s@.insertions, s@.removals));
                    }
                },
                ChangeType::ADDED { path, .. } => {
                    assert(change_lines(cs[k].1)[0] == ReportModel::Added(path@));
                },
                ChangeType::DELETED { path, .. } => {
                    assert(change_lines(cs[k].1)[0] == ReportModel::Deleted(path@));
                },
            }
        }
    }
}

/// No change's report lines say that there are no changes.
proof fn lemma_no_changes_line(cs: Seq<(String, ChangeType)>, n: int, t: int)
    requires
        0 <= n <= cs.len(),
        0 <= t < changes_lines(cs, n).len(),
    ensures
        changes_lines(cs, n)[t] != ReportModel::NoChanges,
    decreases n,
{
    let prev = changes_lines(cs, n - 1);
    let cl = change_lines(cs[n - 1].1);
    assert(changes_lines(cs, n) == prev + cl);
    if t < prev.len() {
        lemma_no_changes_line(cs, n - 1, t);
    } else {
        let j = t - prev.len();
        match cs[n - 1].1 {
            ChangeType::MODIFIED { summary, .. } => {
                if j > 0 {
                    let s = summary.unwrap();
                    assert(cl.subrange(1, cl.len() as int) == summary_lines(s, true, true));
                    assert(cl[j] == summary_lines(s, true, true)[j - 1]);
                }
            },
            ChangeType::RENAMED { summary, .. } => {
                if j > 0 {
                    let s = summary.unwrap();
                    assert(cl.subrange(1, cl.len() as int) == summary_lines(s, false, false));
                    assert(cl[j] == summary_lines(s, false, false)[j - 1]);
                }
            },
            _ => {},
        }
    }
}

/// Appends the lines of a summary.
fn push_summary(out: &mut Vec<ReportLine>, s: &DiffSummary, indent: bool, with_text: bool)
    ensures
        report_views(final(out)@) == report_views(old(out)@) + summary_lines(*s, indent, with_text),
{
    out.push(ReportLine::Counts(indent, s.insertions(), s.removals()));
    if with_text {
        match s.text_diff() {
            Some(t) => {
                out.push(ReportLine::Text(t.to_string()));
            },
            None => {},
        }
    }
    assert(report_views(final(out)@) =~= report_views(old(out)@) + summary_lines(
        *s,
        indent,
        with_text,
    ));
}

/// The report lines of one change.
fn push_change(out: &mut Vec<ReportLine>, c: &ChangeType)
    ensures
        report_views(final(out)@) == report_views(old(out)@) + change_lines(*c),
{
    let ghost before = report_views(out@);
    match c {
        ChangeType::ADDED { path, .. } => {
            out.push(ReportLine::Added(path.clone()));
        },
        ChangeType::DELETED { path, .. } => {
            out.push(ReportLine::Deleted(path.clone()));
        },
        ChangeType::MODIFIED { path, summary, .. } => {
            out.push(ReportLine::Modified(path.clone()));
            assert(report_views(out@) =~= before + seq![ReportModel::Modified(path@)]);
            match summary {
                Some(s) => push_summary(out, s, true, true),
                None => {},
            }
        },
        ChangeType::RENAMED { old_path, new_path, summary, .. } => {
            out.push(ReportLine::Renamed(old_path.clone(), new_path.clone()));
            assert(report_views(out@) =~= before + seq![
                ReportModel::Renamed(old_path@, new_path@),
            ]);
            match summary {
                Some(s) => push_summary(out, s, false, false),
                None => {},
            }
        },
    }
    assert(report_views(out@) =~= before + change_lines(*c));
}

/// The `diff` command's report of `changes`.
pub fn changes_report(changes: &ChangeSet) -> (r: Vec<ReportLine>)
    ensures
        report_views(r@) == report_of(*changes),
{
    let from = match changes.from() {
        Some(f) => f.to_string(),
        None => "initial".to_string(),
    };
    let to = match changes.to() {
        Some(t) => t.to_string(),
        None => "working".to_string(),
    };
    let mut out: Vec<ReportLine> = Vec::new();
    out.push(ReportLine::Header(from, to));
    let all = changes.get();
    if all.len() == 0 {
        out.push(ReportLine::NoChanges);
        assert(report_views(out@) =~= report_of(*changes));
        return out;
    }
    out.push(ReportLine::ChangesTitle);
    let ghost head = report_views(out@);
    let mut i: usize = 0;
    while i < all.len()
        invariant
            i <= all@.len(),
            all@ == changes.change_seq(),
            report_views(out@) == head + changes_lines(all@, i as int),
        decreases all@.len() - i,
    {
        push_change(&mut out, &all[i].1);
        assert(report_views(out@) =~= head + changes_lines(all@, i + 1));
        i = i + 1;
    }
    assert(report_views(out@) =~= report_of(*changes));
    out
}

} // verus!
