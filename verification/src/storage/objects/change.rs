//! Changes between two states of a repository: what happened to each path
//! (added, deleted, modified, renamed), with a summary of the line changes.

use vstd::prelude::*;
use crate::keyed::{entries_map, keys_sorted, string_views, KeyedMap};
use crate::paths::{normalize_path, path_key, path_starts_with, starts_with_path, trim_path, trimmed_path};

verus! {

/// The value of a diff summary.
pub struct SummaryModel {
    pub insertions: usize,
    pub removals: usize,
    pub text_diff: Option<Seq<char>>,
}

/// The characters of an optional string.
pub open spec fn opt_view(o: Option<String>) -> Option<Seq<char>> {
    match o {
        Some(s) => Some(s@),
        None => None,
    }
}

/// Summary of changes between two versions of a file.
#[derive(Debug)]
pub struct DiffSummary {
    /// Number of lines added
    insertions: usize,
    /// Number of lines removed
    removals: usize,
    /// Unified diff text showing changes
    text_diff: Option<String>,
}

impl View for DiffSummary {
    type V = SummaryModel;

    closed spec fn view(&self) -> SummaryModel {
        SummaryModel {
            insertions: self.insertions,
            removals: self.removals,
            text_diff: opt_view(self.text_diff),
        }
    }
}

impl Clone for DiffSummary {
    fn clone(&self) -> (r: Self)
        ensures
            r == *self,
    {
        let text_diff = match &self.text_diff {
            Some(t) => Some(t.clone()),
            None => None,
        };
        DiffSummary { insertions: self.insertions, removals: self.removals, text_diff }
    }
}

impl DiffSummary {
    /// A summary of `insertions` added and `removals` removed lines, with the
    /// diff text where there is one.
    pub fn new(insertions: usize, removals: usize, text_diff: Option<String>) -> (s: Self)
        ensures
            s@ == (SummaryModel { insertions, removals, text_diff: opt_view(text_diff) }),
    {
        DiffSummary { insertions, removals, text_diff }
    }

    pub fn insertions(&self) -> (n: usize)
        ensures
            n == self@.insertions,
    {
        self.insertions
    }

    pub fn removals(&self) -> (n: usize)
        ensures
            n == self@.removals,
    {
        self.removals
    }

    pub fn get_text_diff(&self) -> (r: Option<&String>)
        ensures
            r is Some <==> self@.text_diff is Some,
            r matches Some(t) ==> Some(t@) == self@.text_diff,
    {
        match &self.text_diff {
            Some(t) => Some(t),
            None => None,
        }
    }

    pub fn text_diff(&self) -> (r: Option<&str>)
        ensures
            r is Some <==> self@.text_diff is Some,
            r matches Some(t) ==> Some(t@) == self@.text_diff,
    {
        match &self.text_diff {
            Some(t) => Some(t.as_str()),
            None => None,
        }
    }

    pub fn set_insertions(&mut self, ins: usize)
        ensures
            final(self)@ == (SummaryModel { insertions: ins, ..old(self)@ }),
    {
        self.insertions = ins;
    }

    pub fn set_removals(&mut self, rm: usize)
        ensures
            final(self)@ == (SummaryModel { removals: rm, ..old(self)@ }),
    {
        self.removals = rm;
    }

    pub fn set_diff(&mut self, text_diff: Option<String>)
        ensures
            final(self)@ == (SummaryModel { text_diff: opt_view(text_diff), ..old(self)@ }),
    {
        self.text_diff = text_diff;
    }
}

/// A change to one path.
#[derive(Debug)]
pub enum ChangeType {
    /// A file was added
    ADDED {
        /// Path to the new file
        path: String,
        /// Hash of the new file's content
        new_hash: String,
    },
    /// A file was deleted
    DELETED {
        /// Path to the deleted file
        path: String,
        /// Hash of the deleted file's content
        old_hash: String,
    },
    /// A file was modified
    MODIFIED {
        /// Path to the modified file
        path: String,
        /// Hash of the file's previous content
        old_hash: String,
        /// Hash of the file's new content
        new_hash: String,
        /// Summary of changes between versions
        summary: Option<DiffSummary>,
    },
    /// A file was renamed
    RENAMED {
        /// The path of the file before the rename
        old_path: String,
        /// New path of the file
        new_path: String,
        /// Hash of the file's content before rename
        old_hash: String,
        /// Hash of the file's content after rename
        new_hash: String,
        /// Summary of changes if content was also modified
        summary: Option<DiffSummary>,
    },
}

/// A copy of an optional summary.
fn clone_summary(s: &Option<DiffSummary>) -> (r: Option<DiffSummary>)
    ensures
        r == *s,
{
    match s {
        Some(d) => Some(d.clone()),
        None => None,
    }
}

impl Clone for ChangeType {
    fn clone(&self) -> (r: Self)
        ensures
            r == *self,
    {
        match self {
            ChangeType::ADDED { path, new_hash } => ChangeType::ADDED {
                path: path.clone(),
                new_hash: new_hash.clone(),
            },
            ChangeType::DELETED { path, old_hash } => ChangeType::DELETED {
                path: path.clone(),
                old_hash: old_hash.clone(),
            },
            ChangeType::MODIFIED { path, old_hash, new_hash, summary } => ChangeType::MODIFIED {
                path: path.clone(),
                old_hash: old_hash.clone(),
                new_hash: new_hash.clone(),
                summary: clone_summary(summary),
            },
            ChangeType::RENAMED { old_path, new_path, old_hash, new_hash, summary } =>
                ChangeType::RENAMED {
                old_path: old_path.clone(),
                new_path: new_path.clone(),
                old_hash: old_hash.clone(),
                new_hash: new_hash.clone(),
                summary: clone_summary(summary),
            },
        }
    }
}

impl ChangeType {
    /// The path the change is filed under: the new path of a rename, the path
    /// of any other change.
    pub open spec fn path_view(&self) -> Seq<char> {
        match self {
            ChangeType::ADDED { path, .. } => path@,
            ChangeType::DELETED { path, .. } => path@,
            ChangeType::MODIFIED { path, .. } => path@,
            ChangeType::RENAMED { new_path, .. } => new_path@,
        }
    }

    /// The old path of a rename.
    pub open spec fn old_path_view(&self) -> Option<Seq<char>> {
        match self {
            ChangeType::RENAMED { old_path, .. } => Some(old_path@),
            _ => None,
        }
    }

    /// The new content's hash, where the change has one.
    pub open spec fn new_hash_view(&self) -> Option<Seq<char>> {
        match self {
            ChangeType::ADDED { new_hash, .. } => Some(new_hash@),
            ChangeType::MODIFIED { new_hash, .. } => Some(new_hash@),
            ChangeType::RENAMED { new_hash, .. } => Some(new_hash@),
            _ => None,
        }
    }

    /// The old content's hash, where the change has one.
    pub open spec fn old_hash_view(&self) -> Option<Seq<char>> {
        match self {
            ChangeType::DELETED { old_hash, .. } => Some(old_hash@),
            ChangeType::MODIFIED { old_hash, .. } => Some(old_hash@),
            ChangeType::RENAMED { old_hash, .. } => Some(old_hash@),
            _ => None,
        }
    }

    /// The summary of a modification or rename, where it has one.
    pub open spec fn summary_of(&self) -> Option<DiffSummary> {
        match self {
            ChangeType::MODIFIED { summary, .. } => *summary,
            ChangeType::RENAMED { summary, .. } => *summary,
            _ => None,
        }
    }

    /// The path the change is filed under.
    pub fn get_path(&self) -> (p: &str)
        ensures
            p@ == self.path_view(),
    {
        match self {
            ChangeType::ADDED { path, .. } => path.as_str(),
            ChangeType::DELETED { path, .. } => path.as_str(),
            ChangeType::MODIFIED { path, .. } => path.as_str(),
            ChangeType::RENAMED { new_path, .. } => new_path.as_str(),
        }
    }

    /// The old path of a rename.
    pub fn get_old_path(&self) -> (p: Option<&String>)
        ensures
            p is Some <==> self.old_path_view() is Some,
            p matches Some(s) ==> Some(s@) == self.old_path_view(),
    {
        match self {
            ChangeType::RENAMED { old_path, .. } => Some(old_path),
            _ => None,
        }
    }

    /// The path the change is filed under, without trailing separators or
    /// trailing `.` components.
    pub fn path(&self) -> (p: String)
        ensures
            p@ == trimmed_path(self.path_view()),
    {
        trim_path(self.get_path())
    }

    /// The old path of a rename.
    pub fn old_path(&self) -> (p: Option<&str>)
        ensures
            p is Some <==> self.old_path_view() is Some,
            p matches Some(s) ==> Some(s@) == self.old_path_view(),
    {
        match self.get_old_path() {
            Some(s) => Some(s.as_str()),
            None => None,
        }
    }

    /// A copy of the path the change is filed under.
    pub fn get_pathbuf(&self) -> (p: String)
        ensures
            p@ == self.path_view(),
    {
        let p = self.get_path();
        p.to_string()
    }

    /// A copy of the old path of a rename.
    pub fn get_old_pathbuf(&self) -> (p: Option<String>)
        ensures
            opt_view(p) == self.old_path_view(),
    {
        match self.get_old_path() {
            Some(s) => Some(s.clone()),
            None => None,
        }
    }

    pub fn get_new_hash(&self) -> (h: Option<&String>)
        ensures
            h is Some <==> self.new_hash_view() is Some,
            h matches Some(s) ==> Some(s@) == self.new_hash_view(),
    {
        match self {
            ChangeType::ADDED { new_hash, .. } => Some(new_hash),
            ChangeType::MODIFIED { new_hash, .. } => Some(new_hash),
            ChangeType::RENAMED { new_hash, .. } => Some(new_hash),
            _ => None,
        }
    }

    pub fn new_hash(&self) -> (h: Option<&str>)
        ensures
            h is Some <==> self.new_hash_view() is Some,
            h matches Some(s) ==> Some(s@) == self.new_hash_view(),
    {
        match self.get_new_hash() {
            Some(s) => Some(s.as_str()),
            None => None,
        }
    }

    pub fn get_old_hash(&self) -> (h: Option<&String>)
        ensures
            h is Some <==> self.old_hash_view() is Some,
            h matches Some(s) ==> Some(s@) == self.old_hash_view(),
    {
        match self {
            ChangeType::DELETED { old_hash, .. } => Some(old_hash),
            ChangeType::MODIFIED { old_hash, .. } => Some(old_hash),
            ChangeType::RENAMED { old_hash, .. } => Some(old_hash),
            _ => None,
        }
    }

    pub fn old_hash(&self) -> (h: Option<&str>)
        ensures
            h is Some <==> self.old_hash_view() is Some,
            h matches Some(s) ==> Some(s@) == self.old_hash_view(),
    {
        match self.get_old_hash() {
            Some(s) => Some(s.as_str()),
            None => None,
        }
    }

    pub fn get_summary(&self) -> (s: Option<&DiffSummary>)
        ensures
            s is Some <==> self.summary_of() is Some,
            s matches Some(d) ==> Some(*d) == self.summary_of(),
    {
        match self {
            ChangeType::MODIFIED { summary, .. } => match summary {
                Some(d) => Some(d),
                None => None,
            },
            ChangeType::RENAMED { summary, .. } => match summary {
                Some(d) => Some(d),
                None => None,
            },
            _ => None,
        }
    }

    pub fn summary(&self) -> (s: Option<&DiffSummary>)
        ensures
            s is Some <==> self.summary_of() is Some,
            s matches Some(d) ==> Some(*d) == self.summary_of(),
    {
        self.get_summary()
    }
}

/// The changes between two states of a repository, one per path, with the
/// states they lead from and to (commit hashes, branch names, ...).
#[derive(Debug)]
pub struct ChangeSet {
    subchanges: KeyedMap<ChangeType>,
    from: Option<String>,
    to: Option<String>,
}

impl ChangeSet {
    #[verifier::type_invariant]
    spec fn keys_are_paths(self) -> bool {
        forall|k: Seq<char>| #[trigger]
            self.subchanges.as_map().dom().contains(k) ==> path_key(
                self.subchanges.as_map()[k].path_view(),
            ) == k
    }

    /// The changes, by the key of the path each is filed under.
    pub closed spec fn changes(&self) -> Map<Seq<char>, ChangeType> {
        self.subchanges.as_map()
    }

    /// The changes in key order, each with its key.
    pub closed spec fn change_seq(&self) -> Seq<(String, ChangeType)> {
        self.subchanges.entry_seq()
    }

    /// The state the changes lead from.
    pub closed spec fn from_view(&self) -> Option<Seq<char>> {
        opt_view(self.from)
    }

    /// The state the changes lead to.
    pub closed spec fn to_view(&self) -> Option<Seq<char>> {
        opt_view(self.to)
    }

    /// A change set holds finitely many changes.
    pub proof fn lemma_changes_finite(&self)
        ensures
            self.changes().dom().finite(),
    {
        crate::keyed::lemma_entries_map_finite(self.subchanges.entry_seq());
    }

    /// An empty set of changes between `from` and `to`.
    pub fn new(from: Option<String>, to: Option<String>) -> (c: Self)
        ensures
            c.changes() == Map::<Seq<char>, ChangeType>::empty(),
            c.from_view() == opt_view(from),
            c.to_view() == opt_view(to),
    {
        ChangeSet { subchanges: KeyedMap::new(), from, to }
    }

    /// Files `change` under its path, replacing a change filed under the same path.
    pub fn add_change(&mut self, change: ChangeType)
        ensures
            final(self).changes() == old(self).changes().insert(path_key(change.path_view()), change),
            final(self).from_view() == old(self).from_view(),
            final(self).to_view() == old(self).to_view(),
    {
        proof {
            use_type_invariant(&*self);
        }
        let key = normalize_path(change.get_path());
        let mut subchanges = KeyedMap::new();
        std::mem::swap(&mut subchanges, &mut self.subchanges);
        subchanges.insert(key, change);
        self.subchanges = subchanges;
    }

    /// Removes the change filed under `path`; returns it.
    pub fn remove_change(&mut self, path: &str) -> (r: Option<ChangeType>)
        ensures
            final(self).changes() == old(self).changes().remove(path_key(path@)),
            r is Some <==> old(self).changes().dom().contains(path_key(path@)),
            r matches Some(c) ==> c == old(self).changes()[path_key(path@)],
            final(self).from_view() == old(self).from_view(),
            final(self).to_view() == old(self).to_view(),
    {
        proof {
            use_type_invariant(&*self);
        }
        let key = normalize_path(path);
        let mut subchanges = KeyedMap::new();
        std::mem::swap(&mut subchanges, &mut self.subchanges);
        let r = subchanges.remove(key.as_str());
        self.subchanges = subchanges;
        r
    }

    pub fn is_empty(&self) -> (b: bool)
        ensures
            b == (self.changes() == Map::<Seq<char>, ChangeType>::empty()),
    {
        self.subchanges.is_empty()
    }

    /// The number of changes.
    pub fn len(&self) -> (n: usize)
        ensures
            n == self.changes().len(),
    {
        self.subchanges.len()
    }

    /// The keys of the paths that have changes, in key order.
    pub fn collect_paths(&self) -> (ps: Vec<String>)
        ensures
            ps@.len() == self.changes().len(),
            string_views(ps@).to_set() == self.changes().dom(),
            forall|i: int| 0 <= i < ps@.len() ==> #[trigger] ps@[i]@ == self.change_seq()[i].0@,
    {
        let n = self.subchanges.len();
        let ks = self.subchanges.keys();
        proof {
            let m = self.changes();
            let es = self.change_seq();
            assert forall|k: Seq<char>| #[trigger] m.dom().contains(k) implies string_views(ks@).to_set().contains(k) by {
                let i = crate::keyed::key_index(es, k);
                assert(string_views(ks@)[i] == k);
            }
            assert forall|k: Seq<char>| #[trigger] string_views(ks@).to_set().contains(k) implies m.dom().contains(k) by {
                let i = choose|i: int| 0 <= i < string_views(ks@).len() && string_views(ks@)[i] == k;
                assert(es[i].0@ == k);
            }
            assert(string_views(ks@).to_set() =~= m.dom());
            assert forall|i: int| 0 <= i < ks@.len() implies #[trigger] ks@[i]@ == es[i].0@ by {
                assert(string_views(ks@)[i] == ks@[i]@);
                assert(self.subchanges.key_seq()[i] == es[i].0@);
            }
        }
        ks
    }

    /// The change filed under `path`.
    pub fn get_entry(&self, path: &str) -> (r: Option<&ChangeType>)
        ensures
            r is Some <==> self.changes().dom().contains(path_key(path@)),
            r matches Some(c) ==> *c == self.changes()[path_key(path@)],
    {
        let key = normalize_path(path);
        self.subchanges.get(key.as_str())
    }

    /// The changes whose paths lie under `prefix`, component by component, each
    /// with its key, in key order.
    pub fn find_by_prefix(&self, prefix: &str) -> (r: Vec<(&String, &ChangeType)>)
        ensures
            forall|i: int|
                0 <= i < r@.len() ==> self.changes().dom().contains(#[trigger] r@[i].0@)
                    && *r@[i].1 == self.changes()[r@[i].0@] && path_starts_with(
                    r@[i].1.path_view(),
                    prefix@,
                ),
            forall|k: Seq<char>|
                #[trigger] self.changes().dom().contains(k) && path_starts_with(
                    self.changes()[k].path_view(),
                    prefix@,
                ) ==> exists|i: int| 0 <= i < r@.len() && r@[i].0@ == k,
            forall|i: int, j: int| 0 <= i < j < r@.len() ==> r@[i].0@ != r@[j].0@,
    {
        let ghost es = self.change_seq();
        let n = self.subchanges.len();
        let mut r: Vec<(&String, &ChangeType)> = Vec::new();
        let mut i: usize = 0;
        // The indices of the entries kept so far.
        let ghost mut picked: Seq<int> = Seq::empty();
        while i < n
            invariant
                n == es.len(),
                es == self.change_seq(),
                keys_sorted(es),
                i <= n,
                r@.len() == picked.len(),
                forall|t: int|
                    0 <= t < picked.len() ==> 0 <= #[trigger] picked[t] < i && r@[t].0@
                        == es[picked[t]].0@ && *r@[t].1 == es[picked[t]].1,
                forall|t: int|
                    0 <= t < picked.len() ==> path_starts_with(
                        (#[trigger] r@[t]).1.path_view(),
                        prefix@,
                    ),
                forall|a: int, b: int| 0 <= a < b < picked.len() ==> #[trigger] picked[a] < #[trigger] picked[b],
                forall|j: int|
                    0 <= j < i && path_starts_with(es[j].1.path_view(), prefix@) ==> exists|t: int|
                        0 <= t < picked.len() && #[trigger] picked[t] == j,
            decreases n - i,
        {
            let pair = self.subchanges.entry_at(i);
            let ghost before = picked;
            if starts_with_path(pair.1.get_path(), prefix) {
                r.push((&pair.0, &pair.1));
                proof {
                    picked = picked.push(i as int);
                    assert(picked[picked.len() - 1] == i);
                }
            }
            proof {
                assert forall|j: int|
                    0 <= j < i + 1 && path_starts_with(es[j].1.path_view(), prefix@) implies exists|t: int|
                    0 <= t < picked.len() && #[trigger] picked[t] == j by {
                    if j < i {
                        let t = choose|t: int| 0 <= t < before.len() && #[trigger] before[t] == j;
                        assert(picked[t] == j);
                    } else {
                        assert(picked[picked.len() - 1] == j);
                    }
                }
            }
            i = i + 1;
        }
        proof {
            let m = self.changes();
            assert forall|t: int| 0 <= t < r@.len() implies m.dom().contains(#[trigger] r@[t].0@)
                && *r@[t].1 == m[r@[t].0@] && path_starts_with(r@[t].1.path_view(), prefix@) by {
                crate::keyed::lemma_entries_map_at(es, picked[t]);
            }
            assert forall|k: Seq<char>|
                #[trigger] m.dom().contains(k) && path_starts_with(m[k].path_view(), prefix@) implies exists|t: int|
                0 <= t < r@.len() && r@[t].0@ == k by {
                let j = crate::keyed::key_index(es, k);
                crate::keyed::lemma_entries_map_at(es, j);
                let t = choose|t: int| 0 <= t < picked.len() && #[trigger] picked[t] == j;
                assert(r@[t].0@ == k);
            }
            assert forall|a: int, b: int| 0 <= a < b < r@.len() implies r@[a].0@ != r@[b].0@ by {
                assert(picked[a] < picked[b]);
                assert(crate::keyed::key_less(es[picked[a]].0@, es[picked[b]].0@));
                crate::keyed::lemma_key_less_irreflexive(es[picked[a]].0@);
            }
        }
        r
    }

    /// A copy of every change, with its key, in key order.
    pub fn get(&self) -> (r: Vec<(String, ChangeType)>)
        ensures
            r@ == self.change_seq(),
            keys_sorted(r@),
            entries_map(r@) == self.changes(),
    {
        let ghost es = self.change_seq();
        let n = self.subchanges.len();
        let mut r: Vec<(String, ChangeType)> = Vec::new();
        let mut i: usize = 0;
        while i < n
            invariant
                n == es.len(),
                es == self.change_seq(),
                i <= n,
                r@ == es.subrange(0, i as int),
            decreases n - i,
        {
            let pair = self.subchanges.entry_at(i);
            r.push((pair.0.clone(), pair.1.clone()));
            assert(es.subrange(0, i + 1) =~= es.subrange(0, i as int).push(es[i as int]));
            i = i + 1;
        }
        assert(es.subrange(0, n as int) =~= es);
        r
    }

    pub fn from_ref(&self) -> (r: Option<&String>)
        ensures
            r is Some <==> self.from_view() is Some,
            r matches Some(s) ==> Some(s@) == self.from_view(),
    {
        match &self.from {
            Some(s) => Some(s),
            None => None,
        }
    }

    pub fn to_ref(&self) -> (r: Option<&String>)
        ensures
            r is Some <==> self.to_view() is Some,
            r matches Some(s) ==> Some(s@) == self.to_view(),
    {
        match &self.to {
            Some(s) => Some(s),
            None => None,
        }
    }

    pub fn from(&self) -> (r: Option<&str>)
        ensures
            r is Some <==> self.from_view() is Some,
            r matches Some(s) ==> Some(s@) == self.from_view(),
    {
        match &self.from {
            Some(s) => Some(s.as_str()),
            None => None,
        }
    }

    pub fn to(&self) -> (r: Option<&str>)
        ensures
            r is Some <==> self.to_view() is Some,
            r matches Some(s) ==> Some(s@) == self.to_view(),
    {
        match &self.to {
            Some(s) => Some(s.as_str()),
            None => None,
        }
    }

    pub fn set_from(&mut self, from: Option<String>)
        ensures
            final(self).from_view() == opt_view(from),
            final(self).to_view() == old(self).to_view(),
            final(self).changes() == old(self).changes(),
    {
        proof {
            use_type_invariant(&*self);
        }
        self.from = from;
    }

    pub fn set_to(&mut self, to: Option<String>)
        ensures
            final(self).to_view() == opt_view(to),
            final(self).from_view() == old(self).from_view(),
            final(self).changes() == old(self).changes(),
    {
        proof {
            use_type_invariant(&*self);
        }
        self.to = to;
    }
}

/// Filing a change and then looking up any path that is the same path finds
/// that change; removing that path afterwards gives back the set as it was
/// without that path.
pub proof fn lemma_added_change_found(m: Map<Seq<char>, ChangeType>, c: ChangeType, p: Seq<char>)
    requires
        path_key(p) == path_key(c.path_view()),
    ensures
        m.insert(path_key(c.path_view()), c).dom().contains(path_key(p)),
        m.insert(path_key(c.path_view()), c)[path_key(p)] == c,
        m.insert(path_key(c.path_view()), c).remove(path_key(p)) == m.remove(path_key(p)),
{
    assert(m.insert(path_key(c.path_view()), c).remove(path_key(p)) =~= m.remove(path_key(p)));
}

} // verus!
