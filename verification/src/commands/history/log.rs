//! The walk `log` makes through the history: from the current commit to its
//! parent, and on, showing as many commits as it was asked for and counting
//! the ones after them.

use vstd::prelude::*;

verus! {

/// Where the walk stands: the next commit, how many were shown, how many may
/// be, and how many were passed over after those.
pub struct LogWalk {
    next: Option<String>,
    shown: usize,
    count: usize,
    more: usize,
}

/// The state of a walk, by value.
pub struct LogWalkModel {
    pub next: Option<Seq<char>>,
    pub shown: nat,
    pub count: nat,
    pub more: nat,
}

/// What the walk does next.
#[derive(Debug, PartialEq, Eq)]
pub enum LogAction {
    /// There is no commit at all.
    NoCommits,
    /// Load and show the commit with this hash; `true` for the first one.
    Show(String, bool),
    /// Load the commit with this hash only to count it and follow its parent:
    /// as many commits as asked for were shown.
    Count(String),
    /// The walk is over; where commits were left after those shown, how many.
    Done(Option<usize>),
}

/// An action, by value.
pub enum LogActionModel {
    NoCommits,
    Show(Seq<char>, bool),
    Count(Seq<char>),
    Done(Option<nat>),
}

impl View for LogWalk {
    type V = LogWalkModel;

    closed spec fn view(&self) -> LogWalkModel {
        LogWalkModel {
            next: match self.next {
                Some(h) => Some(h@),
                None => None,
            },
            shown: self.shown as nat,
            count: self.count as nat,
            more: self.more as nat,
        }
    }
}

impl View for LogAction {
    type V = LogActionModel;

    open spec fn view(&self) -> LogActionModel {
        match self {
            LogAction::NoCommits => LogActionModel::NoCommits,
            LogAction::Show(h, latest) => LogActionModel::Show(h@, *latest),
            LogAction::Count(h) => LogActionModel::Count(h@),
            LogAction::Done(n) => LogActionModel::Done(
                match n {
                    Some(k) => Some(*k as nat),
                    None => None,
                },
            ),
        }
    }
}

/// The action a walk in state `w` takes: with no commit at all (none next,
/// none shown or counted) there is nothing to show; while a commit is next and fewer than `count` were shown,
/// that commit is shown; once `count` were shown, the commits left are counted;
/// at the end, the number of commits left after those shown, where there were
/// any.
pub open spec fn log_action(w: LogWalkModel) -> LogActionModel {
    if w.next is None && w.shown == 0 && w.more == 0 {
        LogActionModel::NoCommits
    } else if w.next is Some && w.shown < w.count {
        LogActionModel::Show(w.next.unwrap(), w.shown == 0)
    } else if w.next is Some {
        LogActionModel::Count(w.next.unwrap())
    } else if w.more > 0 {
        LogActionModel::Done(Some(w.more))
    } else {
        LogActionModel::Done(None)
    }
}

/// The state of a walk down `chain` (the commits newest first, each the
/// parent of the one before it, the last with no parent) that shows at most
/// `count` of them, after `i` of them were loaded.
pub open spec fn walk_after(chain: Seq<Seq<char>>, count: nat, i: nat) -> LogWalkModel {
    LogWalkModel {
        next: if i < chain.len() {
            Some(chain[i as int])
        } else {
            None
        },
        shown: if i < count {
            i
        } else {
            count
        },
        count,
        more: if i < count {
            0
        } else {
            (i - count) as nat
        },
    }
}

/// Along a chain of one or more commits, the walk shows the first `count` of
/// them, newest first (the first marked as the latest), then counts the rest,
/// and ends noting how many it did not show, where there were any. Each step
/// moves the walk from the state after `i` commits to the state after `i + 1`
/// in the way `shown_commit` and `counted_commit` state.
pub proof fn lemma_log_walk(chain: Seq<Seq<char>>, count: nat, i: nat)
    requires
        chain.len() >= 1,
        i <= chain.len(),
    ensures
        i < chain.len() && i < count ==> log_action(walk_after(chain, count, i))
            == LogActionModel::Show(chain[i as int], i == 0),
        i < chain.len() && i >= count ==> log_action(walk_after(chain, count, i))
            == LogActionModel::Count(chain[i as int]),
        i == chain.len() ==> log_action(walk_after(chain, count, i)) == LogActionModel::Done(
            if chain.len() > count {
                Some((chain.len() - count) as nat)
            } else {
                None
            },
        ),
        i < chain.len() ==> ({
            let w = walk_after(chain, count, i);
            walk_after(chain, count, i + 1) == LogWalkModel {
                next: if i + 1 < chain.len() {
                    Some(chain[i + 1int])
                } else {
                    None
                },
                shown: if i < count {
                    w.shown + 1
                } else {
                    w.shown
                },
                count: w.count,
                more: if i < count {
                    w.more
                } else {
                    w.more + 1
                },
            }
        }),
{
}

impl LogWalk {
    #[verifier::type_invariant]
    spec fn walk_inv(&self) -> bool {
        self.shown <= self.count
    }

    /// A walk from the current commit `head` that shows at most `count`
    /// commits.
    pub fn new(head: Option<String>, count: usize) -> (w: LogWalk)
        ensures
            w@.next == (match head {
                Some(h) => Some(h@),
                None => None::<Seq<char>>,
            }),
            w@.shown == 0,
            w@.count == count,
            w@.more == 0,
    {
        LogWalk { next: head, shown: 0, count, more: 0 }
    }

    /// What to do next.
    pub fn next_action(&self) -> (a: LogAction)
        ensures
            a@ == log_action(self@),
            self@.shown <= self@.count,
    {
        proof {
            use_type_invariant(self);
        }
        match &self.next {
            None => {
                if self.shown == 0 && self.more == 0 {
                    LogAction::NoCommits
                } else if self.more > 0 {
                    LogAction::Done(Some(self.more))
                } else {
                    LogAction::Done(None)
                }
            },
            Some(h) => {
                if self.shown < self.count {
                    LogAction::Show(h.clone(), self.shown == 0)
                } else {
                    LogAction::Count(h.clone())
                }
            },
        }
    }

    /// After the commit the walk showed: its parent comes next.
    pub fn shown_commit(&mut self, parent: Option<String>)
        requires
            log_action(old(self)@) is Show,
        ensures
            final(self)@.next == (match parent {
                Some(h) => Some(h@),
                None => None::<Seq<char>>,
            }),
            final(self)@.shown == old(self)@.shown + 1,
            final(self)@.count == old(self)@.count,
            final(self)@.more == old(self)@.more,
            final(self)@.shown <= final(self)@.count,
    {
        proof {
            use_type_invariant(&*self);
        }
        self.next = parent;
        self.shown = self.shown + 1;
    }

    /// After the commit the walk counted: its parent comes next. (The count
    /// stops growing at `usize::MAX`.)
    pub fn counted_commit(&mut self, parent: Option<String>)
        requires
            log_action(old(self)@) is Count,
        ensures
            final(self)@.next == (match parent {
                Some(h) => Some(h@),
                None => None::<Seq<char>>,
            }),
            final(self)@.shown == old(self)@.shown,
            final(self)@.count == old(self)@.count,
            final(self)@.more == (if old(self)@.more < usize::MAX {
                old(self)@.more + 1
            } else {
                old(self)@.more
            }),
            final(self)@.shown <= final(self)@.count,
    {
        proof {
            use_type_invariant(&*self);
        }
        self.next = parent;
        if self.more < usize::MAX {
            self.more = self.more + 1;
        }
    }
}

} // verus!
