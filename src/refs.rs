use vstd::prelude::*;

verus! {

/// Where a reference points: nowhere, at one commit, or, in conflict, at the
/// commits that the conflicting sides add and remove.
pub enum RefTarget {
    Absent,
    Normal(usize),
    Conflict { added: Vec<usize>, removed: Vec<usize> },
}

/// Whether a reference is tracked.
#[derive(Debug, Clone, Copy, PartialEq, Eq, Structural)]
pub enum RemoteRefState {
    New,
    Tracking,
}

/// One line of the summary of a reference target.
#[derive(Debug, Clone, Copy, PartialEq, Eq, Structural)]
pub enum RefSummaryLine {
    /// The reference is absent.
    Absent,
    /// The reference points at the commit.
    Normal(usize),
    /// A conflicting side adds the commit.
    Added(usize),
    /// A conflicting side removes the commit.
    Removed(usize),
}

/// The lines that summarise `t`: absent, the commit it points at, or each
/// added and then each removed commit of a conflict.
pub open spec fn summary_lines(t: RefTarget) -> Seq<RefSummaryLine> {
    match t {
        RefTarget::Absent => seq![RefSummaryLine::Absent],
        RefTarget::Normal(c) => seq![RefSummaryLine::Normal(c)],
        RefTarget::Conflict { added, removed } => added@.map_values(|c: usize| RefSummaryLine::Added(c))
            + removed@.map_values(|c: usize| RefSummaryLine::Removed(c)),
    }
}

/// The summary of a reference target, one line each.
pub fn ref_target_summary(t: &RefTarget) -> (r: Vec<RefSummaryLine>)
    ensures
        r@ == summary_lines(*t),
{
    let mut r: Vec<RefSummaryLine> = Vec::new();
    match t {
        RefTarget::Absent => {
            r.push(RefSummaryLine::Absent);
        },
        RefTarget::Normal(c) => {
            r.push(RefSummaryLine::Normal(*c));
        },
        RefTarget::Conflict { added, removed } => {
            let mut k: usize = 0;
            while k < added.len()
                invariant
                    k <= added@.len(),
                    r@ == added@.subrange(0, k as int).map_values(|c: usize| RefSummaryLine::Added(c)),
                decreases added@.len() - k,
            {
                r.push(RefSummaryLine::Added(added[k]));
                k = k + 1;
                proof {
                    assert(added@.subrange(0, k as int).map_values(|c: usize| RefSummaryLine::Added(c))
                        =~= added@.subrange(0, k - 1).map_values(|c: usize| RefSummaryLine::Added(c)).push(RefSummaryLine::Added(added@[k - 1])));
                }
            }
            let ghost first = r@;
            proof {
                assert(added@.subrange(0, k as int) == added@);
            }
            let mut k: usize = 0;
            while k < removed.len()
                invariant
                    k <= removed@.len(),
                    first == added@.map_values(|c: usize| RefSummaryLine::Added(c)),
                    r@ == first + removed@.subrange(0, k as int).map_values(|c: usize| RefSummaryLine::Removed(c)),
                decreases removed@.len() - k,
            {
                r.push(RefSummaryLine::Removed(removed[k]));
                k = k + 1;
                proof {
                    assert(removed@.subrange(0, k as int).map_values(|c: usize| RefSummaryLine::Removed(c))
                        =~= removed@.subrange(0, k - 1).map_values(|c: usize| RefSummaryLine::Removed(c)).push(RefSummaryLine::Removed(removed@[k - 1])));
                }
            }
            proof {
                assert(removed@.subrange(0, k as int) == removed@);
            }
        },
    }
    r
}

/// The remote that mirrors the local branches of the backing Git repository.
pub const LOCAL_GIT_REMOTE: &'static str = "git";

/// Whether changes to branches of `remote` are shown: not for the remote that
/// mirrors the local branches, which the local branch changes already cover.
pub fn is_shown_remote(remote: &String) -> (r: bool)
    ensures
        r == (remote@ != LOCAL_GIT_REMOTE@),
{
    let reserved = LOCAL_GIT_REMOTE.to_owned();
    !(*remote == reserved)
}

/// The word that says whether a remote reference is tracked.
pub fn remote_ref_state_label(state: RemoteRefState) -> (r: &'static str)
    ensures
        state == RemoteRefState::Tracking ==> r@ == "tracked"@,
        state == RemoteRefState::New ==> r@ == "untracked"@,
{
    proof {
        reveal_strlit("tracked");
        reveal_strlit("untracked");
    }
    match state {
        RemoteRefState::New => "untracked",
        RemoteRefState::Tracking => "tracked",
    }
}

} // verus!
