//! Walks over explicit compatibility history.

use super::types::{
    BranchView, CommitView, GitBranch, GitCommit, GitCommitId, GitCompatState, GitObjectName,
    StateView,
};
use crate::digest::hex_chars;
use crate::order::{
    ascending, lemma_to_set_push, views, OrderKey, OrderedMap, OrderedSet, Replicate,
};
use crate::text::{chars_of, has_prefix, text_is};
use vstd::prelude::*;
use vstd::string::*;

verus! {

/// Failure of a state transition.
#[derive(Debug)]
pub enum GitCompatStateError {
    /// Invalid compatibility state.
    Invalid,
    /// Unknown object.
    Unknown(String),
    /// Branch already exists.
    BranchExists(String),
    /// HEAD is unborn.
    UnbornHead,
    /// Nothing to commit.
    NothingToCommit,
    /// Stash is empty.
    EmptyStash,
    /// Invalid bisect operation.
    Bisect(String),
}

/// Abstract value of [`GitCompatStateError`].
#[verifier::ext_equal]
pub enum StateErrorView {
    /// Invalid compatibility state.
    Invalid,
    /// Unknown object.
    Unknown(Seq<char>),
    /// Branch already exists.
    BranchExists(Seq<char>),
    /// HEAD is unborn.
    UnbornHead,
    /// Nothing to commit.
    NothingToCommit,
    /// Stash is empty.
    EmptyStash,
    /// Invalid bisect operation.
    Bisect(Seq<char>),
}

impl View for GitCompatStateError {
    type V = StateErrorView;

    open spec fn view(&self) -> StateErrorView {
        match self {
            GitCompatStateError::Invalid => StateErrorView::Invalid,
            GitCompatStateError::Unknown(name) => StateErrorView::Unknown(name@),
            GitCompatStateError::BranchExists(name) => StateErrorView::BranchExists(name@),
            GitCompatStateError::UnbornHead => StateErrorView::UnbornHead,
            GitCompatStateError::NothingToCommit => StateErrorView::NothingToCommit,
            GitCompatStateError::EmptyStash => StateErrorView::EmptyStash,
            GitCompatStateError::Bisect(message) => StateErrorView::Bisect(message@),
        }
    }
}

/// Explicit commit records by identity.
pub type Commits = Map<GitCommitId, CommitView>;

/// The selected branch.
pub open spec fn current_branch(state: StateView) -> Option<BranchView> {
    if state.branches.dom().contains(state.current_branch) {
        Some(state.branches[state.current_branch])
    } else {
        None
    }
}

/// The commit that inspection commands call HEAD.
pub open spec fn visible_head(state: StateView) -> Option<GitCommitId> {
    let installed = match state.bisect {
        Some(session) => session.current,
        None => None,
    };
    match installed {
        Some(id) => Some(id),
        None => match current_branch(state) {
            Some(branch) => branch.head,
            None => None,
        },
    }
}

/// Commits whose hexadecimal identity starts with a text, in ascending order.
pub open spec fn abbreviated(commits: Commits, name: Seq<char>) -> Seq<GitCommitId> {
    ascending::<GitCommitId>(commits.dom()).filter(
        |id: GitCommitId| name.is_prefix_of(hex_chars(id.bytes@)),
    )
}

/// The commit that an object name denotes.
pub open spec fn resolved(state: StateView, object: Option<Seq<char>>) -> Result<
    GitCommitId,
    StateErrorView,
> {
    let head: Result<GitCommitId, StateErrorView> = match visible_head(state) {
        Some(id) => Ok(id),
        None => Err(StateErrorView::UnbornHead),
    };
    match object {
        None => head,
        Some(name) => if name == "HEAD"@ {
            head
        } else if state.branches.dom().contains(name) {
            match state.branches[name].head {
                Some(id) => Ok(id),
                None => Err(StateErrorView::UnbornHead),
            }
        } else if state.tags.dom().contains(name) {
            Ok(state.tags[name])
        } else {
            let matching = abbreviated(state.commits, name);
            if matching.len() == 1 {
                Ok(matching[0])
            } else {
                Err(StateErrorView::Unknown(name))
            }
        },
    }
}

/// The record of a commit.
pub open spec fn record(commits: Commits, id: Option<GitCommitId>) -> Option<CommitView> {
    match id {
        Some(known) => if commits.dom().contains(known) {
            Some(commits[known])
        } else {
            None
        },
        None => None,
    }
}

/// The first parent of a commit.
pub open spec fn first_parent(commit: CommitView) -> Option<GitCommitId> {
    if commit.parents.len() > 0 {
        Some(commit.parents[0])
    } else {
        None
    }
}

/// At most `maximum` commits along first parents, newest first.
pub open spec fn first_parent_history(
    commits: Commits,
    next: Option<GitCommitId>,
    maximum: nat,
) -> Seq<CommitView>
    decreases maximum,
{
    match record(commits, next) {
        Some(commit) => if maximum == 0 {
            Seq::empty()
        } else {
            seq![commit] + first_parent_history(
                commits,
                first_parent(commit),
                (maximum - 1) as nat,
            )
        },
        None => Seq::empty(),
    }
}

impl GitCompatState {
    /// Borrows the selected branch.
    pub fn current(&self) -> (r: Result<&GitBranch, GitCompatStateError>)
        ensures
            match r {
                Ok(branch) => current_branch(self@) == Some(branch@),
                Err(error) => current_branch(self@) is None && error@ == StateErrorView::Invalid,
            },
    {
        match self.branches.get(&self.current_branch) {
            Some(branch) => Ok(branch),
            None => Err(GitCompatStateError::Invalid),
        }
    }

    /// Moves the selected branch to a commit.
    pub(crate) fn set_current_head(&mut self, head: GitCommitId, tracked_paths: OrderedSet<String>)
        requires
            current_branch(old(self)@) is Some,
        ensures
            final(self)@ == with_head(old(self)@, head, tracked_paths@),
    {
        let ghost before = self@;
        if let Some(found) = self.branches.get(&self.current_branch) {
            let moved = GitBranch {
                name: found.name.clone(),
                workspace_id: found.workspace_id,
                head: Some(head),
                tracked_paths,
            };
            self.branches.insert(self.current_branch.clone(), moved);
        }
        assert(self@ =~= with_head(before, head, tracked_paths@));
    }
}

/// The state whose selected branch is at a commit.
pub open spec fn with_head(
    state: StateView,
    head: GitCommitId,
    tracked_paths: Set<Seq<char>>,
) -> StateView {
    let branch = state.branches[state.current_branch];
    StateView {
        branches: state.branches.insert(
            state.current_branch,
            BranchView { head: Some(head), tracked_paths, ..branch },
        ),
        ..state
    }
}

/// Finds the commit that inspection commands call HEAD.
pub fn find_visible_head(state: &GitCompatState) -> (r: Option<GitCommitId>)
    ensures
        r == visible_head(state@),
{
    if let Some(session) = &state.bisect {
        if let Some(id) = session.current {
            return Some(id);
        }
    }
    match state.branches.get(&state.current_branch) {
        Some(branch) => branch.head,
        None => None,
    }
}

/// Finds the commit that an object name denotes.
pub fn resolve_object(state: &GitCompatState, object: Option<&GitObjectName>) -> (r: Result<
    GitCommitId,
    GitCompatStateError,
>)
    ensures
        match r {
            Ok(id) => resolved(
                state@,
                match object {
                    Some(name) => Some(name@),
                    None => None,
                },
            ) == Ok::<GitCommitId, StateErrorView>(id),
            Err(error) => resolved(
                state@,
                match object {
                    Some(name) => Some(name@),
                    None => None,
                },
            ) == Err::<GitCommitId, StateErrorView>(error@),
        },
{
    let name = match object {
        None => {
            return match find_visible_head(state) {
                Some(id) => Ok(id),
                None => Err(GitCompatStateError::UnbornHead),
            };
        },
        Some(name) => &name.0,
    };
    if text_is(name.as_str(), "HEAD") {
        return match find_visible_head(state) {
            Some(id) => Ok(id),
            None => Err(GitCompatStateError::UnbornHead),
        };
    }
    if let Some(branch) = state.branches.get(name) {
        return match branch.head {
            Some(id) => Ok(id),
            None => Err(GitCompatStateError::UnbornHead),
        };
    }
    if let Some(id) = state.tags.get(name) {
        return Ok(*id);
    }
    let prefix = chars_of(name.as_str());
    let count = state.commits.len();
    let ghost known = ascending::<GitCommitId>(state.commits@.dom());
    let ghost wanted = |id: GitCommitId| name@.is_prefix_of(hex_chars(id.bytes@));
    let mut found: Option<GitCommitId> = None;
    let mut several = false;
    let mut i: usize = 0;
    proof {
        reveal(Seq::filter);
        assert(known.take(0).filter(wanted).len() == 0);
    }
    while i < count
        invariant
            i <= count,
            count == known.len(),
            known == ascending::<GitCommitId>(state.commits@.dom()),
            prefix@ == name@,
            wanted == (|id: GitCommitId| name@.is_prefix_of(hex_chars(id.bytes@))),
            several == (known.take(i as int).filter(wanted).len() > 1),
            found is None == (known.take(i as int).filter(wanted).len() == 0),
            found matches Some(id) ==> known.take(i as int).filter(wanted)[0] == id,
        decreases count - i,
    {
        let id = *state.commits.key_at(i);
        let spelled = chars_of(id.to_hex().as_str());
        proof {
            let next = known.take(i + 1);
            assert(next.drop_last() =~= known.take(i as int));
            assert(next.last() == id);
            reveal(Seq::filter);
        }
        if has_prefix(spelled.as_slice(), prefix.as_slice()) {
            if found.is_some() {
                several = true;
            } else {
                found = Some(id);
            }
        }
        i = i + 1;
    }
    assert(known.take(i as int) =~= known);
    assert(known.filter(wanted) == abbreviated(state@.commits, name@));
    match found {
        Some(id) => if several {
            Err(GitCompatStateError::Unknown(name.clone()))
        } else {
            Ok(id)
        },
        None => Err(GitCompatStateError::Unknown(name.clone())),
    }
}

/// Collects at most `maximum` commits along first parents.
pub fn walk_commits(
    commits: &OrderedMap<GitCommitId, GitCommit>,
    next: Option<GitCommitId>,
    maximum: u32,
) -> (r: Vec<GitCommit>)
    ensures
        views(r@) == first_parent_history(commits@, next, maximum as nat),
{
    let mut found: Vec<GitCommit> = Vec::new();
    let mut at = next;
    let mut left: u32 = maximum;
    assert(views(found@) + first_parent_history(commits@, next, maximum as nat)
        =~= first_parent_history(commits@, next, maximum as nat));
    while left > 0
        invariant
            views(found@) + first_parent_history(commits@, at, left as nat)
                == first_parent_history(commits@, next, maximum as nat),
        decreases left,
    {
        let id = match at {
            Some(id) => id,
            None => {
                assert(views(found@) + Seq::<CommitView>::empty() =~= views(found@));
                return found;
            },
        };
        match commits.get(&id) {
            Some(commit) => {
                let ghost before = views(found@);
                let ghost rest = first_parent_history(
                    commits@,
                    first_parent(commit@),
                    (left - 1) as nat,
                );
                found.push(commit.replicate());
                at = if commit.parents.len() > 0 {
                    Some(commit.parents[0])
                } else {
                    None
                };
                proof {
                    assert(views(found@) =~= before.push(commit@));
                    assert(before.push(commit@) + rest =~= before + (seq![commit@] + rest));
                }
                left = left - 1;
            },
            None => {
                assert(views(found@) + Seq::<CommitView>::empty() =~= views(found@));
                return found;
            },
        }
    }
    assert(views(found@) + Seq::<CommitView>::empty() =~= views(found@));
    found
}

/// The `n`-th commit along first parents.
pub open spec fn nth_ancestor(commits: Commits, from: GitCommitId, n: nat) -> Option<GitCommitId>
    decreases n,
{
    if n == 0 {
        Some(from)
    } else {
        match record(commits, nth_ancestor(commits, from, (n - 1) as nat)) {
            Some(commit) => first_parent(commit),
            None => None,
        }
    }
}

/// Whether `good` is first met after `n` first-parent steps from `bad`.
pub open spec fn meets(commits: Commits, bad: GitCommitId, good: GitCommitId, n: nat) -> bool {
    &&& nth_ancestor(commits, bad, n) == Some(good)
    &&& forall|m: nat|
        m < n ==> (#[trigger] nth_ancestor(commits, bad, m)) is Some && nth_ancestor(
            commits,
            bad,
            m,
        ) != Some(good)
}

/// Whether first parents from `bad` end at a root.
pub open spec fn ends_at(commits: Commits, bad: GitCommitId, n: nat) -> bool {
    match record(commits, nth_ancestor(commits, bad, n)) {
        Some(commit) => commit.parents.len() == 0,
        None => false,
    }
}

/// The failure of a range whose ends are not connected.
pub open spec fn range_missing() -> StateErrorView {
    StateErrorView::Bisect("the good commit is not a first-parent ancestor of the bad commit"@)
}

/// The first-parent commits from `bad` down to `good`, both included.
pub open spec fn parent_range(commits: Commits, bad: GitCommitId, good: GitCommitId) -> Result<
    Seq<GitCommitId>,
    StateErrorView,
> {
    if exists|n: nat| meets(commits, bad, good, n) {
        let n = choose|n: nat| meets(commits, bad, good, n);
        Ok(Seq::new(n + 1, |i: int| nth_ancestor(commits, bad, i as nat)->0))
    } else if exists|n: nat| ends_at(commits, bad, n) {
        Err(range_missing())
    } else {
        Err(StateErrorView::Invalid)
    }
}

proof fn lemma_ancestors_stop(commits: Commits, from: GitCommitId, n: nat, m: nat)
    requires
        nth_ancestor(commits, from, n) is None,
        n <= m,
    ensures
        nth_ancestor(commits, from, m) is None,
    decreases m - n,
{
    if n < m {
        lemma_ancestors_stop(commits, from, n, (m - 1) as nat);
    }
}

proof fn lemma_meets_unique(commits: Commits, bad: GitCommitId, good: GitCommitId, a: nat, b: nat)
    requires
        meets(commits, bad, good, a),
        meets(commits, bad, good, b),
    ensures
        a == b,
{
    if a < b {
        assert(nth_ancestor(commits, bad, a) != Some(good));
    } else if b < a {
        assert(nth_ancestor(commits, bad, b) != Some(good));
    }
}

proof fn lemma_period(commits: Commits, from: GitCommitId, i: nat, j: nat, k: nat)
    requires
        i < j,
        nth_ancestor(commits, from, i) == nth_ancestor(commits, from, j),
        i <= k,
    ensures
        nth_ancestor(commits, from, k) == nth_ancestor(commits, from, (k + (j - i)) as nat),
    decreases k - i,
{
    if k > i {
        lemma_period(commits, from, i, j, (k - 1) as nat);
    }
}

proof fn lemma_cycle_never_meets(
    commits: Commits,
    bad: GitCommitId,
    good: GitCommitId,
    i: nat,
    j: nat,
    n: nat,
)
    requires
        i < j,
        nth_ancestor(commits, bad, i) == nth_ancestor(commits, bad, j),
        forall|m: nat|
            m < j ==> #[trigger] nth_ancestor(commits, bad, m) is Some && nth_ancestor(
                commits,
                bad,
                m,
            ) != Some(good) && !ends_at(commits, bad, m),
    ensures
        nth_ancestor(commits, bad, n) != Some(good),
        !ends_at(commits, bad, n),
    decreases n,
{
    if n >= j {
        let earlier = (n - (j - i)) as nat;
        lemma_period(commits, bad, i, j, earlier);
        lemma_cycle_never_meets(commits, bad, good, i, j, earlier);
    } else {
        assert(nth_ancestor(commits, bad, n) is Some);
    }
}

/// Collects the first-parent commits from `bad` down to `good`.
pub fn first_parent_range(
    commits: &OrderedMap<GitCommitId, GitCommit>,
    bad: GitCommitId,
    good: GitCommitId,
) -> (r: Result<Vec<GitCommitId>, GitCompatStateError>)
    ensures
        match r {
            Ok(range) => parent_range(commits@, bad, good) == Ok::<
                Seq<GitCommitId>,
                StateErrorView,
            >(range@),
            Err(error) => parent_range(commits@, bad, good) == Err::<
                Seq<GitCommitId>,
                StateErrorView,
            >(error@),
        },
{
    let total = commits.len();
    let mut range: Vec<GitCommitId> = Vec::new();
    let mut seen: OrderedSet<GitCommitId> = OrderedSet::new();
    let mut commit = bad;
    assert(range@.to_set() =~= Set::<GitCommitId>::empty());
    loop
        invariant
            total == commits@.dom().len(),
            commits@.dom().finite(),
            nth_ancestor(commits@, bad, range@.len()) == Some(commit),
            seen@ == range@.to_set(),
            range@.no_duplicates(),
            forall|m: nat|
                m < range@.len() ==> #[trigger] nth_ancestor(commits@, bad, m) == Some(
                    range@[m as int],
                ) && range@[m as int] != good && commits@.dom().contains(range@[m as int])
                    && commits@[range@[m as int]].parents.len() > 0,
        decreases total + 1 - range@.len(),
    {
        let ghost at = range@.len();
        proof {
            range@.unique_seq_to_set();
            assert(range@.to_set().subset_of(commits@.dom())) by {
                assert forall|id: GitCommitId| range@.to_set().contains(id) implies
                    commits@.dom().contains(id) by {
                    let k = range@.index_of(id);
                    assert(nth_ancestor(commits@, bad, k as nat) == Some(range@[k]));
                }
            }
            vstd::set_lib::lemma_len_subset(range@.to_set(), commits@.dom());
        }
        if !seen.insert(commit) {
            proof {
                let i = range@.index_of(commit);
                assert(range@.contains(commit));
                assert(nth_ancestor(commits@, bad, i as nat) == Some(range@[i]));
                assert forall|m: nat| m < at implies #[trigger] nth_ancestor(
                    commits@,
                    bad,
                    m,
                ) is Some && nth_ancestor(commits@, bad, m) != Some(good) && !ends_at(
                    commits@,
                    bad,
                    m,
                ) by {
                    assert(nth_ancestor(commits@, bad, m) == Some(range@[m as int]));
                }
                assert forall|n: nat| !meets(commits@, bad, good, n) by {
                    lemma_cycle_never_meets(commits@, bad, good, i as nat, at, n);
                }
                assert forall|n: nat| !ends_at(commits@, bad, n) by {
                    lemma_cycle_never_meets(commits@, bad, good, i as nat, at, n);
                }
            }
            return Err(GitCompatStateError::Invalid);
        }
        let ghost before = range@;
        range.push(commit);
        proof {
            lemma_to_set_push(before, commit);
            assert forall|i: int, j: int|
                0 <= i < range@.len() && 0 <= j < range@.len() && i != j implies range@[i]
                != range@[j] by {
                if i < at && j < at {
                    assert(before[i] != before[j]);
                } else if i < at {
                    assert(before.contains(before[i]));
                } else {
                    assert(before.contains(before[j]));
                }
            }
        }
        if commit == good {
            proof {
                assert(meets(commits@, bad, good, at)) by {
                    assert forall|m: nat| m < at implies (#[trigger] nth_ancestor(
                        commits@,
                        bad,
                        m,
                    )) is Some && nth_ancestor(commits@, bad, m) != Some(good) by {
                        assert(nth_ancestor(commits@, bad, m) == Some(before[m as int]));
                    }
                }
                let n = choose|n: nat| meets(commits@, bad, good, n);
                lemma_meets_unique(commits@, bad, good, at, n);
                assert forall|i: int| 0 <= i < range@.len() implies nth_ancestor(
                    commits@,
                    bad,
                    i as nat,
                )->0 == range@[i] by {
                    if i < at {
                        assert(nth_ancestor(commits@, bad, i as nat) == Some(before[i]));
                    }
                }
                assert(range@ =~= Seq::new(
                    n + 1,
                    |i: int| nth_ancestor(commits@, bad, i as nat)->0,
                ));
            }
            return Ok(range);
        }
        let found = match commits.get(&commit) {
            Some(found) => found,
            None => {
                proof {
                    assert(nth_ancestor(commits@, bad, at + 1) is None);
                    assert forall|n: nat| !meets(commits@, bad, good, n) && !ends_at(
                        commits@,
                        bad,
                        n,
                    ) by {
                        if n < at {
                            assert(nth_ancestor(commits@, bad, n) == Some(before[n as int]));
                        } else if n > at {
                            lemma_ancestors_stop(commits@, bad, at + 1, n);
                        }
                    }
                }
                return Err(GitCompatStateError::Invalid);
            },
        };
        if found.parents.len() == 0 {
            proof {
                assert(ends_at(commits@, bad, at));
                assert(nth_ancestor(commits@, bad, at + 1) is None);
                assert forall|n: nat| !meets(commits@, bad, good, n) by {
                    if n < at {
                        assert(nth_ancestor(commits@, bad, n) == Some(before[n as int]));
                    } else if n > at {
                        lemma_ancestors_stop(commits@, bad, at + 1, n);
                    }
                }
            }
            return Err(
                GitCompatStateError::Bisect(
                    "the good commit is not a first-parent ancestor of the bad commit".to_owned(),
                ),
            );
        }
        proof {
            assert(nth_ancestor(commits@, bad, at + 1) == Some(found.parents@[0]));
            assert forall|m: nat| m < range@.len() implies #[trigger] nth_ancestor(
                commits@,
                bad,
                m,
            ) == Some(range@[m as int]) && range@[m as int] != good && commits@.dom().contains(
                range@[m as int],
            ) && commits@[range@[m as int]].parents.len() > 0 by {
                if m < at {
                    assert(nth_ancestor(commits@, bad, m) == Some(before[m as int]));
                }
            }
            range@.unique_seq_to_set();
            assert(range@.to_set().subset_of(commits@.dom())) by {
                assert forall|id: GitCommitId| range@.to_set().contains(id) implies
                    commits@.dom().contains(id) by {
                    let k = range@.index_of(id);
                    assert(nth_ancestor(commits@, bad, k as nat) == Some(range@[k]));
                }
            }
            vstd::set_lib::lemma_len_subset(range@.to_set(), commits@.dom());
        }
        commit = found.parents[0];
    }
}

} // verus!
