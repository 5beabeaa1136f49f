//! What names, histories and commands are for.

use super::ancestry::{distance, distance_is, is_common, merge_base, reached};
use super::complete::completed;
use super::execute::executed;
use super::history::{
    abbreviated, current_branch, first_parent_history, meets, nth_ancestor, parent_range, resolved,
    Commits, StateErrorView,
};
use super::paths::{below, selection, trimmed};
use super::types::{
    ActionView, BranchView, CommandView, GitCommitId, GitDirtyState, GitResetMode, GitTransitionId,
    GitTreeRef, OutputView, ResultView, StateView,
};
use crate::digest::hex_chars;
use crate::foundation::WorkspaceId;
use crate::order::{ascending, bytes_lt, enumerates};
use vstd::prelude::*;
use vstd::string::*;

verus! {

/// Whether a state has a selected branch, and no bisection runs.
pub open spec fn ready(state: StateView, branch: BranchView) -> bool {
    &&& state.bisect is None
    &&& state.branches.dom().contains(state.current_branch)
    &&& state.branches[state.current_branch] == branch
}

proof fn lemma_filter_once(ids: Seq<GitCommitId>, wanted: spec_fn(GitCommitId) -> bool)
    requires
        ids.no_duplicates(),
    ensures
        ids.filter(wanted).no_duplicates(),
        forall|id: GitCommitId| #[trigger]
            ids.filter(wanted).contains(id) == (ids.contains(id) && wanted(id)),
    decreases ids.len(),
{
    reveal(Seq::filter);
    let found = ids.filter(wanted);
    if ids.len() > 0 {
        let front = ids.drop_last();
        let last = ids.last();
        lemma_filter_once(front, wanted);
        assert(!front.contains(last)) by {
            if front.contains(last) {
                let i = front.index_of(last);
                assert(ids[i] == ids[ids.len() - 1]);
            }
        }
        let earlier = front.filter(wanted);
        assert(!earlier.contains(last));
        assert forall|id: GitCommitId| #[trigger] found.contains(id) == (ids.contains(id)
            && wanted(id)) by {
            if found.contains(id) {
                let i = found.index_of(id);
                if i < earlier.len() {
                    assert(earlier[i] == id);
                    assert(earlier.contains(id));
                    let j = front.index_of(id);
                    assert(ids[j] == id);
                } else {
                    assert(ids[ids.len() - 1] == id);
                }
            }
            if ids.contains(id) && wanted(id) {
                let j = ids.index_of(id);
                if j < front.len() {
                    assert(front[j] == id);
                    assert(earlier.contains(id));
                    let i = earlier.index_of(id);
                    assert(found[i] == id);
                } else {
                    assert(found[earlier.len() as int] == id);
                }
            }
        }
        assert forall|i: int, j: int| 0 <= i < j < found.len() implies found[i] != found[j] by {
            if j < earlier.len() {
                assert(earlier[i] != earlier[j]);
            } else {
                assert(earlier[i] == found[i]);
                assert(earlier.contains(found[i]));
            }
        }
    }
}

/// Names denote commits: `HEAD` and no name the head of the selected branch, or the commit
/// that a bisection looks at; the name of a branch its head; the name of a tag its commit;
/// and any other the only commit whose identity it begins to spell.
pub proof fn names_denote_commits(state: StateView, name: Seq<char>, id: GitCommitId)
    requires
        enumerates::<GitCommitId>(
            ascending::<GitCommitId>(state.commits.dom()),
            state.commits.dom(),
        ),
    ensures
        state.bisect matches Some(session) && session.current == Some(id) ==> resolved(state, None)
            == Ok::<GitCommitId, StateErrorView>(id),
        (state.bisect is None || state.bisect->0.current is None) && state.branches.dom().contains(
            state.current_branch,
        ) ==> resolved(state, None) == (match state.branches[state.current_branch].head {
            Some(head) => Ok::<GitCommitId, StateErrorView>(head),
            None => Err(StateErrorView::UnbornHead),
        }),
        resolved(state, Some("HEAD"@)) == resolved(state, None),
        name != "HEAD"@ && state.branches.dom().contains(name) ==> resolved(state, Some(name)) == (
        match state.branches[name].head {
            Some(head) => Ok::<GitCommitId, StateErrorView>(head),
            None => Err(StateErrorView::UnbornHead),
        }),
        name != "HEAD"@ && !state.branches.dom().contains(name) && state.tags.dom().contains(name)
            ==> resolved(state, Some(name)) == Ok::<GitCommitId, StateErrorView>(state.tags[name]),
        name != "HEAD"@ && !state.branches.dom().contains(name) && !state.tags.dom().contains(name)
            ==> {
            &&& (resolved(state, Some(name)) == Ok::<GitCommitId, StateErrorView>(id)) == (
            state.commits.dom().contains(id) && name.is_prefix_of(hex_chars(id.bytes@)) && forall|
                other: GitCommitId,
            | #[trigger]
                state.commits.dom().contains(other) && other != id ==> !name.is_prefix_of(
                    hex_chars(other.bytes@),
                ))
            &&& resolved(state, Some(name)) is Ok || resolved(state, Some(name)) == Err::<
                GitCommitId,
                StateErrorView,
            >(StateErrorView::Unknown(name))
        },
{
    let ids = ascending::<GitCommitId>(state.commits.dom());
    let wanted = |other: GitCommitId| name.is_prefix_of(hex_chars(other.bytes@));
    let found = abbreviated(state.commits, name);
    assert(found == ids.filter(wanted));
    lemma_filter_once(ids, wanted);
    assert forall|other: GitCommitId| ids.contains(other) == state.commits.dom().contains(
        other,
    ) by {
        assert(ids.to_set().contains(other) == ids.contains(other));
    }
    if state.commits.dom().contains(id) && wanted(id) {
        assert(found.contains(id));
        let at = found.index_of(id);
        if forall|other: GitCommitId| #[trigger]
            state.commits.dom().contains(other) && other != id ==> !wanted(other) {
            if found.len() > 1 {
                let next = if at == 0 {
                    1int
                } else {
                    0int
                };
                assert(found.contains(found[next]));
            }
        }
    }
    if found.len() == 1 {
        assert(found.contains(found[0]));
        assert forall|other: GitCommitId| #[trigger]
            state.commits.dom().contains(other) && other != found[0] implies !wanted(other) by {
            if wanted(other) {
                assert(found.contains(other));
            }
        }
    }
}

/// A history starts at its commit, goes on with first parents, holds no more commits than
/// admitted, and ends earlier only where there is no further one.
pub proof fn histories_follow_first_parents(
    commits: Commits,
    start: Option<GitCommitId>,
    maximum: nat,
)
    ensures
        ({
            let history = first_parent_history(commits, start, maximum);
            &&& history.len() <= maximum
            &&& history.len() > 0 ==> start is Some && commits.dom().contains(start->0)
                && history[0] == commits[start->0]
            &&& forall|i: int|
                0 <= i < history.len() - 1 ==> (#[trigger] history[i]).parents.len() > 0
                    && commits.dom().contains(history[i].parents[0]) && history[i + 1]
                    == commits[history[i].parents[0]]
            &&& history.len() == 0 && maximum > 0 ==> start is None || !commits.dom().contains(
                start->0,
            )
            &&& 0 < history.len() < maximum ==> history.last().parents.len() == 0
                || !commits.dom().contains(history.last().parents[0])
        }),
    decreases maximum,
{
    let history = first_parent_history(commits, start, maximum);
    if maximum > 0 && start is Some && commits.dom().contains(start->0) {
        let commit = commits[start->0];
        let parent = if commit.parents.len() > 0 {
            Some(commit.parents[0])
        } else {
            None
        };
        let rest = first_parent_history(commits, parent, (maximum - 1) as nat);
        histories_follow_first_parents(commits, parent, (maximum - 1) as nat);
        assert(history == seq![commit] + rest);
        assert(history[0] == commit);
        assert forall|i: int| 0 <= i < history.len() - 1 implies (
        #[trigger] history[i]).parents.len() > 0 && commits.dom().contains(history[i].parents[0])
            && history[i + 1] == commits[history[i].parents[0]] by {
            assert(history[i + 1] == rest[i]);
            if i > 0 {
                assert(history[i] == rest[i - 1]);
                assert(rest[i] == rest[i - 1 + 1]);
            }
        }
        if rest.len() > 0 {
            assert(history.last() == rest.last());
        }
    }
}

/// Whether commits lead from the first to the last, each by one of its parents.
pub open spec fn is_chain(commits: Commits, chain: Seq<GitCommitId>) -> bool {
    forall|i: int|
        0 <= i < chain.len() - 1 ==> commits.dom().contains(#[trigger] chain[i])
            && commits[chain[i]].parents.contains(chain[i + 1])
}

/// Whether such commits lead from one to another in so many steps.
pub open spec fn leads(
    commits: Commits,
    from: GitCommitId,
    to: GitCommitId,
    steps: nat,
    chain: Seq<GitCommitId>,
) -> bool {
    is_chain(commits, chain) && chain.len() == steps + 1 && chain[0] == from && chain.last() == to
}

/// What is reached in so many steps is what chains of so many steps lead to.
pub proof fn reaching_is_by_chains(
    commits: Commits,
    from: GitCommitId,
    to: GitCommitId,
    steps: nat,
)
    ensures
        reached(commits, from, steps).contains(to) == exists|chain: Seq<GitCommitId>| #[trigger]
            leads(commits, from, to, steps, chain),
    decreases steps,
{
    if steps == 0 {
        if from == to {
            assert(leads(commits, from, to, 0, seq![from]));
        }
    } else {
        let fewer = (steps - 1) as nat;
        if reached(commits, from, steps).contains(to) {
            let child = choose|child: GitCommitId| #[trigger]
                reached(commits, from, fewer).contains(child) && super::ancestry::parents_of(
                    commits,
                    child,
                ).contains(to);
            reaching_is_by_chains(commits, from, child, fewer);
            let chain = choose|chain: Seq<GitCommitId>| #[trigger]
                leads(commits, from, child, fewer, chain);
            let longer = chain.push(to);
            assert forall|i: int| 0 <= i < longer.len() - 1 implies commits.dom().contains(
                #[trigger] longer[i],
            ) && commits[longer[i]].parents.contains(longer[i + 1]) by {
                assert(longer[i] == chain[i]);
                if i < chain.len() - 1 {
                    assert(longer[i + 1] == chain[i + 1]);
                }
            }
            assert(leads(commits, from, to, steps, longer));
        }
        if exists|chain: Seq<GitCommitId>| #[trigger] leads(commits, from, to, steps, chain) {
            let chain = choose|chain: Seq<GitCommitId>| #[trigger]
                leads(commits, from, to, steps, chain);
            let shorter = chain.drop_last();
            let child = shorter.last();
            assert(commits.dom().contains(chain[chain.len() - 2]));
            assert forall|i: int| 0 <= i < shorter.len() - 1 implies commits.dom().contains(
                #[trigger] shorter[i],
            ) && commits[shorter[i]].parents.contains(shorter[i + 1]) by {
                assert(shorter[i] == chain[i] && shorter[i + 1] == chain[i + 1]);
            }
            assert(leads(commits, from, child, fewer, shorter));
            reaching_is_by_chains(commits, from, child, fewer);
            assert(super::ancestry::parents_of(commits, child).contains(to));
        }
    }
}

proof fn lemma_distance_reaches(commits: Commits, from: GitCommitId, to: GitCommitId, steps: nat)
    requires
        reached(commits, from, steps).contains(to),
    ensures
        distance_is(commits, from, to, distance(commits, from, to)),
        distance(commits, from, to) <= steps,
    decreases steps,
{
    if distance_is(commits, from, to, steps) {
        let chosen = distance(commits, from, to);
        assert(chosen == steps);
    } else {
        let fewer = choose|fewer: nat|
            fewer < steps && #[trigger] reached(commits, from, fewer).contains(to);
        lemma_distance_reaches(commits, from, to, fewer);
    }
}

/// The merge base of two commits is reached from both. No other commit is reached from
/// both by fewer steps together; where as many lead to another, no fewer of them are from
/// the left; and where these are as many too, its identity comes first.
pub proof fn merge_bases_are_nearest(
    commits: Commits,
    left: GitCommitId,
    right: GitCommitId,
    other: GitCommitId,
    from_left: Seq<GitCommitId>,
    from_right: Seq<GitCommitId>,
) -> (steps: (nat, nat))
    requires
        merge_base(commits, left, right) is Some,
        from_left.len() > 0,
        from_right.len() > 0,
        leads(commits, left, other, (from_left.len() - 1) as nat, from_left),
        leads(commits, right, other, (from_right.len() - 1) as nat, from_right),
        other != merge_base(commits, left, right)->0,
    ensures
        ({
            let base = merge_base(commits, left, right)->0;
            let (a, b) = steps;
            let (x, y) = ((from_left.len() - 1) as nat, (from_right.len() - 1) as nat);
            &&& exists|chain: Seq<GitCommitId>| #[trigger] leads(commits, left, base, a, chain)
            &&& exists|chain: Seq<GitCommitId>| #[trigger] leads(commits, right, base, b, chain)
            &&& a + b <= x + y
            &&& a + b == x + y ==> a <= x
            &&& a + b == x + y && a == x ==> bytes_lt(base.bytes@, other.bytes@)
        }),
{
    let base = merge_base(commits, left, right)->0;
    let (x, y) = ((from_left.len() - 1) as nat, (from_right.len() - 1) as nat);
    reaching_is_by_chains(commits, left, other, x);
    reaching_is_by_chains(commits, right, other, y);
    assert(reached(commits, left, x).contains(other));
    assert(reached(commits, right, y).contains(other));
    assert(is_common(commits, left, right, other));
    assert(super::ancestry::is_merge_base(commits, left, right, base));
    let i = choose|i: nat| #[trigger] reached(commits, left, i).contains(base);
    let j = choose|j: nat| #[trigger] reached(commits, right, j).contains(base);
    lemma_distance_reaches(commits, left, base, i);
    lemma_distance_reaches(commits, right, base, j);
    lemma_distance_reaches(commits, left, other, x);
    lemma_distance_reaches(commits, right, other, y);
    let a = distance(commits, left, base);
    let b = distance(commits, right, base);
    reaching_is_by_chains(commits, left, base, a);
    reaching_is_by_chains(commits, right, base, b);
    (a, b)
}

/// The first-parent range from a bad commit to a good one: where first parents lead from
/// the one to the other, they are the range, from end to end, and meet the good commit
/// only at the end.
pub proof fn ranges_follow_first_parents(
    commits: Commits,
    bad: GitCommitId,
    good: GitCommitId,
    range: Seq<GitCommitId>,
)
    ensures
        (parent_range(commits, bad, good) == Ok::<Seq<GitCommitId>, StateErrorView>(range)) == ({
            &&& range.len() > 0
            &&& range[0] == bad
            &&& range.last() == good
            &&& forall|i: int|
                0 <= i < range.len() - 1 ==> (#[trigger] range[i]) != good
                    && commits.dom().contains(range[i]) && commits[range[i]].parents.len() > 0
                    && range[i + 1] == commits[range[i]].parents[0]
        }),
{
    if parent_range(commits, bad, good) == Ok::<Seq<GitCommitId>, StateErrorView>(range) {
        let n = choose|n: nat| meets(commits, bad, good, n);
        assert(meets(commits, bad, good, n));
        assert(range.len() == n + 1);
        assert(nth_ancestor(commits, bad, 0) == Some(bad));
        assert(range[0] == bad);
        assert(range[n as int] == good);
        assert forall|i: int| 0 <= i < range.len() - 1 implies (#[trigger] range[i]) != good
            && commits.dom().contains(range[i]) && commits[range[i]].parents.len() > 0 && range[i
            + 1] == commits[range[i]].parents[0] by {
            assert(nth_ancestor(commits, bad, i as nat) is Some);
            assert(nth_ancestor(commits, bad, (i + 1) as nat) is Some);
            assert(range[i + 1] == nth_ancestor(commits, bad, (i + 1) as nat)->0);
        }
    }
    if range.len() > 0 && range[0] == bad && range.last() == good && (forall|i: int|
        0 <= i < range.len() - 1 ==> (#[trigger] range[i]) != good && commits.dom().contains(
            range[i],
        ) && commits[range[i]].parents.len() > 0 && range[i + 1] == commits[range[i]].parents[0]) {
        let n = (range.len() - 1) as nat;
        assert forall|i: nat| i <= n implies #[trigger] nth_ancestor(commits, bad, i) == Some(
            range[i as int],
        ) by {
            lemma_along(commits, bad, good, range, i);
        }
        assert(meets(commits, bad, good, n));
        let m = choose|m: nat| meets(commits, bad, good, m);
        assert(m == n) by {
            if m < n {
                assert(nth_ancestor(commits, bad, m) == Some(range[m as int]));
                assert(range[m as int] != good);
            }
            if n < m {
                assert(nth_ancestor(commits, bad, n) != Some(good));
            }
        }
        assert(parent_range(commits, bad, good)->Ok_0 =~= range);
    }
}

proof fn lemma_along(
    commits: Commits,
    bad: GitCommitId,
    good: GitCommitId,
    range: Seq<GitCommitId>,
    i: nat,
)
    requires
        i < range.len(),
        range[0] == bad,
        forall|i: int|
            0 <= i < range.len() - 1 ==> (#[trigger] range[i]) != good && commits.dom().contains(
                range[i],
            ) && commits[range[i]].parents.len() > 0 && range[i + 1]
                == commits[range[i]].parents[0],
    ensures
        nth_ancestor(commits, bad, i) == Some(range[i as int]),
    decreases i,
{
    if i > 0 {
        lemma_along(commits, bad, good, range, (i - 1) as nat);
        assert(commits.dom().contains(range[i - 1]));
    }
}

/// Inspecting changes nothing. The status is clean exactly where the live tree is the one
/// recorded with the head; a difference is from the tree of the head to the live one; the
/// log is the history of the head; and the files listed are the tracked ones.
pub proof fn inspections_tell_the_state(
    state: StateView,
    branch: BranchView,
    workspace: GitTreeRef,
    transition: GitTransitionId,
    maximum: u32,
    cached: bool,
)
    requires
        ready(state, branch),
    ensures
        ({
            let recorded = branch.head is Some && state.commits.dom().contains(branch.head->0);
            let status = executed(state, CommandView::Status, workspace, transition);
            let diff = executed(state, CommandView::Diff { cached }, workspace, transition);
            let log = executed(state, CommandView::Log { maximum }, workspace, transition);
            let files = executed(state, CommandView::LsFiles, workspace, transition);
            &&& status.state == state && diff.state == state && log.state == state && files.state
                == state
            &&& status.output matches Ok(OutputView::Status(report)) && report.branch
                == branch.name && report.head == branch.head && report.workspace == workspace && (
            report.dirty == GitDirtyState::Clean) == (recorded
                && state.commits[branch.head->0].workspace_tree == workspace)
            &&& diff.output == Ok::<OutputView, StateErrorView>(
                OutputView::Action(
                    ActionView::Diff {
                        from: if recorded {
                            Some(state.commits[branch.head->0].tree)
                        } else {
                            None
                        },
                        to: workspace,
                    },
                ),
            )
            &&& log.output == Ok::<OutputView, StateErrorView>(
                OutputView::Commits(first_parent_history(state.commits, branch.head, maximum as nat)),
            )
            &&& files.output == Ok::<OutputView, StateErrorView>(
                OutputView::Paths(ascending::<String>(branch.tracked_paths)),
            )
        }),
{
}

/// A tag that was created denotes its commit, until it is deleted; other tags stay, and
/// nothing else changes.
pub proof fn tags_denote_what_they_were_put_on(
    state: StateView,
    branch: BranchView,
    workspace: GitTreeRef,
    transition: GitTransitionId,
    name: Seq<char>,
    target: Option<Seq<char>>,
    id: GitCommitId,
)
    requires
        ready(state, branch),
        resolved(state, target) == Ok::<GitCommitId, StateErrorView>(id),
        name != "HEAD"@,
        !state.branches.dom().contains(name),
    ensures
        ({
            let made = executed(
                state,
                CommandView::Tag { name: Some(name), target, delete: false },
                workspace,
                transition,
            );
            let gone = executed(
                made.state,
                CommandView::Tag { name: Some(name), target: None, delete: true },
                workspace,
                transition,
            );
            &&& made.output is Ok && gone.output is Ok
            &&& resolved(made.state, Some(name)) == Ok::<GitCommitId, StateErrorView>(id)
            &&& made.state == (StateView { tags: made.state.tags, ..state })
            &&& made.output == Ok::<OutputView, StateErrorView>(OutputView::Tags(made.state.tags))
            &&& forall|other: Seq<char>|
                other != name ==> (#[trigger] made.state.tags.dom().contains(other)
                    == state.tags.dom().contains(other)) && made.state.tags[other]
                    == state.tags[other]
            &&& !gone.state.tags.dom().contains(name)
            &&& gone.state == (StateView { tags: state.tags.remove(name), ..state })
        }),
{
    let made = executed(
        state,
        CommandView::Tag { name: Some(name), target, delete: false },
        workspace,
        transition,
    );
    assert(made.state.tags.remove(name) =~= state.tags.remove(name));
}

/// A commit is prepared where the live tree is not the one recorded with the head, and
/// refused otherwise. Once the tree is captured, the log is the new commit, with the
/// message, author and time given, in front of the earlier log.
pub proof fn commits_extend_the_log<E>(
    state: StateView,
    branch: BranchView,
    workspace: GitTreeRef,
    transition: GitTransitionId,
    message: Seq<char>,
    author: Seq<char>,
    authored_at_seconds: i64,
    tree: GitTreeRef,
    tracked_paths: Set<Seq<char>>,
)
    requires
        ready(state, branch),
    ensures
        ({
            let command = CommandView::Commit { message, author, authored_at_seconds };
            let step = executed(state, command, workspace, transition);
            let recorded = branch.head is Some && state.commits.dom().contains(branch.head->0);
            if recorded && state.commits[branch.head->0].workspace_tree == workspace {
                step.output == Err::<OutputView, StateErrorView>(StateErrorView::NothingToCommit)
            } else {
                &&& step.output matches Ok(OutputView::Prepared { transition: named, action })
                    && named == transition && (action matches ActionView::CaptureCommit {
                    workspace_tree,
                    tracked_paths: known,
                    ..
                } && workspace_tree == workspace && known == branch.tracked_paths)
                &&& step.state == (StateView { pending: step.state.pending, ..state })
                &&& step.state.pending matches Some(pending) && pending.id == transition && {
                    let done = completed::<E>(
                        state,
                        pending.mutation,
                        ResultView::Captured { tree, tracked_paths },
                    );
                    recorded && state.commits[branch.head->0].tree == tree || (
                    done.output matches Ok(OutputView::Committed(commit)) && commit.message
                        == message && commit.author == author && commit.authored_at_seconds
                        == authored_at_seconds && commit.tree == tree && commit.workspace_tree
                        == workspace && commit.tracked_paths == tracked_paths && commit.parents
                        == (match branch.head {
                        Some(head) => seq![head],
                        None => Seq::empty(),
                    }) && done.state.commits == state.commits.insert(commit.id, commit)
                        && done.state.branches[state.current_branch].head == Some(commit.id)
                        && done.state.branches[state.current_branch].tracked_paths == tracked_paths
                        && done.state.current_branch == state.current_branch && done.state.tags
                        == state.tags && done.state.stash == state.stash)
                }
            }
        }),
{
    let parents = super::complete::parents_from(branch.head, None);
    assert(parents =~= (match branch.head {
        Some(head) => seq![head],
        None => Seq::empty(),
    }));
}

/// A new branch starts at the head of the selected one, in the workspace forked for it,
/// and is selected where that was asked for; other branches stay. A branch that exists is
/// not created again.
pub proof fn branches_start_at_the_head<E>(
    state: StateView,
    branch: BranchView,
    workspace: GitTreeRef,
    transition: GitTransitionId,
    name: Seq<char>,
    switch: bool,
    workspace_id: WorkspaceId,
)
    requires
        ready(state, branch),
    ensures
        ({
            let command = if switch {
                CommandView::Switch { branch: name, create: true }
            } else {
                CommandView::Branch { create: Some(name) }
            };
            let step = executed(state, command, workspace, transition);
            if state.branches.dom().contains(name) {
                !switch ==> step.output == Err::<OutputView, StateErrorView>(
                    StateErrorView::BranchExists(name),
                )
            } else {
                &&& step.output == Ok::<OutputView, StateErrorView>(
                    OutputView::Prepared {
                        transition,
                        action: ActionView::ForkBranch {
                            branch: name,
                            source_tree: workspace,
                            head: branch.head,
                            switch,
                        },
                    },
                )
                &&& step.state.pending matches Some(pending) && {
                    let done = completed::<E>(
                        state,
                        pending.mutation,
                        ResultView::Forked { workspace_id },
                    );
                    &&& done.output is Ok
                    &&& done.state.branches.dom() == state.branches.dom().insert(name)
                    &&& done.state.branches[name].name == name
                    &&& done.state.branches[name].head == branch.head
                    &&& done.state.branches[name].workspace_id == workspace_id
                    &&& forall|other: Seq<char>| #[trigger]
                        state.branches.dom().contains(other) ==> done.state.branches[other]
                            == state.branches[other]
                    &&& done.state.current_branch == if switch {
                        name
                    } else {
                        state.current_branch
                    }
                    &&& done.state.commits == state.commits
                }
            }
        }),
{
}

/// Switching to a branch selects it and its workspace; nothing else changes, and
/// switching back undoes it. A branch that does not exist cannot be switched to.
pub proof fn switching_selects_a_branch<E>(
    state: StateView,
    branch: BranchView,
    workspace: GitTreeRef,
    transition: GitTransitionId,
    name: Seq<char>,
    create: bool,
    result: ResultView,
)
    requires
        ready(state, branch),
    ensures
        ({
            let step = executed(
                state,
                CommandView::Switch { branch: name, create },
                workspace,
                transition,
            );
            if state.branches.dom().contains(name) {
                &&& step.output == Ok::<OutputView, StateErrorView>(
                    OutputView::Prepared {
                        transition,
                        action: ActionView::SwitchWorkspace {
                            workspace_id: state.branches[name].workspace_id,
                        },
                    },
                )
                &&& step.state.pending matches Some(pending) && {
                    let done = completed::<E>(state, pending.mutation, result);
                    done.output is Ok && done.state == (StateView { current_branch: name, ..state })
                }
            } else {
                !create ==> step.output == Err::<OutputView, StateErrorView>(
                    StateErrorView::Unknown(name),
                )
            }
        }),
{
}

/// A reset moves the head of the selected branch to the commit named, with its tracked
/// paths, and logs the head before it; commits and other branches stay. A hard reset also
/// restores the tree of the commit, over the paths tracked before or after.
pub proof fn resets_move_the_head<E>(
    state: StateView,
    branch: BranchView,
    workspace: GitTreeRef,
    transition: GitTransitionId,
    target: Seq<char>,
    id: GitCommitId,
    mode: GitResetMode,
    result: ResultView,
)
    requires
        ready(state, branch),
        resolved(state, Some(target)) == Ok::<GitCommitId, StateErrorView>(id),
        state.commits.dom().contains(id),
    ensures
        ({
            let commit = state.commits[id];
            let step = executed(state, CommandView::Reset { target, mode }, workspace, transition);
            let moved = if mode == GitResetMode::Hard {
                completed::<E>(state, step.state.pending->0.mutation, result).state
            } else {
                step.state
            };
            &&& step.output is Ok
            &&& mode == GitResetMode::Hard ==> step.state.pending is Some && step.output == Ok::<
                OutputView,
                StateErrorView,
            >(
                OutputView::Prepared {
                    transition,
                    action: ActionView::RestoreGeneration {
                        tree: commit.tree,
                        paths: Some(branch.tracked_paths.union(commit.tracked_paths)),
                    },
                },
            )
            &&& moved.branches[state.current_branch].head == Some(id)
            &&& moved.branches[state.current_branch].tracked_paths == commit.tracked_paths
            &&& moved.branches[state.current_branch].workspace_id == branch.workspace_id
            &&& moved.reflog == seq![branch.head] + state.reflog
            &&& moved.commits == state.commits && moved.tags == state.tags && moved.stash
                == state.stash && moved.current_branch == state.current_branch
            &&& forall|other: Seq<char>| #[trigger]
                state.branches.dom().contains(other) && other != state.current_branch
                    ==> moved.branches[other] == state.branches[other]
        }),
{
}

/// A merge records a commit on top of both heads, and a rebase one on top of the other
/// head; either becomes the head of the selected branch with the tree that the join left.
pub proof fn joins_record_their_parents<E>(
    state: StateView,
    branch: BranchView,
    workspace: GitTreeRef,
    transition: GitTransitionId,
    name: Seq<char>,
    rebase: bool,
    mine: GitCommitId,
    theirs: GitCommitId,
    tree: GitTreeRef,
    paths: Set<Seq<char>>,
)
    requires
        ready(state, branch),
        branch.head == Some(mine),
        state.branches.dom().contains(name),
        state.branches[name].head == Some(theirs),
    ensures
        ({
            let source = state.branches[name];
            let command = if rebase {
                CommandView::Rebase { branch: name }
            } else {
                CommandView::Merge { branch: name }
            };
            let step = executed(state, command, workspace, transition);
            &&& step.output == Ok::<OutputView, StateErrorView>(
                OutputView::Prepared {
                    transition,
                    action: ActionView::Join {
                        target_tree: workspace,
                        source_workspace: source.workspace_id,
                        rebase,
                        tracked_paths: branch.tracked_paths.union(source.tracked_paths),
                    },
                },
            )
            &&& step.state.pending matches Some(pending) && {
                let done = completed::<E>(
                    state,
                    pending.mutation,
                    ResultView::Applied { tree: Some(tree), tracked_paths: Some(paths) },
                );
                &&& done.output matches Ok(OutputView::Committed(commit)) && commit.parents == (
                if rebase {
                    seq![theirs]
                } else {
                    seq![mine, theirs]
                }) && commit.tree == tree && commit.tracked_paths == paths
                    && done.state.branches[state.current_branch].head == Some(commit.id)
                    && done.state.commits == state.commits.insert(commit.id, commit)
                    && done.state.reflog == seq![Some(mine)] + state.reflog
            }
        }),
{
    assert(super::complete::parents_from(Some(mine), Some(theirs)) =~= seq![mine, theirs]);
    assert(super::complete::parents_from(Some(theirs), None) =~= seq![theirs]);
}

/// Picking a commit applies the change from its first parent to it, and reverting it the
/// change from it to its first parent; either records a commit on top of the head.
pub proof fn picks_and_reverts_are_opposite<E>(
    state: StateView,
    branch: BranchView,
    workspace: GitTreeRef,
    transition: GitTransitionId,
    object: Seq<char>,
    id: GitCommitId,
    parent: GitCommitId,
    head: GitCommitId,
    tree: GitTreeRef,
    paths: Set<Seq<char>>,
    reverse: bool,
)
    requires
        ready(state, branch),
        branch.head == Some(head),
        resolved(state, Some(object)) == Ok::<GitCommitId, StateErrorView>(id),
        state.commits.dom().contains(id),
        state.commits[id].parents.len() > 0,
        state.commits[id].parents[0] == parent,
        state.commits.dom().contains(parent),
    ensures
        ({
            let command = if reverse {
                CommandView::Revert { object }
            } else {
                CommandView::CherryPick { object }
            };
            let step = executed(state, command, workspace, transition);
            let older = state.commits[parent].tree;
            let newer = state.commits[id].tree;
            let touched = state.commits[parent].tracked_paths.union(
                state.commits[id].tracked_paths,
            );
            &&& step.output == Ok::<OutputView, StateErrorView>(
                OutputView::Prepared {
                    transition,
                    action: ActionView::ApplyCommit {
                        commit: id,
                        reverse,
                        base: Some(
                            if reverse {
                                newer
                            } else {
                                older
                            },
                        ),
                        source: Some(
                            if reverse {
                                older
                            } else {
                                newer
                            },
                        ),
                        paths: touched,
                        tracked_paths: branch.tracked_paths.union(touched),
                    },
                },
            )
            &&& step.state.pending matches Some(pending) && {
                let done = completed::<E>(
                    state,
                    pending.mutation,
                    ResultView::Applied { tree: Some(tree), tracked_paths: Some(paths) },
                );
                done.output matches Ok(OutputView::Committed(commit)) && commit.parents
                    == seq![head] && commit.tree == tree && commit.tracked_paths == paths
                    && done.state.branches[state.current_branch].head == Some(commit.id)
            }
        }),
{
    assert(super::complete::parents_from(Some(head), None) =~= seq![head]);
}

/// Stashing puts the live tree away and restores the tree recorded with the head; popping
/// restores the tree put away last.
pub proof fn stashes_come_back<E>(
    state: StateView,
    branch: BranchView,
    workspace: GitTreeRef,
    other: GitTreeRef,
    transition: GitTransitionId,
    head: GitCommitId,
    result: ResultView,
)
    requires
        ready(state, branch),
        branch.head == Some(head),
        state.commits.dom().contains(head),
    ensures
        ({
            let pushed = executed(state, CommandView::StashPush, workspace, transition);
            &&& pushed.output == Ok::<OutputView, StateErrorView>(
                OutputView::Prepared {
                    transition,
                    action: ActionView::RestoreGeneration {
                        tree: state.commits[head].workspace_tree,
                        paths: None,
                    },
                },
            )
            &&& pushed.state.pending matches Some(pending) && {
                let done = completed::<E>(state, pending.mutation, result);
                let popped = executed(done.state, CommandView::StashPop, other, transition);
                &&& done.output is Ok
                &&& popped.output == Ok::<OutputView, StateErrorView>(
                    OutputView::Prepared {
                        transition,
                        action: ActionView::RestoreGeneration { tree: workspace, paths: None },
                    },
                )
                &&& popped.state.pending matches Some(waiting) && {
                    let back = completed::<E>(done.state, waiting.mutation, result);
                    back.output is Ok && back.state.stash == state.stash
                }
            }
        }),
{
    let stash = state.stash.push(workspace);
    assert(stash.last() == workspace);
    assert(stash.drop_last() =~= state.stash);
}

/// Restoring takes the paths selected from the tree of the commit named: a path selects
/// itself and what is tracked below it, or itself alone where nothing tracked is.
pub proof fn restores_take_what_is_selected(
    paths: Seq<Seq<char>>,
    catalog: Set<Seq<char>>,
    found: Seq<char>,
)
    ensures
        selection(paths, catalog).contains(found) == exists|i: int|
            0 <= i < paths.len() && ({
                let path = trimmed(#[trigger] paths[i]);
                ||| catalog.contains(found) && (found == path || below(found, path))
                ||| found == path && path.len() > 0 && forall|other: Seq<char>| #[trigger]
                    catalog.contains(other) ==> other != path && !below(other, path)
            }),
    decreases paths.len(),
{
    if paths.len() > 0 {
        let front = paths.drop_last();
        restores_take_what_is_selected(front, catalog, found);
        let path = trimmed(paths.last());
        let matched = catalog.filter(|t: Seq<char>| t == path || below(t, path));
        assert(paths[paths.len() - 1] == paths.last());
        if matched == Set::<Seq<char>>::empty() {
            assert forall|other: Seq<char>| #[trigger] catalog.contains(other) implies other
                != path && !below(other, path) by {
                if other == path || below(other, path) {
                    assert(matched.contains(other));
                }
            }
        } else {
            assert(!(matched =~= Set::<Seq<char>>::empty()));
            let other = choose|other: Seq<char>| matched.contains(other);
            assert(matched.contains(other));
            assert(catalog.contains(other));
        }
        assert(forall|i: int| 0 <= i < front.len() ==> front[i] == paths[i]);
        if exists|i: int|
            0 <= i < front.len() && ({
                let path = trimmed(#[trigger] front[i]);
                ||| catalog.contains(found) && (found == path || below(found, path))
                ||| found == path && path.len() > 0 && forall|other: Seq<char>| #[trigger]
                    catalog.contains(other) ==> other != path && !below(other, path)
            }) {
            let i = choose|i: int|
                0 <= i < front.len() && ({
                    let path = trimmed(#[trigger] front[i]);
                    ||| catalog.contains(found) && (found == path || below(found, path))
                    ||| found == path && path.len() > 0 && forall|other: Seq<char>| #[trigger]
                        catalog.contains(other) ==> other != path && !below(other, path)
                });
            assert(paths[i] == front[i]);
        }
        if exists|i: int|
            0 <= i < paths.len() && ({
                let path = trimmed(#[trigger] paths[i]);
                ||| catalog.contains(found) && (found == path || below(found, path))
                ||| found == path && path.len() > 0 && forall|other: Seq<char>| #[trigger]
                    catalog.contains(other) ==> other != path && !below(other, path)
            }) {
            let i = choose|i: int|
                0 <= i < paths.len() && ({
                    let path = trimmed(#[trigger] paths[i]);
                    ||| catalog.contains(found) && (found == path || below(found, path))
                    ||| found == path && path.len() > 0 && forall|other: Seq<char>| #[trigger]
                        catalog.contains(other) ==> other != path && !below(other, path)
                });
            if i < front.len() {
                assert(front[i] == paths[i]);
            }
        }
    }
}

} // verus!
