//! What keeps a repository consistent.

use super::ancestry::{parents_of, reached};
use super::command_laws::{leads, reaching_is_by_chains, ready};
use super::commit::{commit_authentic, commit_made};
use super::complete::{captured, completed, parents_from, with_commit};
use super::execute::executed;
use super::history::{current_branch, record, resolved, Commits, StateErrorView};
use super::repository::{attempted, migrated, next_revision, offered, publish_attempt, AttemptView};
use super::types::{
    BranchView, CommandView, CommitView, GitCommitId, GitTransitionId, GitTreeRef, MutationView,
    OutputView, PublicationView, RequestView, ResultView, StateView,
};
use super::validate::{
    branch_valid, commit_valid, cyclic, external_valid, references_valid, state_valid,
    workspace_known,
};
use crate::foundation::WorkspaceId;
use vstd::prelude::*;
use vstd::string::*;

verus! {

/// Whether something is offered as the next state, with the next revision.
pub open spec fn is_offered<E>(state: StateView, output: OutputView) -> bool {
    offered::<E>(state, output) == AttemptView::<E>::Replace {
        expected: state.revision,
        replacement: StateView {
            revision: if state.revision == u64::MAX {
                u64::MAX
            } else {
                (state.revision + 1) as u64
            },
            ..state
        },
        output,
    }
}

proof fn lemma_offered<E>(state: StateView, output: OutputView)
    requires
        state_valid(state),
    ensures
        is_offered::<E>(state, output),
{
    let next = StateView { revision: next_revision(state.revision), ..state };
    assert(next.commits == state.commits);
    assert forall|workspace: WorkspaceId| #[trigger] workspace_known(
        state,
        workspace,
    ) implies workspace_known(next, workspace) by {
        let name = choose|name: Seq<char>| #[trigger]
            state.branches.dom().contains(name) && state.branches[name].workspace_id == workspace;
        assert(next.branches.dom().contains(name));
    }
    lemma_moved(state, next);
}

/// A state whose commits, branches and references are those of a valid one is valid.
proof fn lemma_moved(state: StateView, next: StateView)
    requires
        state_valid(state),
        next == (StateView { revision: next.revision, ..state }),
    ensures
        state_valid(next),
{
    lemma_known_kept(state, next);
    assert forall|id: GitCommitId| #[trigger] next.commits.dom().contains(id) implies commit_valid(
        next,
        id,
        next.commits[id],
    ) by {
        assert(commit_valid(state, id, state.commits[id]));
    }
    assert forall|id: GitCommitId| #[trigger] next.external_parents.contains(
        id,
    ) implies external_valid(next, id) by {
        assert(external_valid(state, id));
        let child = choose|child: GitCommitId| #[trigger]
            state.commits.dom().contains(child) && state.commits[child].parents.contains(id);
        assert(next.commits.dom().contains(child));
    }
    assert forall|i: int| 0 <= i < next.stash.len() implies workspace_known(
        next,
        (#[trigger] next.stash[i]).owner(),
    ) by {
        assert(workspace_known(state, state.stash[i].owner()));
    }
    assert(references_valid(next));
}

proof fn lemma_known_kept(state: StateView, next: StateView)
    requires
        forall|name: Seq<char>| #[trigger]
            state.branches.dom().contains(name) ==> next.branches.dom().contains(name)
                && next.branches[name].workspace_id == state.branches[name].workspace_id,
    ensures
        forall|workspace: WorkspaceId| #[trigger]
            workspace_known(state, workspace) ==> workspace_known(next, workspace),
{
    assert forall|workspace: WorkspaceId| #[trigger] workspace_known(
        state,
        workspace,
    ) implies workspace_known(next, workspace) by {
        let name = choose|name: Seq<char>| #[trigger]
            state.branches.dom().contains(name) && state.branches[name].workspace_id == workspace;
        assert(next.branches.dom().contains(name));
    }
}

/// In a consistent state every name leads to a recorded commit: the head of a branch, a
/// tag, and what is logged. Parents are recorded or known to be elsewhere, no commit
/// descends from itself, and every tree belongs to the workspace of a branch.
pub proof fn consistent_states_hold_together(
    state: StateView,
    name: Seq<char>,
    id: GitCommitId,
    i: int,
    steps: nat,
    chain: Seq<GitCommitId>,
)
    requires
        state_valid(state),
    ensures
        state.branches.dom().contains(name) && state.branches[name].head == Some(id)
            ==> state.commits.dom().contains(id) && state.branches[name].tracked_paths
            == state.commits[id].tracked_paths,
        state.tags.dom().contains(name) ==> state.commits.dom().contains(state.tags[name]),
        0 <= i < state.reflog.len() && state.reflog[i] == Some(id) ==> state.commits.dom().contains(
            id,
        ),
        state.commits.dom().contains(id) && 0 <= i < state.commits[id].parents.len()
            ==> state.commits.dom().contains(state.commits[id].parents[i])
            || state.external_parents.contains(state.commits[id].parents[i]),
        state.commits.dom().contains(id) ==> commit_authentic(state.commits[id])
            && state.commits[id].id == id,
        state.commits.dom().contains(id) ==> exists|branch: Seq<char>| #[trigger]
            state.branches.dom().contains(branch) && state.branches[branch].workspace_id
                == state.commits[id].tree.owner(),
        0 <= i < state.stash.len() ==> exists|branch: Seq<char>| #[trigger]
            state.branches.dom().contains(branch) && state.branches[branch].workspace_id
                == state.stash[i].owner(),
        steps > 0 ==> !leads(state.commits, id, id, steps, chain),
{
    if steps > 0 && leads(state.commits, id, id, steps, chain) {
        reaching_is_by_chains(state.commits, id, id, steps);
        assert(cyclic(state.commits));
    }
    if state.branches.dom().contains(name) {
        assert(branch_valid(state.commits, name, state.branches[name]));
    }
    if state.commits.dom().contains(id) {
        assert(commit_valid(state, id, state.commits[id]));
        assert(workspace_known(state, state.commits[id].tree.owner()));
    }
    if 0 <= i < state.stash.len() {
        assert(workspace_known(state, state.stash[i].owner()));
    }
}

/// From an earlier commit nothing new is reached once a commit is added that none of them
/// descends from.
proof fn lemma_reached_before(
    commits: Commits,
    commit: CommitView,
    from: GitCommitId,
    steps: nat,
    id: GitCommitId,
)
    requires
        !commits.dom().contains(commit.id),
        forall|child: GitCommitId|
            commits.dom().contains(child) ==> !(
            #[trigger] commits[child]).parents.contains(commit.id),
        from != commit.id,
        reached(commits.insert(commit.id, commit), from, steps).contains(id),
    ensures
        id != commit.id,
        reached(commits, from, steps).contains(id),
    decreases steps,
{
    let more = commits.insert(commit.id, commit);
    if steps > 0 {
        let fewer = (steps - 1) as nat;
        let child = choose|child: GitCommitId| #[trigger]
            reached(more, from, fewer).contains(child) && parents_of(more, child).contains(id);
        lemma_reached_before(commits, commit, from, fewer, child);
        assert(parents_of(more, child) == parents_of(commits, child));
        assert(commits.dom().contains(child));
        assert(!commits[child].parents.contains(commit.id));
        assert(reached(commits, from, fewer).contains(child));
    }
}

/// What is reached from a commit is reached from one of its parents.
proof fn lemma_reached_by_parent(commits: Commits, from: GitCommitId, steps: nat, id: GitCommitId) -> (
parent: GitCommitId)
    requires
        steps > 0,
        reached(commits, from, steps).contains(id),
    ensures
        parents_of(commits, from).contains(parent),
        reached(commits, parent, (steps - 1) as nat).contains(id),
    decreases steps,
{
    let fewer = (steps - 1) as nat;
    let child = choose|child: GitCommitId| #[trigger]
        reached(commits, from, fewer).contains(child) && parents_of(commits, child).contains(id);
    if fewer == 0 {
        id
    } else {
        let parent = lemma_reached_by_parent(commits, from, fewer, child);
        assert(reached(commits, parent, (fewer - 1) as nat).contains(child));
        parent
    }
}

proof fn lemma_still_acyclic(commits: Commits, commit: CommitView)
    requires
        !cyclic(commits),
        !commits.dom().contains(commit.id),
        !commit.parents.contains(commit.id),
        forall|child: GitCommitId|
            commits.dom().contains(child) ==> !(
            #[trigger] commits[child]).parents.contains(commit.id),
    ensures
        !cyclic(commits.insert(commit.id, commit)),
{
    let more = commits.insert(commit.id, commit);
    assert forall|id: GitCommitId, steps: nat| steps > 0 implies !#[trigger] reached(
        more,
        id,
        steps,
    ).contains(id) by {
        if reached(more, id, steps).contains(id) {
            if id == commit.id {
                let parent = lemma_reached_by_parent(more, id, steps, id);
                assert(commit.parents.contains(parent));
                lemma_reached_before(commits, commit, parent, (steps - 1) as nat, id);
            } else {
                lemma_reached_before(commits, commit, id, steps, id);
                assert(cyclic(commits));
            }
        }
    }
}

/// A consistent state stays so with a commit on top of recorded or known commits, whose
/// identity is new, in the workspace of a branch.
proof fn lemma_with_commit(
    state: StateView,
    external_parents: Set<GitCommitId>,
    commit: CommitView,
    head: Option<GitCommitId>,
)
    requires
        state_valid(state),
        state.pending is None,
        state.branches[state.current_branch].head == head,
        state.external_parents.subset_of(external_parents),
        forall|id: GitCommitId| #[trigger]
            external_parents.contains(id) ==> state.external_parents.contains(id) || (
            commit.parents.contains(id) && !state.commits.dom().contains(id)),
        commit_authentic(commit),
        commit.tree.owner() == commit.workspace_tree.owner(),
        workspace_known(state, commit.tree.owner()),
        forall|i: int|
            0 <= i < commit.parents.len() ==> state.commits.dom().contains(
                #[trigger] commit.parents[i],
            ) || external_parents.contains(commit.parents[i]),
        !state.commits.dom().contains(commit.id),
        !external_parents.contains(commit.id),
    ensures
        state_valid(with_commit(StateView { external_parents, ..state }, commit, head)),
{
    let begun = StateView { external_parents, ..state };
    let next = with_commit(begun, commit, head);
    let name = state.current_branch;
    assert(next.commits == state.commits.insert(commit.id, commit));
    assert(branch_valid(state.commits, name, state.branches[name]));
    assert forall|other: Seq<char>| #[trigger] next.branches.dom().contains(
        other,
    ) implies branch_valid(next.commits, other, next.branches[other]) by {
        assert(branch_valid(state.commits, other, state.branches[other]));
    }
    lemma_known_kept(state, next);
    assert(!commit.parents.contains(commit.id)) by {
        if commit.parents.contains(commit.id) {
            let i = commit.parents.index_of(commit.id);
            assert(commit.parents[i] == commit.id);
        }
    }
    assert forall|id: GitCommitId| #[trigger] next.commits.dom().contains(id) implies commit_valid(
        next,
        id,
        next.commits[id],
    ) by {
        if id != commit.id {
            assert(commit_valid(state, id, state.commits[id]));
            let old = state.commits[id];
            assert forall|i: int| 0 <= i < old.parents.len() implies next.commits.dom().contains(
                #[trigger] old.parents[i],
            ) || next.external_parents.contains(old.parents[i]) by {
                assert(state.commits.dom().contains(old.parents[i])
                    || state.external_parents.contains(old.parents[i]));
            }
        } else {
            assert forall|i: int| 0 <= i < commit.parents.len() implies next.commits.dom().contains(
                #[trigger] commit.parents[i],
            ) || next.external_parents.contains(commit.parents[i]) by {
                assert(state.commits.dom().contains(commit.parents[i]) || external_parents.contains(
                    commit.parents[i],
                ));
            }
        }
    }
    assert forall|child: GitCommitId| state.commits.dom().contains(child) implies !(
    #[trigger] state.commits[child]).parents.contains(commit.id) by {
        assert(commit_valid(state, child, state.commits[child]));
        if state.commits[child].parents.contains(commit.id) {
            let i = state.commits[child].parents.index_of(commit.id);
            assert(state.commits[child].parents[i] == commit.id);
        }
    }
    lemma_still_acyclic(state.commits, commit);
    assert forall|id: GitCommitId| #[trigger] next.external_parents.contains(
        id,
    ) implies external_valid(next, id) by {
        if state.external_parents.contains(id) {
            assert(external_valid(state, id));
            let child = choose|child: GitCommitId| #[trigger]
                state.commits.dom().contains(child) && state.commits[child].parents.contains(id);
            assert(next.commits.dom().contains(child));
            assert(next.commits[child] == state.commits[child]);
        } else {
            assert(next.commits.dom().contains(commit.id));
            assert(next.commits[commit.id].parents.contains(id));
        }
    }
    assert forall|i: int| 0 <= i < next.reflog.len() implies super::validate::head_recorded(
        next.commits,
        #[trigger] next.reflog[i],
    ) by {
        if i > 0 {
            assert(next.reflog[i] == state.reflog[i - 1]);
            assert(super::validate::head_recorded(state.commits, state.reflog[i - 1]));
        } else {
            assert(next.reflog[0] == head);
        }
    }
    assert forall|i: int| 0 <= i < next.stash.len() implies workspace_known(
        next,
        (#[trigger] next.stash[i]).owner(),
    ) by {
        assert(workspace_known(state, state.stash[i].owner()));
    }
    assert(references_valid(next));
    assert(state_valid(next));
}

/// A commit of a new tree of the selected workspace, whose identity is new, is recorded:
/// the state that it leaves is consistent, and offered.
pub proof fn new_commits_are_recorded<E>(
    state: StateView,
    branch: BranchView,
    tree: GitTreeRef,
    workspace_tree: GitTreeRef,
    tracked_paths: Set<Seq<char>>,
    message: Seq<char>,
    author: Seq<char>,
    authored_at_seconds: i64,
)
    requires
        state_valid(state),
        state.pending is None,
        state.branches[state.current_branch] == branch,
        tree.owner() == branch.workspace_id,
        workspace_tree.owner() == branch.workspace_id,
        branch.head matches Some(head) ==> state.commits[head].tree != tree,
        ({
            let id = commit_made(
                tree,
                workspace_tree,
                tracked_paths,
                parents_from(branch.head, None),
                author,
                authored_at_seconds,
                message,
            ).id;
            !state.commits.dom().contains(id) && !state.external_parents.contains(id)
        }),
    ensures
        ({
            let done = captured::<E>(
                state,
                branch.head,
                tree,
                workspace_tree,
                tracked_paths,
                message,
                author,
                authored_at_seconds,
            );
            &&& done.output matches Ok(output) && is_offered::<E>(done.state, output)
            &&& state_valid(done.state)
        }),
{
    let commit = commit_made(
        tree,
        workspace_tree,
        tracked_paths,
        parents_from(branch.head, None),
        author,
        authored_at_seconds,
        message,
    );
    assert(branch_valid(state.commits, state.current_branch, branch));
    assert(workspace_known(state, branch.workspace_id)) by {
        assert(state.branches.dom().contains(state.current_branch));
    }
    assert forall|i: int| 0 <= i < commit.parents.len() implies state.commits.dom().contains(
        #[trigger] commit.parents[i],
    ) by {
        assert(branch.head == Some(commit.parents[i]));
    }
    let begun = StateView { external_parents: state.external_parents, ..state };
    assert(begun == state);
    lemma_with_commit(state, state.external_parents, commit, branch.head);
    let done = captured::<E>(
        state,
        branch.head,
        tree,
        workspace_tree,
        tracked_paths,
        message,
        author,
        authored_at_seconds,
    );
    lemma_offered::<E>(done.state, done.output->Ok_0);
}

/// Tagging a recorded commit, and putting a tree of a known workspace away, leave a
/// consistent state, which is offered.
pub proof fn tags_and_stashes_keep_a_state_consistent<E>(
    state: StateView,
    branch: BranchView,
    workspace: GitTreeRef,
    transition: GitTransitionId,
    name: Seq<char>,
    target: Option<Seq<char>>,
    id: GitCommitId,
    result: ResultView,
)
    requires
        state_valid(state),
        ready(state, branch),
        state.pending is None,
        resolved(state, target) == Ok::<GitCommitId, StateErrorView>(id),
        state.commits.dom().contains(id),
        workspace.owner() == branch.workspace_id,
    ensures
        ({
            let command = CommandView::Tag { name: Some(name), target, delete: false };
            let tagged = executed(state, command, workspace, transition);
            let away = completed::<E>(state, MutationView::StashPush { tree: workspace }, result);
            &&& state_valid(tagged.state)
            &&& tagged.output matches Ok(output) && is_offered::<E>(tagged.state, output)
            &&& state_valid(away.state)
            &&& away.output matches Ok(output) && is_offered::<E>(away.state, output)
        }),
{
    let command = CommandView::Tag { name: Some(name), target, delete: false };
    let tagged = executed(state, command, workspace, transition).state;
    let away = completed::<E>(state, MutationView::StashPush { tree: workspace }, result).state;
    lemma_known_kept(state, tagged);
    lemma_known_kept(state, away);
    assert(workspace_known(state, branch.workspace_id)) by {
        assert(state.branches.dom().contains(state.current_branch));
    }
    lemma_references_kept(state, tagged);
    lemma_references_kept(state, away);
    lemma_offered::<E>(tagged, executed(state, command, workspace, transition).output->Ok_0);
    lemma_offered::<E>(
        away,
        completed::<E>(state, MutationView::StashPush { tree: workspace }, result).output->Ok_0,
    );
}

/// A state with the commits and branches of a valid one, whose other references lead to
/// them, is valid.
proof fn lemma_references_kept(state: StateView, next: StateView)
    requires
        state_valid(state),
        next == (StateView { tags: next.tags, stash: next.stash, ..state }),
        next.pending is None,
        forall|name: Seq<char>| #[trigger]
            next.tags.dom().contains(name) ==> state.commits.dom().contains(next.tags[name]),
        forall|i: int|
            0 <= i < next.stash.len() ==> workspace_known(state, (#[trigger] next.stash[i]).owner()),
    ensures
        state_valid(next),
{
    lemma_known_kept(state, next);
    assert forall|id: GitCommitId| #[trigger] next.commits.dom().contains(id) implies commit_valid(
        next,
        id,
        next.commits[id],
    ) by {
        assert(commit_valid(state, id, state.commits[id]));
    }
    assert forall|id: GitCommitId| #[trigger] next.external_parents.contains(
        id,
    ) implies external_valid(next, id) by {
        assert(external_valid(state, id));
        let child = choose|child: GitCommitId| #[trigger]
            state.commits.dom().contains(child) && state.commits[child].parents.contains(id);
        assert(next.commits.dom().contains(child));
    }
    assert(references_valid(next));
}

/// A publication of a new tree records a commit on top of the head and of the head it
/// comes from, which is then known where it is not recorded; one of the tree of the head
/// changes nothing.
#[verifier::rlimit(60)]
pub proof fn publications_extend_history<E>(
    state: StateView,
    branch: BranchView,
    publication: PublicationView,
    fresh: GitTransitionId,
    mine: GitCommitId,
    theirs: GitCommitId,
)
    requires
        state_valid(state),
        state.pending is None,
        state.branches[state.current_branch] == branch,
        branch.head == Some(mine),
        publication.source_head == Some(theirs),
        mine != theirs,
        publication.tree.owner() == branch.workspace_id,
        publication.workspace_tree.owner() == branch.workspace_id,
        ({
            let id = commit_made(
                publication.tree,
                publication.workspace_tree,
                publication.tracked_paths,
                seq![mine, theirs],
                publication.author,
                publication.authored_at_seconds,
                publication.message,
            ).id;
            !state.commits.dom().contains(id) && !state.external_parents.contains(id) && id
                != theirs
        }),
    ensures
        ({
            let done = attempted::<E>(
                RequestView::Publish { record: publication },
                state,
                fresh,
            );
            if state.commits[mine].tree == publication.tree {
                done == AttemptView::<E>::Settled(OutputView::NoOp)
            } else {
                done matches AttemptView::Replace { expected, replacement, output } && expected
                    == state.revision && (output matches OutputView::Committed(commit)
                    && commit.parents == seq![mine, theirs] && commit.tree == publication.tree
                    && commit.message == publication.message && commit.author
                    == publication.author && replacement.branches[state.current_branch].head
                    == Some(commit.id) && replacement.commits == state.commits.insert(
                    commit.id,
                    commit,
                ) && replacement.external_parents == (if state.commits.dom().contains(theirs) {
                    state.external_parents
                } else {
                    state.external_parents.insert(theirs)
                }))
            }
        }),
{
    let commit = commit_made(
        publication.tree,
        publication.workspace_tree,
        publication.tracked_paths,
        seq![mine, theirs],
        publication.author,
        publication.authored_at_seconds,
        publication.message,
    );
    let external_parents = if state.commits.dom().contains(theirs) {
        state.external_parents
    } else {
        state.external_parents.insert(theirs)
    };
    assert(branch_valid(state.commits, state.current_branch, branch));
    lemma_published::<E>(state, branch, publication, mine, theirs);
    if state.commits[mine].tree != publication.tree {
        lemma_published_valid(state, branch, external_parents, commit, mine, theirs);
        let next = with_commit(StateView { external_parents, ..state }, commit, branch.head);
        lemma_offered::<E>(next, OutputView::Committed(commit));
    }
}

proof fn lemma_published_valid(
    state: StateView,
    branch: BranchView,
    external_parents: Set<GitCommitId>,
    commit: CommitView,
    mine: GitCommitId,
    theirs: GitCommitId,
)
    requires
        state_valid(state),
        state.pending is None,
        state.branches[state.current_branch] == branch,
        branch.head == Some(mine),
        commit.parents == seq![mine, theirs],
        commit_authentic(commit),
        commit.tree.owner() == branch.workspace_id,
        commit.workspace_tree.owner() == branch.workspace_id,
        !state.commits.dom().contains(commit.id),
        !state.external_parents.contains(commit.id),
        commit.id != theirs,
        external_parents == (if state.commits.dom().contains(theirs) {
            state.external_parents
        } else {
            state.external_parents.insert(theirs)
        }),
    ensures
        state_valid(with_commit(StateView { external_parents, ..state }, commit, branch.head)),
{
    let parents = seq![mine, theirs];
    assert(branch_valid(state.commits, state.current_branch, branch));
    assert(workspace_known(state, branch.workspace_id)) by {
        assert(state.branches.dom().contains(state.current_branch));
    }
    assert(parents[0] == mine && parents[1] == theirs);
    assert(commit.parents.contains(theirs));
    assert forall|i: int| 0 <= i < commit.parents.len() implies state.commits.dom().contains(
        #[trigger] commit.parents[i],
    ) || external_parents.contains(commit.parents[i]) by {
        assert(i == 0 || i == 1);
    }
    lemma_with_commit(state, external_parents, commit, branch.head);
}

/// What a publication comes to.
proof fn lemma_published<E>(
    state: StateView,
    branch: BranchView,
    publication: PublicationView,
    mine: GitCommitId,
    theirs: GitCommitId,
)
    requires
        state.branches.dom().contains(state.current_branch),
        state.branches[state.current_branch] == branch,
        branch.head == Some(mine),
        state.commits.dom().contains(mine),
        publication.source_head == Some(theirs),
        mine != theirs,
    ensures
        ({
            let commit = commit_made(
                publication.tree,
                publication.workspace_tree,
                publication.tracked_paths,
                seq![mine, theirs],
                publication.author,
                publication.authored_at_seconds,
                publication.message,
            );
            let external_parents = if state.commits.dom().contains(theirs) {
                state.external_parents
            } else {
                state.external_parents.insert(theirs)
            };
            publish_attempt::<E>(state, publication) == (if state.commits[mine].tree
                == publication.tree {
                AttemptView::<E>::Settled(OutputView::NoOp)
            } else {
                offered::<E>(
                    with_commit(StateView { external_parents, ..state }, commit, branch.head),
                    OutputView::Committed(commit),
                )
            })
        }),
{
    let own = seq![mine];
    assert(own[0] == mine);
    assert(!own.contains(theirs));
    assert(own.push(theirs) =~= seq![mine, theirs]);
    assert(record(state.commits, branch.head) == Some(state.commits[mine]));
}

/// A state of an earlier version keeps its commits, tags and stashes, and the paths that it
/// tracked become those of the selected branch.
pub proof fn migrations_keep_history(state: StateView)
    requires
        state.branches.dom().contains(state.current_branch),
    ensures
        ({
            let moved = migrated(state);
            let name = state.current_branch;
            &&& moved.commits == state.commits && moved.tags == state.tags && moved.stash
                == state.stash && moved.reflog == state.reflog && moved.current_branch
                == state.current_branch && moved.revision == state.revision
            &&& moved.branches.dom() == state.branches.dom()
            &&& moved.branches[name].head == state.branches[name].head
            &&& forall|other: Seq<char>| #[trigger]
                state.branches.dom().contains(other) && other != name ==> moved.branches[other]
                    == state.branches[other]
            &&& state.version < 6 && state.legacy_tracked_paths != Set::<Seq<char>>::empty()
                ==> moved.branches[name].tracked_paths == state.legacy_tracked_paths
                && moved.legacy_tracked_paths == Set::<Seq<char>>::empty()
            &&& state.version >= 6 || state.legacy_tracked_paths == Set::<Seq<char>>::empty()
                ==> moved.branches == state.branches
        }),
{
    assert(migrated(state).branches.dom() =~= state.branches.dom());
}

} // verus!
