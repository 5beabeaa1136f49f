//! What holds of every repository, whatever is asked of it.

use super::ancestry::{parents_of, reached};
use super::bisect::bisected;
use super::commit::commit_authentic;
use super::complete::{captured, completed, registered};
use super::execute::{allowed_while_bisecting, changed, executed, inspected};
use super::history::current_branch;
use super::repository::{
    admitted, attempted, migrated, next_revision, offered, transaction_swapped, unborn,
    AttemptView,
};
use super::run::{run_step, RunErrorView};
use super::types::{
    CommandView, CompatErrorView, GitCommitId, GitTransitionId, GitTreeRef, MutationView,
    OutputView, PhaseView, RequestView, ResultView, RunActionView, RunEventView, RunView,
    StateView, TransactionView,
};
use super::validate::{
    branch_valid, commit_valid, cyclic, external_valid, references_valid, state_valid,
    workspace_known,
};
use crate::foundation::WorkspaceId;
use vstd::prelude::*;
use vstd::string::*;

verus! {

/// A repository that nobody has written yet is consistent, whatever its branch is named,
/// and is admitted with the branch `main`.
pub proof fn an_unborn_repository_is_consistent(branch: Seq<char>, workspace_id: WorkspaceId)
    requires
        branch.len() > 0,
    ensures
        state_valid(unborn(branch, workspace_id)),
        admitted(Some(unborn(branch, workspace_id)), workspace_id) == Some(
            unborn(branch, workspace_id),
        ),
        admitted(None, workspace_id) == Some(unborn("main"@, workspace_id)),
{
    reveal_strlit("main");
    lemma_unborn_valid("main"@, workspace_id);
    lemma_unborn_valid(branch, workspace_id);
    assert(migrated(unborn("main"@, workspace_id)) =~= unborn("main"@, workspace_id));
    assert(migrated(unborn(branch, workspace_id)) =~= unborn(branch, workspace_id));
}

proof fn lemma_unborn_valid(branch: Seq<char>, workspace_id: WorkspaceId)
    requires
        branch.len() > 0,
    ensures
        state_valid(unborn(branch, workspace_id)),
{
    let state = unborn(branch, workspace_id);
    assert(state.branches.dom().contains(branch));
    assert forall|id: GitCommitId, steps: nat| steps > 0 implies !#[trigger] reached(
        state.commits,
        id,
        steps,
    ).contains(id) by {
        if reached(state.commits, id, steps).contains(id) {
            let child = choose|child: GitCommitId| #[trigger]
                reached(state.commits, id, (steps - 1) as nat).contains(child) && parents_of(
                    state.commits,
                    child,
                ).contains(id);
            assert(parents_of(state.commits, child).len() == 0);
        }
    }
    assert(!cyclic(state.commits));
    assert forall|name: Seq<char>| #[trigger] state.branches.dom().contains(
        name,
    ) implies branch_valid(state.commits, name, state.branches[name]) by {
        assert(name == branch);
    }
}

/// A refused command leaves the state as it was. While a bisection runs, a command that
/// it does not allow is refused.
pub proof fn refused_commands_change_nothing(
    state: StateView,
    command: CommandView,
    workspace: GitTreeRef,
    transition: GitTransitionId,
)
    ensures
        executed(state, command, workspace, transition).output is Err ==> executed(
            state,
            command,
            workspace,
            transition,
        ).state == state,
        current_branch(state) is Some && state.bisect is Some && !allowed_while_bisecting(command)
            ==> (executed(state, command, workspace, transition).output matches Err(error)
            && error is Bisect),
{
}

/// A consistent state of the current version is admitted as it is.
pub proof fn consistent_states_are_admitted(state: StateView, workspace_id: WorkspaceId)
    requires
        state_valid(state),
    ensures
        admitted(Some(state), workspace_id) == Some(state),
{
    assert(migrated(state) =~= state);
}

/// A state that is not consistent, such as one with a commit that is not authentic,
/// is never used: whatever waits for it fails.
pub proof fn inconsistent_states_are_never_used<S, E>(
    run: RunView,
    state: StateView,
    fresh: GitTransitionId,
)
    requires
        admitted(Some(state), run.workspace_id) is None,
        run.phase is CheckTree || run.phase is Inspect || run.phase is Resume || (run.phase
            matches PhaseView::Transact { transaction, .. } && transaction.workspace_id
            == run.workspace_id),
    ensures
        run_step::<S, E>(run, RunEventView::Loaded { state: Some(state), fresh }).action == Err::<
            RunActionView,
            RunErrorView<S, E>,
        >(RunErrorView::Compat(CompatErrorView::InvalidState)),
{
}

/// A state with a commit whose identity is not the digest of its record is not
/// admitted.
pub proof fn forged_commits_are_not_admitted(
    state: StateView,
    id: GitCommitId,
    workspace_id: WorkspaceId,
)
    requires
        state.commits.dom().contains(id),
        state.commits[id].id != id || !commit_authentic(state.commits[id]),
    ensures
        admitted(Some(state), workspace_id) is None,
{
    if state_valid(migrated(state)) {
        assert(migrated(state).commits.dom().contains(id));
    }
}

/// A command on the tree of a foreign workspace ends before the executor is asked
/// for anything.
pub proof fn foreign_trees_reach_no_executor<S, E>(
    run: RunView,
    loaded: Option<StateView>,
    fresh: GitTransitionId,
)
    requires
        run.phase is CheckTree,
        run.workspace_tree is Some,
        admitted(loaded, run.workspace_id) matches Some(state) ==> (current_branch(
            state,
        ) matches Some(branch) ==> branch.workspace_id != run.workspace_tree->0.owner()),
    ensures
        ({
            let next = run_step::<S, E>(run, RunEventView::Loaded { state: loaded, fresh });
            next.action is Err && next.run.phase is Over
        }),
{
}

/// A run that is over asks for nothing more.
pub proof fn finished_runs_stay_finished<S, E>(run: RunView, event: RunEventView)
    requires
        run.phase is Over,
    ensures
        run_step::<S, E>(run, event).action == Err::<RunActionView, RunErrorView<S, E>>(
            RunErrorView::InvalidResult,
        ),
        run_step::<S, E>(run, event).run.phase is Over,
{
}

/// While a transition is pending, no command is executed.
pub proof fn pending_work_blocks_commands<E>(
    state: StateView,
    command: CommandView,
    workspace_tree: GitTreeRef,
    fresh: GitTransitionId,
)
    requires
        state.pending is Some,
    ensures
        attempted::<E>(RequestView::Execute { command, workspace_tree }, state, fresh)
            == AttemptView::<E>::Failed(CompatErrorView::TransitionPending(state.pending->0.id)),
{
}

proof fn lemma_command_keeps_revision(
    state: StateView,
    command: CommandView,
    workspace: GitTreeRef,
    fresh: GitTransitionId,
)
    ensures
        executed(state, command, workspace, fresh).state.revision == state.revision,
{
    if let Some(branch) = current_branch(state) {
        assert(bisected(state, branch, workspace, command->arguments, fresh).state.revision
            == state.revision);
        assert(inspected(state, branch, command, workspace).state == state);
        assert(changed(state, branch, command, workspace, fresh).state.revision == state.revision);
    }
}

/// Every replacement that is offered to a store is consistent, so that the next read
/// admits it; it supersedes exactly the revision that was read, and its own is the
/// next one.
pub proof fn offers_are_admitted_again<E>(
    request: RequestView,
    state: StateView,
    fresh: GitTransitionId,
    workspace_id: WorkspaceId,
)
    ensures
        attempted::<E>(request, state, fresh) matches AttemptView::Replace {
            expected,
            replacement,
            ..
        } ==> {
            &&& expected == state.revision
            &&& replacement.revision == next_revision(state.revision)
            &&& state_valid(replacement)
            &&& admitted(Some(replacement), workspace_id) == Some(replacement)
        },
{
    if let RequestView::Execute { command, workspace_tree } = request {
        lemma_command_keeps_revision(state, command, workspace_tree, fresh);
    }
    if let AttemptView::Replace { expected, replacement, output } = attempted::<E>(
        request,
        state,
        fresh,
    ) {
        assert(state_valid(replacement));
        consistent_states_are_admitted(replacement, workspace_id);
    }
}

proof fn lemma_valid_without_pending(state: StateView, revision: u64)
    requires
        state_valid(state),
    ensures
        state_valid(StateView { pending: None, revision, ..state }),
{
    let cleared = StateView { pending: None, revision, ..state };
    assert forall|workspace: WorkspaceId| #[trigger] workspace_known(state, workspace)
        == workspace_known(cleared, workspace) by {
        if workspace_known(state, workspace) {
            let name = choose|name: Seq<char>| #[trigger]
                state.branches.dom().contains(name) && state.branches[name].workspace_id
                    == workspace;
            assert(cleared.branches.dom().contains(name));
        }
        if workspace_known(cleared, workspace) {
            let name = choose|name: Seq<char>| #[trigger]
                cleared.branches.dom().contains(name) && cleared.branches[name].workspace_id
                    == workspace;
            assert(state.branches.dom().contains(name));
        }
    }
    assert forall|id: GitCommitId| #[trigger] cleared.commits.dom().contains(
        id,
    ) implies commit_valid(cleared, id, cleared.commits[id]) by {
        assert(commit_valid(state, id, state.commits[id]));
        assert(workspace_known(state, state.commits[id].tree.owner()));
    }
    assert forall|id: GitCommitId| #[trigger] cleared.external_parents.contains(
        id,
    ) implies external_valid(cleared, id) by {
        assert(external_valid(state, id));
        let child = choose|child: GitCommitId| #[trigger]
            state.commits.dom().contains(child) && state.commits[child].parents.contains(id);
        assert(cleared.commits.dom().contains(child));
    }
    assert forall|i: int| 0 <= i < cleared.stash.len() implies workspace_known(
        cleared,
        (#[trigger] cleared.stash[i]).owner(),
    ) by {
        assert(workspace_known(state, state.stash[i].owner()));
    }
    assert(references_valid(cleared));
}

/// A pending transition can always be given up, which changes nothing else.
pub proof fn pending_work_can_be_given_up<E>(
    state: StateView,
    transition: GitTransitionId,
    fresh: GitTransitionId,
)
    requires
        state_valid(state),
        state.pending is Some,
        state.pending->0.id == transition,
    ensures
        attempted::<E>(RequestView::Abort { transition }, state, fresh) == (AttemptView::<
            E,
        >::Replace {
            expected: state.revision,
            replacement: StateView {
                pending: None,
                revision: next_revision(state.revision),
                ..state
            },
            output: OutputView::NoOp,
        }),
{
    lemma_valid_without_pending(state, next_revision(state.revision));
    let cleared = StateView { pending: None, ..state };
    assert((StateView { revision: next_revision(cleared.revision), ..cleared }) =~= (StateView {
        pending: None,
        revision: next_revision(state.revision),
        ..state
    }));
}

proof fn lemma_preparation(
    state: StateView,
    command: CommandView,
    workspace: GitTreeRef,
    fresh: GitTransitionId,
)
    requires
        state.pending is None,
    ensures
        ({
            let step = executed(state, command, workspace, fresh);
            &&& step.output matches Ok(OutputView::Prepared { transition, .. }) ==> {
                &&& transition == fresh
                &&& step.state.pending is Some
                &&& step.state.pending->0.id == fresh
                &&& state == (StateView { pending: None, ..step.state })
            }
            &&& step.output matches Ok(OutputView::Action(_)) ==> step.state == state
        }),
{
    if let Some(branch) = current_branch(state) {
        if let CommandView::Bisect { arguments } = command {
            let step = bisected(state, branch, workspace, arguments, fresh);
            assert(step.output matches Ok(OutputView::Prepared { transition, .. }) ==> transition
                == fresh && step.state.pending is Some && step.state.pending->0.id == fresh
                && state =~= (StateView { pending: None, ..step.state }));
            assert(!(step.output matches Ok(OutputView::Action(_))));
        }
        let step = changed(state, branch, command, workspace, fresh);
        assert(step.output matches Ok(OutputView::Prepared { transition, .. }) ==> transition
            == fresh && step.state.pending is Some && step.state.pending->0.id == fresh && state
            =~= (StateView { pending: None, ..step.state }));
        assert(step.output matches Ok(OutputView::Action(_)) ==> step.state == state);
    }
}

/// Giving up what a command prepared leads back to the state before it, two
/// revisions later.
pub proof fn giving_up_undoes_a_preparation<E>(
    state: StateView,
    command: CommandView,
    workspace: GitTreeRef,
    fresh: GitTransitionId,
    other: GitTransitionId,
)
    requires
        state_valid(state),
        attempted::<E>(
            RequestView::Execute { command, workspace_tree: workspace },
            state,
            fresh,
        ) matches AttemptView::Replace { output: OutputView::Prepared { .. }, .. },
    ensures
        ({
            let prepared = attempted::<E>(
                RequestView::Execute { command, workspace_tree: workspace },
                state,
                fresh,
            )->replacement;
            let revision = next_revision(next_revision(state.revision));
            attempted::<E>(RequestView::Abort { transition: fresh }, prepared, other)
                == (AttemptView::<E>::Replace {
                expected: prepared.revision,
                replacement: StateView { revision, ..state },
                output: OutputView::NoOp,
            })
        }),
{
    lemma_preparation(state, command, workspace, fresh);
    lemma_command_keeps_revision(state, command, workspace, fresh);
    let prepared = attempted::<E>(
        RequestView::Execute { command, workspace_tree: workspace },
        state,
        fresh,
    )->replacement;
    let revision = next_revision(next_revision(state.revision));
    pending_work_can_be_given_up::<E>(prepared, fresh, other);
    assert((StateView { revision, ..state }) =~= (StateView {
        pending: None,
        revision: next_revision(prepared.revision),
        ..prepared
    }));
}

/// Only the transition that is pending can be completed or given up.
pub proof fn stale_transitions_are_refused<E>(
    state: StateView,
    transition: GitTransitionId,
    result: ResultView,
    fresh: GitTransitionId,
)
    requires
        state.pending matches Some(pending) ==> pending.id != transition,
    ensures
        attempted::<E>(RequestView::Abort { transition }, state, fresh) == AttemptView::<
            E,
        >::Failed(CompatErrorView::StaleTransition),
        attempted::<E>(RequestView::Complete { transition, result }, state, fresh)
            == AttemptView::<E>::Failed(CompatErrorView::StaleTransition),
{
}

/// Registering the same branch workspace again changes nothing.
pub proof fn registration_is_idempotent<E>(
    state: StateView,
    name: Seq<char>,
    workspace_id: WorkspaceId,
    head: Option<GitCommitId>,
    switch: bool,
)
    requires
        registered::<E>(state, name, workspace_id, head, switch).output is Ok,
    ensures
        ({
            let once = registered::<E>(state, name, workspace_id, head, switch);
            registered::<E>(once.state, name, workspace_id, head, switch) == once
        }),
{
    let once = registered::<E>(state, name, workspace_id, head, switch);
    let twice = registered::<E>(once.state, name, workspace_id, head, switch);
    assert(twice.state =~= once.state);
}

/// Popping a stashed tree undoes the push.
pub proof fn popping_undoes_a_push<E>(
    state: StateView,
    tree: GitTreeRef,
    pushed: ResultView,
    popped: ResultView,
)
    ensures
        ({
            let once = completed::<E>(state, MutationView::StashPush { tree }, pushed);
            let back = completed::<E>(once.state, MutationView::StashPop { tree }, popped);
            once.output is Ok && back.output is Ok && back.state == state
        }),
{
    let once = completed::<E>(state, MutationView::StashPush { tree }, pushed);
    assert(once.state.stash.drop_last() =~= state.stash);
    let back = completed::<E>(once.state, MutationView::StashPop { tree }, popped);
    assert(back.state =~= state);
}

/// A recorded capture becomes the head of its branch on top of the head before it, is
/// authentic, and keeps every earlier commit but one of the same identity.
pub proof fn captures_extend_history<E>(
    state: StateView,
    expected_head: Option<GitCommitId>,
    tree: GitTreeRef,
    workspace_tree: GitTreeRef,
    tracked_paths: Set<Seq<char>>,
    message: Seq<char>,
    author: Seq<char>,
    authored_at_seconds: i64,
)
    ensures
        ({
            let done = captured::<E>(
                state,
                expected_head,
                tree,
                workspace_tree,
                tracked_paths,
                message,
                author,
                authored_at_seconds,
            );
            done.output matches Ok(OutputView::Committed(commit)) ==> {
                &&& commit_authentic(commit)
                &&& current_branch(done.state) matches Some(branch) && branch.head == Some(
                    commit.id,
                ) && branch.tracked_paths == tracked_paths
                &&& done.state.commits == state.commits.insert(commit.id, commit)
                &&& done.state.reflog == seq![expected_head] + state.reflog
                &&& commit.parents == (match expected_head {
                    Some(id) => seq![id],
                    None => Seq::<GitCommitId>::empty(),
                })
            }
        }),
{
    if let Some(branch) = current_branch(state) {
        let parents = super::complete::parents_from(branch.head, None);
        assert(parents =~= (match branch.head {
            Some(id) => seq![id],
            None => Seq::<GitCommitId>::empty(),
        }));
    }
}

/// A transaction that is refused tries again with one attempt fewer, and gives up
/// when none is left.
pub proof fn contention_is_bounded<E>(transaction: TransactionView)
    requires
        transaction.offered is Some,
    ensures
        ({
            let next = transaction_swapped::<E>(transaction, false);
            if transaction.attempts_left <= 1 {
                next.action == Err::<RunActionView, CompatErrorView<E>>(CompatErrorView::Contended)
            } else {
                &&& next.action == Ok::<RunActionView, CompatErrorView<E>>(RunActionView::Load)
                &&& next.transaction.attempts_left == transaction.attempts_left - 1
                &&& next.transaction.request == transaction.request
            }
        }),
{
}

} // verus!
