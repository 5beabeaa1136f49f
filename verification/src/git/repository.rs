//! Optimistic publication of compatibility state.
//!
//! A [`GitTransaction`] turns one request into reads and conditional writes of
//! a store, up to a bounded number of attempts. The caller performs the reads
//! and writes and reports what came back.

use super::commit::commit_made;
use super::complete::{
    captured, complete_pending, completed, completion_problem, install_commit,
    record_captured_commit_state, register_branch_workspace_state, registered,
    validate_completion_result, with_commit, Completion,
};
use super::bisect::{advanced, bisected};
use super::execute::{
    changed, execute_command, executed, inspected, map_state_error, public_error,
};
use super::history::{current_branch, record};
use super::sequencer::{prepare_transition, prepared, Step};
use super::types::{
    BisectView, BranchView, CommandView, CompatErrorView, GitBisectState, GitBranch, GitCommand,
    GitCommandOutput, GitCommit, GitCommitId, GitCompatError, GitCompatState, GitPendingMutation,
    GitPublicationRecord, GitRequest, GitRunAction, GitTransaction, GitTransitionId, GitTreeRef,
    MutationView, OutputView, PublicationView, RequestView, RunActionView, StateView,
    TransactionView,
};
use super::validate::{state_valid, validate_git_state, STATE_VERSION};
use crate::foundation::WorkspaceId;
use crate::order::{ascending, enumerates, OrderedMap, OrderedSet, Replicate};
use vstd::prelude::*;
use vstd::string::*;

verus! {

/// Attempts that are made to publish one request.
pub const MAXIMUM_CAS_ATTEMPTS: u8 = 32;

/// The state of a repository with one unborn branch.
pub open spec fn unborn(branch: Seq<char>, workspace_id: WorkspaceId) -> StateView {
    StateView {
        version: STATE_VERSION,
        revision: 0,
        current_branch: branch,
        branches: Map::empty().insert(
            branch,
            BranchView { name: branch, workspace_id, head: None, tracked_paths: Set::empty() },
        ),
        commits: Map::empty(),
        external_parents: Set::empty(),
        tags: Map::empty(),
        reflog: Seq::empty(),
        stash: Seq::empty(),
        legacy_tracked_paths: Set::empty(),
        pending: None,
        bisect: None,
    }
}

impl GitCompatState {
    /// Creates an unborn branch for one workspace.
    pub fn new(branch: String, workspace_id: WorkspaceId) -> (r: Self)
        ensures
            r@ == unborn(branch@, workspace_id),
    {
        let mut branches: OrderedMap<String, GitBranch> = OrderedMap::new();
        let first = GitBranch {
            name: branch.clone(),
            workspace_id,
            head: None,
            tracked_paths: OrderedSet::new(),
        };
        branches.insert(branch.clone(), first);
        let r = GitCompatState {
            version: STATE_VERSION,
            revision: 0,
            current_branch: branch,
            branches,
            commits: OrderedMap::new(),
            external_parents: OrderedSet::new(),
            tags: OrderedMap::new(),
            reflog: Vec::new(),
            stash: Vec::new(),
            legacy_tracked_paths: OrderedSet::new(),
            pending: None,
            bisect: None,
        };
        assert(r@ =~= unborn(branch@, workspace_id));
        r
    }
}

/// A state brought to the version that this library writes. States before
/// version six kept the tracked paths of the selected branch beside it.
pub open spec fn migrated(state: StateView) -> StateView {
    let branch = state.branches[state.current_branch];
    let moved = if state.version < 6 && state.legacy_tracked_paths != Set::<Seq<char>>::empty() {
        StateView {
            branches: state.branches.insert(
                state.current_branch,
                BranchView { tracked_paths: state.legacy_tracked_paths, ..branch },
            ),
            legacy_tracked_paths: Set::empty(),
            ..state
        }
    } else {
        state
    };
    StateView { version: STATE_VERSION, ..moved }
}

/// The state that a repository works with, if what was loaded is consistent.
pub open spec fn admitted(loaded: Option<StateView>, workspace_id: WorkspaceId) -> Option<
    StateView,
> {
    let state = match loaded {
        Some(state) => state,
        None => unborn("main"@, workspace_id),
    };
    if 1 <= state.version <= STATE_VERSION && current_branch(state) is Some && state_valid(
        migrated(state),
    ) {
        Some(migrated(state))
    } else {
        None
    }
}

/// Abstract value of an optional state.
pub open spec fn loaded_view(loaded: Option<GitCompatState>) -> Option<StateView> {
    match loaded {
        Some(state) => Some(state@),
        None => None,
    }
}

/// Admits what was loaded from a store.
pub fn admit_loaded<E>(loaded: Option<GitCompatState>, workspace_id: WorkspaceId) -> (r: Result<
    GitCompatState,
    GitCompatError<E>,
>)
    ensures
        match r {
            Ok(state) => admitted(loaded_view(loaded), workspace_id) == Some(state@),
            Err(error) => admitted(loaded_view(loaded), workspace_id) is None && error@
                == CompatErrorView::<E>::InvalidState,
        },
{
    let mut state = match loaded {
        Some(state) => state,
        None => GitCompatState::new("main".to_owned(), workspace_id),
    };
    let ghost given = state@;
    if state.version < 1 || state.version > STATE_VERSION {
        return Err(GitCompatError::InvalidState);
    }
    let found = match state.current() {
        Ok(branch) => branch.replicate(),
        Err(_) => return Err(GitCompatError::InvalidState),
    };
    if state.version < 6 && !state.legacy_tracked_paths.is_empty() {
        let moved = GitBranch {
            name: found.name,
            workspace_id: found.workspace_id,
            head: found.head,
            tracked_paths: state.legacy_tracked_paths.replicate(),
        };
        state.branches.insert(state.current_branch.clone(), moved);
        state.legacy_tracked_paths = OrderedSet::new();
    }
    state.version = STATE_VERSION;
    assert(state@ =~= migrated(given));
    match validate_git_state(&state) {
        Ok(_) => Ok(state),
        Err(_) => Err(GitCompatError::InvalidState),
    }
}

/// What one attempt at a request comes to.
#[verifier::ext_equal]
#[verifier::reject_recursive_types(E)]
pub enum AttemptView<E> {
    /// The request is answered without a change.
    Settled(OutputView),
    /// A replacement of the given revision answers the request.
    Replace {
        /// Revision that the replacement supersedes.
        expected: u64,
        /// Consistent replacement.
        replacement: StateView,
        /// Output of the request.
        output: OutputView,
    },
    /// The request fails.
    Failed(CompatErrorView<E>),
}

/// The revision after one change.
pub open spec fn next_revision(revision: u64) -> u64 {
    if revision == u64::MAX {
        u64::MAX
    } else {
        (revision + 1) as u64
    }
}

/// An offer of a changed state, refused where it is inconsistent.
pub open spec fn offered<E>(state: StateView, output: OutputView) -> AttemptView<E> {
    let replacement = StateView { revision: next_revision(state.revision), ..state };
    if state_valid(replacement) {
        AttemptView::Replace { expected: state.revision, replacement, output }
    } else {
        AttemptView::Failed(CompatErrorView::InvalidState)
    }
}

/// An offer of the state that a completion leaves.
pub open spec fn offered_completion<E>(completion: Completion<E>) -> AttemptView<E> {
    match completion.output {
        Err(error) => AttemptView::Failed(error),
        Ok(output) => offered(completion.state, output),
    }
}

/// An attempt to execute a command.
pub open spec fn execute_attempt<E>(
    state: StateView,
    command: CommandView,
    workspace_tree: GitTreeRef,
    fresh: GitTransitionId,
) -> AttemptView<E> {
    match state.pending {
        Some(pending) => AttemptView::Failed(CompatErrorView::TransitionPending(pending.id)),
        None => {
            let step = executed(state, command, workspace_tree, fresh);
            match step.output {
                Err(error) => AttemptView::Failed(public_error(error)),
                Ok(output) => match output {
                    OutputView::Action(action) => {
                        let intent = prepared(step.state, action, MutationView::NoOp, fresh);
                        offered(intent.state, OutputView::Prepared { transition: fresh, action })
                    },
                    _ => if step.state == state {
                        AttemptView::Settled(output)
                    } else {
                        offered(step.state, output)
                    },
                },
            }
        },
    }
}

/// An attempt to record a publication.
pub open spec fn publish_attempt<E>(state: StateView, publication: PublicationView) -> AttemptView<
    E,
> {
    match current_branch(state) {
        None => AttemptView::Failed(CompatErrorView::InvalidState),
        Some(branch) => {
            let head = record(state.commits, branch.head);
            if head is Some && head->0.tree == publication.tree {
                AttemptView::Settled(OutputView::NoOp)
            } else {
                let own = match branch.head {
                    Some(id) => seq![id],
                    None => Seq::<GitCommitId>::empty(),
                };
                let joins = publication.source_head is Some && !own.contains(
                    publication.source_head->0,
                );
                let parents = if joins {
                    own.push(publication.source_head->0)
                } else {
                    own
                };
                let external_parents = if joins && !state.commits.dom().contains(
                    publication.source_head->0,
                ) {
                    state.external_parents.insert(publication.source_head->0)
                } else {
                    state.external_parents
                };
                let commit = commit_made(
                    publication.tree,
                    publication.workspace_tree,
                    publication.tracked_paths,
                    parents,
                    publication.author,
                    publication.authored_at_seconds,
                    publication.message,
                );
                offered(
                    with_commit(StateView { external_parents, ..state }, commit, branch.head),
                    OutputView::Committed(commit),
                )
            }
        },
    }
}

/// What one attempt at a request comes to, given the admitted state.
pub open spec fn attempted<E>(
    request: RequestView,
    state: StateView,
    fresh: GitTransitionId,
) -> AttemptView<E> {
    match request {
        RequestView::Execute { command, workspace_tree } => execute_attempt(
            state,
            command,
            workspace_tree,
            fresh,
        ),
        RequestView::Complete { transition, result } => match state.pending {
            Some(pending) => if pending.id != transition {
                AttemptView::Failed(CompatErrorView::StaleTransition)
            } else {
                match completion_problem::<E>(state, pending.mutation, result) {
                    Some(error) => AttemptView::Failed(error),
                    None => {
                        let completion = completed::<E>(state, pending.mutation, result);
                        offered_completion(
                            Completion {
                                state: StateView { pending: None, ..completion.state },
                                ..completion
                            },
                        )
                    },
                }
            },
            None => AttemptView::Failed(CompatErrorView::StaleTransition),
        },
        RequestView::Abort { transition } => if state.pending is Some && state.pending->0.id
            == transition {
            offered(StateView { pending: None, ..state }, OutputView::NoOp)
        } else {
            AttemptView::Failed(CompatErrorView::StaleTransition)
        },
        RequestView::Register { branch, workspace_id, head, switch } => offered_completion(
            registered::<E>(state, branch, workspace_id, head, switch),
        ),
        RequestView::Record { record } => offered_completion(
            captured::<E>(
                state,
                record.expected_head,
                record.tree,
                record.workspace_tree,
                record.tracked_paths,
                record.message,
                record.author,
                record.authored_at_seconds,
            ),
        ),
        RequestView::Publish { record } => publish_attempt(state, record),
    }
}

/// One attempt at a request.
pub enum Attempt {
    /// The request is answered without a change.
    Settled(GitCommandOutput),
    /// A replacement of the given revision answers the request.
    Replace {
        /// Revision that the replacement supersedes.
        expected: u64,
        /// Consistent replacement.
        replacement: GitCompatState,
        /// Output of the request.
        output: GitCommandOutput,
    },
}

/// Abstract value of an attempt.
pub open spec fn attempt_view<E>(result: Result<Attempt, GitCompatError<E>>) -> AttemptView<E> {
    match result {
        Ok(Attempt::Settled(output)) => AttemptView::Settled(output@),
        Ok(Attempt::Replace { expected, replacement, output }) => AttemptView::Replace {
            expected,
            replacement: replacement@,
            output: output@,
        },
        Err(error) => AttemptView::Failed(error@),
    }
}

fn offer<E>(state: GitCompatState, output: GitCommandOutput) -> (r: Result<
    Attempt,
    GitCompatError<E>,
>)
    ensures
        attempt_view(r) == offered::<E>(state@, output@),
{
    let ghost given = state@;
    let mut replacement = state;
    let expected = replacement.revision;
    if expected < u64::MAX {
        replacement.revision = expected + 1;
    }
    assert(replacement@ =~= (StateView { revision: next_revision(given.revision), ..given }));
    match validate_git_state(&replacement) {
        Ok(_) => Ok(Attempt::Replace { expected, replacement, output }),
        Err(_) => Err(GitCompatError::InvalidState),
    }
}

/// Tells whether two tag catalogs are equal.
fn same_tags(a: &OrderedMap<String, GitCommitId>, b: &OrderedMap<String, GitCommitId>) -> (r: bool)
    ensures
        r == (a@ == b@),
{
    let count = a.len();
    let ghost names = ascending::<String>(a@.dom());
    if count != b.len() {
        return false;
    }
    let mut i: usize = 0;
    while i < count
        invariant
            i <= count,
            count == names.len(),
            names == ascending::<String>(a@.dom()),
            enumerates::<String>(names, a@.dom()),
            b@.dom().finite(),
            count == a@.dom().len(),
            count == b@.dom().len(),
            forall|k: int|
                0 <= k < i ==> b@.dom().contains(#[trigger] names[k]) && b@[names[k]]
                    == a@[names[k]],
        decreases count - i,
    {
        let name = a.key_at(i);
        match b.get(name) {
            Some(id) => {
                if *id != *a.value_at(i) {
                    return false;
                }
            },
            None => {
                return false;
            },
        }
        i = i + 1;
    }
    proof {
        assert forall|name: Seq<char>| a@.dom().contains(name) implies b@.dom().contains(name)
            && b@[name] == a@[name] by {
            assert(names.to_set().contains(name));
            let k = names.index_of(name);
            assert(names[k] == name);
        }
        assert(a@.dom().subset_of(b@.dom()));
        vstd::set_lib::lemma_subset_equality(a@.dom(), b@.dom());
        assert(a@ =~= b@);
    }
    true
}

/// Tells whether two sessions are equal.
fn same_session(a: &GitBisectState, b: &GitBisectState) -> (r: bool)
    ensures
        r == (a@ == b@),
{
    let r = crate::text::text_is(a.original_branch.as_str(), b.original_branch.as_str())
        && a.original_head == b.original_head && a.good == b.good && a.bad == b.bad && a.current
        == b.current && a.skipped.same_as(&b.skipped);
    assert(r ==> a@ =~= b@);
    r
}

/// Tells whether two optional sessions are equal.
fn same_sessions(a: &Option<GitBisectState>, b: &Option<GitBisectState>) -> (r: bool)
    ensures
        r == ((match *a {
            Some(session) => Some(session@),
            None => None,
        }) == (match *b {
            Some(session) => Some(session@),
            None => None,
        })),
{
    match (a, b) {
        (None, None) => true,
        (Some(left), Some(right)) => same_session(left, right),
        _ => false,
    }
}

/// A step that leaves everything but its intent, its tags, its session and,
/// with the reflog, its branches as they were.
spec fn framed_step(state: StateView, step: Step) -> bool {
    let after = step.state;
    &&& after.revision == state.revision
    &&& after.pending is None && after.reflog.len() == state.reflog.len() && after.tags
        == state.tags && after.bisect == state.bisect ==> after == state
    &&& (step.output matches Ok(output) && output is Action) ==> after == state
}

proof fn lemma_advanced_frame(
    state: StateView,
    branch: BranchView,
    session: BisectView,
    fresh: GitTransitionId,
)
    requires
        state.pending is None,
    ensures
        framed_step(state, advanced(state, branch, session, fresh)),
{
    let after = advanced(state, branch, session, fresh).state;
    if after.bisect == state.bisect && after.pending is None {
        assert(after =~= state);
    }
}

proof fn lemma_bisected_frame(
    state: StateView,
    branch: BranchView,
    workspace: GitTreeRef,
    arguments: Seq<Seq<char>>,
    fresh: GitTransitionId,
)
    requires
        state.pending is None,
    ensures
        framed_step(state, bisected(state, branch, workspace, arguments, fresh)),
{
    assert forall|session: BisectView| framed_step(
        state,
        #[trigger] advanced(state, branch, session, fresh),
    ) by {
        lemma_advanced_frame(state, branch, session, fresh);
    }
}

proof fn lemma_inspected_frame(
    state: StateView,
    branch: BranchView,
    command: CommandView,
    workspace: GitTreeRef,
)
    ensures
        inspected(state, branch, command, workspace).state == state,
{
}

proof fn lemma_changed_frame(
    state: StateView,
    branch: BranchView,
    command: CommandView,
    workspace: GitTreeRef,
    fresh: GitTransitionId,
)
    requires
        state.pending is None,
    ensures
        framed_step(state, changed(state, branch, command, workspace, fresh)),
{
    let step = changed(state, branch, command, workspace, fresh);
    match command {
        CommandView::Bisect { arguments } => {
            lemma_bisected_frame(state, branch, workspace, arguments, fresh);
        },
        CommandView::Reset { .. } => {
            if step.state.pending is None && step.state.reflog.len() == state.reflog.len() {
                assert(step.state =~= state);
            }
        },
        CommandView::Tag { .. } => {
            if step.state.tags == state.tags {
                assert(step.state =~= state);
            }
        },
        CommandView::Commit { .. } => {},
        CommandView::Branch { .. } => {},
        CommandView::Switch { .. } => {},
        CommandView::Restore { .. } => {},
        CommandView::Merge { .. } => {},
        CommandView::Rebase { .. } => {},
        CommandView::StashPush => {},
        CommandView::StashPop => {},
        CommandView::CherryPick { .. } => {},
        CommandView::Revert { .. } => {},
        CommandView::Clean { .. } => {},
        CommandView::Apply { .. } => {},
        CommandView::MergeContinue => {},
        CommandView::MergeAbort => {},
        _ => {
            lemma_inspected_frame(state, branch, command, workspace);
        },
    }
}

proof fn lemma_executed_frame(
    state: StateView,
    command: CommandView,
    workspace: GitTreeRef,
    fresh: GitTransitionId,
)
    requires
        state.pending is None,
    ensures
        framed_step(state, executed(state, command, workspace, fresh)),
{
    if let Some(branch) = current_branch(state) {
        lemma_changed_frame(state, branch, command, workspace, fresh);
    }
}

/// Attempts to execute a command.
fn attempt_execute<E>(
    state: GitCompatState,
    command: GitCommand,
    workspace_tree: GitTreeRef,
    fresh: GitTransitionId,
) -> (r: Result<Attempt, GitCompatError<E>>)
    ensures
        attempt_view(r) == execute_attempt::<E>(state@, command@, workspace_tree, fresh),
{
    if let Some(pending) = &state.pending {
        return Err(GitCompatError::TransitionPending(pending.id));
    }
    let ghost given = state@;
    let ghost wanted = command@;
    let mut state = state;
    let entries = state.reflog.len();
    let tags = state.tags.replicate();
    let session = match &state.bisect {
        Some(session) => Some(session.replicate()),
        None => None,
    };
    let output = match execute_command(&mut state, command, workspace_tree, fresh) {
        Err(error) => return Err(map_state_error(error)),
        Ok(output) => output,
    };
    proof {
        lemma_executed_frame(given, wanted, workspace_tree, fresh);
    }
    match output {
        GitCommandOutput::Action(action) => {
            let output = prepare_transition(&mut state, action, GitPendingMutation::NoOp, fresh);
            offer(state, output)
        },
        output => {
            if state.pending.is_none() && state.reflog.len() == entries && same_tags(
                &state.tags,
                &tags,
            ) && same_sessions(&state.bisect, &session) {
                Ok(Attempt::Settled(output))
            } else {
                offer(state, output)
            }
        },
    }
}

/// Attempts to record a publication.
fn attempt_publish<E>(state: GitCompatState, publication: &GitPublicationRecord) -> (r: Result<
    Attempt,
    GitCompatError<E>,
>)
    ensures
        attempt_view(r) == publish_attempt::<E>(state@, publication@),
{
    let ghost given = state@;
    let mut state = state;
    let head = match state.current() {
        Ok(branch) => branch.head,
        Err(_) => return Err(GitCompatError::InvalidState),
    };
    if let Some(id) = head {
        if let Some(commit) = state.commits.get(&id) {
            if commit.tree == publication.tree {
                return Ok(Attempt::Settled(GitCommandOutput::NoOp));
            }
        }
    }
    let mut parents: Vec<GitCommitId> = Vec::new();
    if let Some(id) = head {
        parents.push(id);
    }
    let ghost own = parents@;
    assert(own =~= match head {
        Some(id) => seq![id],
        None => Seq::<GitCommitId>::empty(),
    });
    if let Some(source) = publication.source_head {
        let listed = match head {
            Some(id) => id == source,
            None => false,
        };
        assert(listed == own.contains(source)) by {
            if let Some(id) = head {
                assert(own[0] == id);
            }
        }
        if !listed {
            if !state.commits.contains_key(&source) {
                state.external_parents.insert(source);
            }
            parents.push(source);
        }
    }
    let commit = GitCommit::new_with_metadata(
        publication.tree,
        publication.workspace_tree,
        publication.tracked_paths.replicate(),
        parents,
        publication.author.clone(),
        publication.authored_at_seconds,
        publication.message.clone(),
    );
    assert(state@ =~= (StateView { external_parents: state@.external_parents, ..given }));
    install_commit(&mut state, &commit, head);
    offer(state, GitCommandOutput::Committed(commit))
}

/// Attempts a request against an admitted state.
pub fn attempt<E>(request: &GitRequest, state: GitCompatState, fresh: GitTransitionId) -> (r: Result<
    Attempt,
    GitCompatError<E>,
>)
    ensures
        attempt_view(r) == attempted::<E>(request@, state@, fresh),
{
    let ghost given = state@;
    let mut state = state;
    match request {
        GitRequest::Execute { command, workspace_tree } => attempt_execute(
            state,
            command.replicate(),
            *workspace_tree,
            fresh,
        ),
        GitRequest::Complete { transition, result } => {
            let pending = match &state.pending {
                Some(pending) => {
                    if pending.id != *transition {
                        return Err(GitCompatError::StaleTransition);
                    }
                    pending.replicate()
                },
                None => return Err(GitCompatError::StaleTransition),
            };
            match validate_completion_result::<E>(&state, &pending, result) {
                Err(error) => return Err(error),
                Ok(_) => {},
            }
            match complete_pending::<E>(&mut state, pending.mutation, result) {
                Err(error) => Err(error),
                Ok(output) => {
                    let ghost after = state@;
                    state.pending = None;
                    assert(state@ =~= (StateView { pending: None, ..after }));
                    offer(state, output)
                },
            }
        },
        GitRequest::Abort { transition } => {
            let named = match &state.pending {
                Some(pending) => pending.id == *transition,
                None => false,
            };
            if !named {
                return Err(GitCompatError::StaleTransition);
            }
            state.pending = None;
            assert(state@ =~= (StateView { pending: None, ..given }));
            offer(state, GitCommandOutput::NoOp)
        },
        GitRequest::Register { branch, workspace_id, head, switch } => {
            match register_branch_workspace_state::<E>(
                &mut state,
                branch.clone(),
                *workspace_id,
                *head,
                *switch,
            ) {
                Err(error) => Err(error),
                Ok(output) => offer(state, output),
            }
        },
        GitRequest::Record { record } => {
            match record_captured_commit_state::<E>(&mut state, record.replicate()) {
                Err(error) => Err(error),
                Ok(output) => offer(state, output),
            }
        },
        GitRequest::Publish { record } => attempt_publish(state, record),
    }
}

/// What a transaction does next, or how it fails, and what it becomes.
#[verifier::ext_equal]
#[verifier::reject_recursive_types(E)]
pub struct Advance<E> {
    /// Next action, or failure.
    pub action: Result<RunActionView, CompatErrorView<E>>,
    /// The transaction after the step.
    pub transaction: TransactionView,
}

/// A finished transaction.
pub open spec fn finished_with(output: OutputView) -> RunActionView {
    RunActionView::Done { output: Some(output) }
}

/// The step of a transaction on what was loaded.
pub open spec fn transaction_loaded<E>(
    transaction: TransactionView,
    loaded: Option<StateView>,
    fresh: GitTransitionId,
) -> Advance<E> {
    match admitted(loaded, transaction.workspace_id) {
        None => Advance { action: Err(CompatErrorView::InvalidState), transaction },
        Some(state) => match attempted::<E>(transaction.request, state, fresh) {
            AttemptView::Settled(output) => Advance {
                action: Ok(finished_with(output)),
                transaction,
            },
            AttemptView::Failed(error) => Advance { action: Err(error), transaction },
            AttemptView::Replace { expected, replacement, output } => Advance {
                action: Ok(RunActionView::Swap { expected, replacement }),
                transaction: TransactionView { offered: Some(output), ..transaction },
            },
        },
    }
}

/// The step of a transaction on the answer to its offer.
pub open spec fn transaction_swapped<E>(transaction: TransactionView, published: bool) -> Advance<
    E,
> {
    match transaction.offered {
        None => Advance { action: Err(CompatErrorView::InvalidState), transaction },
        Some(output) => if published {
            Advance { action: Ok(finished_with(output)), transaction }
        } else if transaction.attempts_left <= 1 {
            Advance { action: Err(CompatErrorView::Contended), transaction }
        } else {
            Advance {
                action: Ok(RunActionView::Load),
                transaction: TransactionView {
                    attempts_left: (transaction.attempts_left - 1) as u8,
                    offered: None,
                    ..transaction
                },
            }
        },
    }
}

/// Abstract value of a step.
pub open spec fn step_view<E>(result: Result<GitRunAction, GitCompatError<E>>) -> Result<
    RunActionView,
    CompatErrorView<E>,
> {
    match result {
        Ok(action) => Ok(action@),
        Err(error) => Err(error@),
    }
}

/// A request before its first attempt.
pub open spec fn transaction_of(workspace_id: WorkspaceId, request: RequestView) -> TransactionView {
    TransactionView {
        workspace_id,
        request,
        attempts_left: MAXIMUM_CAS_ATTEMPTS,
        offered: None,
    }
}

impl GitTransaction {
    /// Starts a transaction; its first step is a read of the store.
    pub fn new(workspace_id: WorkspaceId, request: GitRequest) -> (r: Self)
        ensures
            r@ == transaction_of(workspace_id, request@),
    {
        GitTransaction {
            workspace_id,
            request,
            attempts_left: MAXIMUM_CAS_ATTEMPTS,
            offered: None,
        }
    }

    /// Takes what was loaded and decides what to do next.
    pub fn loaded<E>(&mut self, state: Option<GitCompatState>, fresh: GitTransitionId) -> (r: Result<
        GitRunAction,
        GitCompatError<E>,
    >)
        ensures
            (Advance { action: step_view(r), transaction: final(self)@ }) == transaction_loaded::<
                E,
            >(old(self)@, loaded_view(state), fresh),
    {
        let ghost before = self@;
        let state = match admit_loaded::<E>(state, self.workspace_id) {
            Err(error) => return Err(error),
            Ok(state) => state,
        };
        match attempt::<E>(&self.request, state, fresh) {
            Err(error) => Err(error),
            Ok(Attempt::Settled(output)) => Ok(GitRunAction::Done { output: Some(output) }),
            Ok(Attempt::Replace { expected, replacement, output }) => {
                let ghost out = output@;
                self.offered = Some(output);
                assert(self@ =~= (TransactionView { offered: Some(out), ..before }));
                Ok(GitRunAction::Swap { expected, replacement })
            },
        }
    }

    /// Takes the answer to the offered state and decides what to do next.
    pub fn swapped<E>(&mut self, published: bool) -> (r: Result<GitRunAction, GitCompatError<E>>)
        ensures
            (Advance { action: step_view(r), transaction: final(self)@ }) == transaction_swapped::<
                E,
            >(old(self)@, published),
    {
        let ghost before = self@;
        let output = match &self.offered {
            None => return Err(GitCompatError::InvalidState),
            Some(output) => output.replicate(),
        };
        if published {
            return Ok(GitRunAction::Done { output: Some(output) });
        }
        if self.attempts_left <= 1 {
            return Err(GitCompatError::Contended);
        }
        self.attempts_left = self.attempts_left - 1;
        self.offered = None;
        assert(self@ =~= (TransactionView {
            attempts_left: (before.attempts_left - 1) as u8,
            offered: None,
            ..before
        }));
        Ok(GitRunAction::Load)
    }
}

} // verus!
