//! One command and the filesystem work it needs, step by step.
//!
//! A [`GitRun`] names what must happen next: a read or conditional write of
//! the store, a confirmation by the executor, or filesystem work. The caller
//! does it and hands back what happened.

use super::argv::{parse_argv, parsed_command};
use super::commit::{abort_operation_id, action_operation_id, action_preimage, operation_of};
use super::history::current_branch;
use super::repository::{
    admit_loaded, admitted, loaded_view, step_view, transaction_loaded, transaction_of,
    transaction_swapped, Advance,
};
use super::types::{
    ActionView, CommandView, CommitRecordView, CompatErrorView, ContinuationView, GitCommand,
    GitCommandOutput, GitCommitId, GitCommitRecord, GitCompatError, GitCompatState,
    GitContinuation, GitFilesystemAction, GitFilesystemResult, GitPendingMutation,
    GitPendingTransition, GitPublicationRecord, GitRequest, GitRun, GitRunAction, GitRunEvent,
    GitRunPhase, GitTransaction, GitTransitionId, GitTreeRef, IntoGitTreeRef, OutputView,
    PendingView, PhaseView, RequestView, ResultView, RunActionView, RunEventView, RunView,
    StateView,
};
use crate::foundation::{GenerationId, OperationId, WorkspaceId};
use crate::order::{views, OrderedSet, Replicate};
use vstd::prelude::*;
use vstd::string::*;
use vstd::utf8::encode_utf8;

verus! {

/// Failure of a run.
#[derive(Debug)]
pub enum GitCompatRunError<S, E> {
    /// Compatibility state, parsing, or optimistic publication failed.
    Compat(GitCompatError<S>),
    /// The filesystem executor failed; prepared state remains recoverable.
    Executor(E),
    /// The executor returned a result that does not match the requested action.
    InvalidResult,
}

/// Abstract value of [`GitCompatRunError`].
#[verifier::ext_equal]
#[verifier::reject_recursive_types(S)]
#[verifier::reject_recursive_types(E)]
pub enum RunErrorView<S, E> {
    /// Compatibility state, parsing, or optimistic publication failed.
    Compat(CompatErrorView<S>),
    /// The filesystem executor failed; prepared state remains recoverable.
    Executor(E),
    /// The executor returned a result that does not match the requested action.
    InvalidResult,
}

impl<S, E> View for GitCompatRunError<S, E> {
    type V = RunErrorView<S, E>;

    open spec fn view(&self) -> RunErrorView<S, E> {
        match self {
            GitCompatRunError::Compat(error) => RunErrorView::Compat(error@),
            GitCompatRunError::Executor(error) => RunErrorView::Executor(*error),
            GitCompatRunError::InvalidResult => RunErrorView::InvalidResult,
        }
    }
}

/// What a run does next, or how it fails, and what it becomes.
#[verifier::ext_equal]
#[verifier::reject_recursive_types(S)]
#[verifier::reject_recursive_types(E)]
pub struct Progress<S, E> {
    /// Next action, or failure.
    pub action: Result<RunActionView, RunErrorView<S, E>>,
    /// The run after the step.
    pub run: RunView,
}

/// A run that goes on in a phase.
pub open spec fn onward<S, E>(run: RunView, phase: PhaseView, action: RunActionView) -> Progress<
    S,
    E,
> {
    Progress { action: Ok(action), run: RunView { phase, ..run } }
}

/// A run that is over with an output.
pub open spec fn concluded<S, E>(run: RunView, output: Option<OutputView>) -> Progress<S, E> {
    onward(run, PhaseView::Over, RunActionView::Done { output })
}

/// A run that fails.
pub open spec fn aborted<S, E>(run: RunView, error: RunErrorView<S, E>) -> Progress<S, E> {
    Progress { action: Err(error), run: RunView { phase: PhaseView::Over, ..run } }
}

/// A run that fails in the compatibility layer.
pub open spec fn rejected<S, E>(run: RunView, error: CompatErrorView<S>) -> Progress<S, E> {
    aborted(run, RunErrorView::Compat(error))
}

/// A run that starts to publish a request.
pub open spec fn transacting<S, E>(
    run: RunView,
    request: RequestView,
    next: ContinuationView,
) -> Progress<S, E> {
    onward(
        run,
        PhaseView::Transact { transaction: transaction_of(run.workspace_id, request), next },
        RunActionView::Load,
    )
}

/// The step on the state that owns the live tree.
pub open spec fn tree_checked<S, E>(
    run: RunView,
    state: Option<StateView>,
    command: CommandView,
    perform: bool,
) -> Progress<S, E> {
    match (state, run.workspace_tree) {
        (Some(state), Some(tree)) => match current_branch(state) {
            None => rejected(run, CompatErrorView::InvalidState),
            Some(branch) => if branch.workspace_id != tree.owner() {
                rejected(run, CompatErrorView::WorkspaceMismatch)
            } else if perform {
                onward(run, PhaseView::Admit { command }, RunActionView::Validate)
            } else {
                transacting(
                    run,
                    RequestView::Execute { command, workspace_tree: tree },
                    ContinuationView::Deliver,
                )
            },
        },
        _ => rejected(run, CompatErrorView::InvalidState),
    }
}

/// The step that executes the command itself.
pub open spec fn commanded<S, E>(run: RunView, command: CommandView) -> Progress<S, E> {
    match run.workspace_tree {
        Some(tree) => transacting(
            run,
            RequestView::Execute { command, workspace_tree: tree },
            ContinuationView::Perform,
        ),
        None => rejected(run, CompatErrorView::InvalidState),
    }
}

/// The step on the state whose pending transition decides.
pub open spec fn pending_inspected<S, E>(
    run: RunView,
    pending: Option<PendingView>,
    command: CommandView,
) -> Progress<S, E> {
    match pending {
        None => match command {
            CommandView::MergeContinue => rejected(
                run,
                CompatErrorView::InvalidCommand("merge --continue requires a pending merge"@),
            ),
            CommandView::MergeAbort => rejected(
                run,
                CompatErrorView::InvalidCommand("merge --abort requires a pending merge"@),
            ),
            _ => commanded(run, command),
        },
        Some(pending) => if !(pending.mutation is Join) {
            rejected(run, CompatErrorView::TransitionPending(pending.id))
        } else {
            match command {
                CommandView::MergeContinue => match pending.action {
                    ActionView::Join { tracked_paths, .. } => onward(
                        run,
                        PhaseView::Continue { transition: pending.id, tracked_paths },
                        RunActionView::Validate,
                    ),
                    _ => rejected(run, CompatErrorView::InvalidState),
                },
                CommandView::MergeAbort => match pending.action {
                    ActionView::Join { target_tree, .. } => onward(
                        run,
                        PhaseView::Rollback { transition: pending.id },
                        RunActionView::Execute {
                            operation_id: rollback_operation(pending.id),
                            action: ActionView::RestoreGeneration { tree: target_tree, paths: None },
                        },
                    ),
                    _ => rejected(run, CompatErrorView::InvalidState),
                },
                _ => concluded(run, Some(OutputView::NoOp)),
            }
        },
    }
}

/// Identity of the rollback of a prepared transition.
pub open spec fn rollback_operation(transition: GitTransitionId) -> OperationId {
    operation_named(transition.operation.bytes@ + encode_utf8("abort"@))
}

/// The operation whose identity is the first half of a digest.
pub open spec fn operation_named(preimage: Seq<u8>) -> OperationId {
    choose|id: OperationId| id.bytes@ == operation_of(preimage)
}

proof fn lemma_operation_named(id: OperationId, preimage: Seq<u8>)
    requires
        id.bytes@ == operation_of(preimage),
    ensures
        operation_named(preimage) == id,
{
    broadcast use vstd::array::group_array_axioms;

    assert(operation_named(preimage).bytes =~= id.bytes);
}

/// The step on the output of a finished transaction.
pub open spec fn transacted<S, E>(
    run: RunView,
    output: OutputView,
    next: ContinuationView,
) -> Progress<S, E> {
    match next {
        ContinuationView::Deliver => concluded(run, Some(output)),
        ContinuationView::Perform => onward(
            run,
            PhaseView::Confirm { output },
            RunActionView::Validate,
        ),
        ContinuationView::Conclude { result } => concluded(
            run,
            Some(
                match output {
                    OutputView::NoOp => OutputView::Filesystem(result),
                    _ => output,
                },
            ),
        ),
        ContinuationView::Aborted { result } => concluded(run, Some(OutputView::Filesystem(result))),
    }
}

/// The step on what a transaction does next.
pub open spec fn transaction_advanced<S, E>(
    run: RunView,
    advance: Advance<S>,
    next: ContinuationView,
) -> Progress<S, E> {
    match advance.action {
        Err(error) => rejected(run, error),
        Ok(action) => match action {
            RunActionView::Done { output: Some(output) } => transacted(run, output, next),
            _ => onward(
                run,
                PhaseView::Transact { transaction: advance.transaction, next },
                action,
            ),
        },
    }
}

/// The step that starts the filesystem work of an output.
pub open spec fn confirmed<S, E>(run: RunView, output: OutputView) -> Progress<S, E> {
    match output {
        OutputView::Action(action) => onward(
            run,
            PhaseView::Encode { action },
            RunActionView::Encode { action },
        ),
        OutputView::Prepared { transition, action } => onward(
            run,
            PhaseView::Execute { action, transition: Some(transition) },
            RunActionView::Execute { operation_id: transition.operation, action },
        ),
        _ => concluded(run, Some(output)),
    }
}

/// The step that records the result of filesystem work.
pub open spec fn recorded<S, E>(
    run: RunView,
    action: ActionView,
    transition: Option<GitTransitionId>,
    result: ResultView,
) -> Progress<S, E> {
    match transition {
        Some(transition) => transacting(
            run,
            RequestView::Complete { transition, result },
            ContinuationView::Conclude { result },
        ),
        None => match (action, result) {
            (
                ActionView::CaptureCommit {
                    workspace_tree,
                    message,
                    author,
                    authored_at_seconds,
                    expected_head,
                    ..
                },
                ResultView::Captured { tree, tracked_paths },
            ) => transacting(
                run,
                RequestView::Record {
                    record: CommitRecordView {
                        expected_head,
                        tree,
                        workspace_tree,
                        tracked_paths,
                        message,
                        author,
                        authored_at_seconds,
                    },
                },
                ContinuationView::Deliver,
            ),
            (
                ActionView::ForkBranch { branch, head, switch, .. },
                ResultView::Forked { workspace_id },
            ) => transacting(
                run,
                RequestView::Register { branch, workspace_id, head, switch },
                ContinuationView::Deliver,
            ),
            (ActionView::CaptureCommit { .. }, _) => aborted(run, RunErrorView::InvalidResult),
            (ActionView::ForkBranch { .. }, _) => aborted(run, RunErrorView::InvalidResult),
            _ => concluded(run, Some(OutputView::Filesystem(result))),
        },
    }
}

/// The step on the state whose pending transition is resumed.
pub open spec fn resumed<S, E>(run: RunView, pending: Option<PendingView>) -> Progress<S, E> {
    match pending {
        None => concluded(run, None),
        Some(pending) => onward(
            run,
            PhaseView::Execute { action: pending.action, transition: Some(pending.id) },
            RunActionView::Execute {
                operation_id: pending.id.operation,
                action: pending.action,
            },
        ),
    }
}

/// The step on a read of the store.
pub open spec fn on_loaded<S, E>(
    run: RunView,
    loaded: Option<StateView>,
    fresh: GitTransitionId,
) -> Progress<S, E> {
    let state = admitted(loaded, run.workspace_id);
    match run.phase {
        PhaseView::CheckTree { command, perform } => tree_checked(run, state, command, perform),
        PhaseView::Inspect { command } => match state {
            None => rejected(run, CompatErrorView::InvalidState),
            Some(state) => pending_inspected(run, state.pending, command),
        },
        PhaseView::Resume => match state {
            None => rejected(run, CompatErrorView::InvalidState),
            Some(state) => resumed(run, state.pending),
        },
        PhaseView::Transact { transaction, next } => transaction_advanced(
            run,
            transaction_loaded::<S>(transaction, loaded, fresh),
            next,
        ),
        _ => aborted(run, RunErrorView::InvalidResult),
    }
}

/// The step on a confirmation by the executor.
pub open spec fn on_validated<S, E>(run: RunView) -> Progress<S, E> {
    match run.phase {
        PhaseView::Admit { command } => match command {
            CommandView::MergeContinue => onward(
                run,
                PhaseView::Inspect { command },
                RunActionView::Load,
            ),
            CommandView::MergeAbort => onward(
                run,
                PhaseView::Inspect { command },
                RunActionView::Load,
            ),
            CommandView::Add { .. } => onward(
                run,
                PhaseView::Inspect { command },
                RunActionView::Load,
            ),
            _ => commanded(run, command),
        },
        PhaseView::Continue { transition, tracked_paths } => transacting(
            run,
            RequestView::Complete {
                transition,
                result: ResultView::Applied {
                    tree: run.workspace_tree,
                    tracked_paths: Some(tracked_paths),
                },
            },
            ContinuationView::Deliver,
        ),
        PhaseView::RolledBack { transition, result } => transacting(
            run,
            RequestView::Abort { transition },
            ContinuationView::Aborted { result },
        ),
        PhaseView::Confirm { output } => confirmed(run, output),
        PhaseView::Executed { action, transition, result } => recorded(
            run,
            action,
            transition,
            result,
        ),
        _ => aborted(run, RunErrorView::InvalidResult),
    }
}

/// The step on the result of filesystem work.
pub open spec fn on_performed<S, E>(run: RunView, result: ResultView) -> Progress<S, E> {
    match run.phase {
        PhaseView::Rollback { transition } => onward(
            run,
            PhaseView::RolledBack { transition, result },
            RunActionView::Validate,
        ),
        PhaseView::Execute { action, transition } => onward(
            run,
            PhaseView::Executed { action, transition, result },
            RunActionView::Validate,
        ),
        _ => aborted(run, RunErrorView::InvalidResult),
    }
}

/// The step on a serialized action.
pub open spec fn on_encoded<S, E>(run: RunView, bytes: Seq<u8>) -> Progress<S, E> {
    match (run.phase, run.workspace_tree) {
        (PhaseView::Encode { action }, Some(tree)) => onward(
            run,
            PhaseView::Execute { action, transition: None },
            RunActionView::Execute {
                operation_id: operation_named(action_preimage(run.workspace_id, tree, bytes)),
                action,
            },
        ),
        _ => aborted(run, RunErrorView::InvalidResult),
    }
}

/// The step on the answer to an offered state.
pub open spec fn on_swapped<S, E>(run: RunView, published: bool) -> Progress<S, E> {
    match run.phase {
        PhaseView::Transact { transaction, next } => transaction_advanced(
            run,
            transaction_swapped::<S>(transaction, published),
            next,
        ),
        _ => aborted(run, RunErrorView::InvalidResult),
    }
}

/// The step of a run on one event. An event that the run does not wait for
/// ends it.
pub open spec fn run_step<S, E>(run: RunView, event: RunEventView) -> Progress<S, E> {
    match event {
        RunEventView::Loaded { state, fresh } => on_loaded(run, state, fresh),
        RunEventView::Swapped { published } => on_swapped(run, published),
        RunEventView::Validated => on_validated(run),
        RunEventView::Encoded { bytes } => on_encoded(run, bytes),
        RunEventView::Performed { result } => on_performed(run, result),
    }
}

/// Abstract value of a step.
pub open spec fn progress<S, E>(
    result: Result<GitRunAction, GitCompatRunError<S, E>>,
    run: RunView,
) -> Progress<S, E> {
    Progress {
        action: match result {
            Ok(action) => Ok(action@),
            Err(error) => Err(error@),
        },
        run,
    }
}

impl GitRun {
    fn go<S, E>(&mut self, phase: GitRunPhase, action: GitRunAction) -> (r: Result<
        GitRunAction,
        GitCompatRunError<S, E>,
    >)
        ensures
            progress(r, final(self)@) == onward::<S, E>(old(self)@, phase@, action@),
    {
        let ghost before = self@;
        self.phase = phase;
        assert(self@ =~= (RunView { phase: self.phase@, ..before }));
        Ok(action)
    }

    fn conclude<S, E>(&mut self, output: Option<GitCommandOutput>) -> (r: Result<
        GitRunAction,
        GitCompatRunError<S, E>,
    >)
        ensures
            progress(r, final(self)@) == concluded::<S, E>(
                old(self)@,
                match output {
                    Some(output) => Some(output@),
                    None => None,
                },
            ),
    {
        self.go(GitRunPhase::Over, GitRunAction::Done { output })
    }

    fn fail<S, E>(&mut self, error: GitCompatRunError<S, E>) -> (r: Result<
        GitRunAction,
        GitCompatRunError<S, E>,
    >)
        ensures
            progress(r, final(self)@) == aborted::<S, E>(old(self)@, error@),
    {
        let ghost before = self@;
        self.phase = GitRunPhase::Over;
        assert(self@ =~= (RunView { phase: PhaseView::Over, ..before }));
        Err(error)
    }

    fn reject<S, E>(&mut self, error: GitCompatError<S>) -> (r: Result<
        GitRunAction,
        GitCompatRunError<S, E>,
    >)
        ensures
            progress(r, final(self)@) == rejected::<S, E>(old(self)@, error@),
    {
        self.fail(GitCompatRunError::Compat(error))
    }

    fn transact<S, E>(&mut self, request: GitRequest, next: GitContinuation) -> (r: Result<
        GitRunAction,
        GitCompatRunError<S, E>,
    >)
        ensures
            progress(r, final(self)@) == transacting::<S, E>(old(self)@, request@, next@),
    {
        let transaction = GitTransaction::new(self.workspace_id, request);
        self.go(GitRunPhase::Transact { transaction, next }, GitRunAction::Load)
    }

    fn take_phase(&mut self) -> (r: GitRunPhase)
        ensures
            r@ == old(self)@.phase,
            final(self)@ == (RunView { phase: PhaseView::Over, ..old(self)@ }),
    {
        let ghost before = self@;
        let mut phase = GitRunPhase::Over;
        core::mem::swap(&mut phase, &mut self.phase);
        assert(self@ =~= (RunView { phase: PhaseView::Over, ..before }));
        phase
    }

    fn command<S, E>(&mut self, command: GitCommand) -> (r: Result<
        GitRunAction,
        GitCompatRunError<S, E>,
    >)
        ensures
            progress(r, final(self)@) == commanded::<S, E>(old(self)@, command@),
    {
        match self.workspace_tree {
            Some(tree) => self.transact(
                GitRequest::Execute { command, workspace_tree: tree },
                GitContinuation::Perform,
            ),
            None => self.reject(GitCompatError::InvalidState),
        }
    }

    fn check_tree<S, E>(&mut self, state: GitCompatState, command: GitCommand, perform: bool) -> (r:
        Result<GitRunAction, GitCompatRunError<S, E>>)
        ensures
            progress(r, final(self)@) == tree_checked::<S, E>(
                old(self)@,
                Some(state@),
                command@,
                perform,
            ),
    {
        let tree = match self.workspace_tree {
            Some(tree) => tree,
            None => return self.reject(GitCompatError::InvalidState),
        };
        let workspace_id = match state.current() {
            Ok(branch) => branch.workspace_id,
            Err(_) => return self.reject(GitCompatError::InvalidState),
        };
        if workspace_id != tree.workspace_id() {
            return self.reject(GitCompatError::WorkspaceMismatch);
        }
        if perform {
            self.go(GitRunPhase::Admit { command }, GitRunAction::Validate)
        } else {
            self.transact(
                GitRequest::Execute { command, workspace_tree: tree },
                GitContinuation::Deliver,
            )
        }
    }

    fn inspect_pending<S, E>(&mut self, pending: Option<GitPendingTransition>, command: GitCommand)
        -> (r: Result<GitRunAction, GitCompatRunError<S, E>>)
        ensures
            progress(r, final(self)@) == pending_inspected::<S, E>(
                old(self)@,
                match pending {
                    Some(pending) => Some(pending@),
                    None => None,
                },
                command@,
            ),
    {
        let pending = match pending {
            None => {
                return match command {
                    GitCommand::MergeContinue => self.reject(
                        GitCompatError::InvalidCommand(
                            "merge --continue requires a pending merge".to_owned(),
                        ),
                    ),
                    GitCommand::MergeAbort => self.reject(
                        GitCompatError::InvalidCommand(
                            "merge --abort requires a pending merge".to_owned(),
                        ),
                    ),
                    command => self.command(command),
                };
            },
            Some(pending) => pending,
        };
        let joins = match &pending.mutation {
            GitPendingMutation::Join { .. } => true,
            _ => false,
        };
        if !joins {
            return self.reject(GitCompatError::TransitionPending(pending.id));
        }
        match command {
            GitCommand::MergeContinue => match pending.action {
                GitFilesystemAction::Join { tracked_paths, .. } => self.go(
                    GitRunPhase::Continue { transition: pending.id, tracked_paths },
                    GitRunAction::Validate,
                ),
                _ => self.reject(GitCompatError::InvalidState),
            },
            GitCommand::MergeAbort => match pending.action {
                GitFilesystemAction::Join { target_tree, .. } => {
                    let operation_id = abort_operation_id(pending.id);
                    proof {
                        lemma_operation_named(
                            operation_id,
                            pending.id.operation.bytes@ + encode_utf8("abort"@),
                        );
                    }
                    self.go(
                        GitRunPhase::Rollback { transition: pending.id },
                        GitRunAction::Execute {
                            operation_id,
                            action: GitFilesystemAction::RestoreGeneration {
                                tree: target_tree,
                                paths: None,
                            },
                        },
                    )
                },
                _ => self.reject(GitCompatError::InvalidState),
            },
            _ => self.conclude(Some(GitCommandOutput::NoOp)),
        }
    }

    fn resume_pending<S, E>(&mut self, pending: Option<GitPendingTransition>) -> (r: Result<
        GitRunAction,
        GitCompatRunError<S, E>,
    >)
        ensures
            progress(r, final(self)@) == resumed::<S, E>(
                old(self)@,
                match pending {
                    Some(pending) => Some(pending@),
                    None => None,
                },
            ),
    {
        match pending {
            None => self.conclude(None),
            Some(pending) => {
                let action = pending.action.replicate();
                self.go(
                    GitRunPhase::Execute { action: pending.action, transition: Some(pending.id) },
                    GitRunAction::Execute { operation_id: pending.id.operation_id(), action },
                )
            },
        }
    }

    fn finish_transaction<S, E>(&mut self, output: GitCommandOutput, next: GitContinuation) -> (r:
        Result<GitRunAction, GitCompatRunError<S, E>>)
        ensures
            progress(r, final(self)@) == transacted::<S, E>(old(self)@, output@, next@),
    {
        match next {
            GitContinuation::Deliver => self.conclude(Some(output)),
            GitContinuation::Perform => self.go(
                GitRunPhase::Confirm { output },
                GitRunAction::Validate,
            ),
            GitContinuation::Conclude { result } => {
                let output = match output {
                    GitCommandOutput::NoOp => GitCommandOutput::Filesystem(result),
                    output => output,
                };
                self.conclude(Some(output))
            },
            GitContinuation::Aborted { result } => self.conclude(
                Some(GitCommandOutput::Filesystem(result)),
            ),
        }
    }

    fn advance_transaction<S, E>(
        &mut self,
        transaction: GitTransaction,
        action: Result<GitRunAction, GitCompatError<S>>,
        next: GitContinuation,
    ) -> (r: Result<GitRunAction, GitCompatRunError<S, E>>)
        ensures
            progress(r, final(self)@) == transaction_advanced::<S, E>(
                old(self)@,
                Advance { action: step_view(action), transaction: transaction@ },
                next@,
            ),
    {
        match action {
            Err(error) => self.reject(error),
            Ok(GitRunAction::Done { output: Some(output) }) => self.finish_transaction(
                output,
                next,
            ),
            Ok(action) => self.go(GitRunPhase::Transact { transaction, next }, action),
        }
    }

    fn confirm_output<S, E>(&mut self, output: GitCommandOutput) -> (r: Result<
        GitRunAction,
        GitCompatRunError<S, E>,
    >)
        ensures
            progress(r, final(self)@) == confirmed::<S, E>(old(self)@, output@),
    {
        match output {
            GitCommandOutput::Action(action) => {
                let held = action.replicate();
                self.go(GitRunPhase::Encode { action: held }, GitRunAction::Encode { action })
            },
            GitCommandOutput::Prepared { transition, action } => {
                let held = action.replicate();
                self.go(
                    GitRunPhase::Execute { action: held, transition: Some(transition) },
                    GitRunAction::Execute { operation_id: transition.operation_id(), action },
                )
            },
            output => self.conclude(Some(output)),
        }
    }

    /// Records the result of filesystem work.
    fn finish_output<S, E>(
        &mut self,
        action: GitFilesystemAction,
        transition: Option<GitTransitionId>,
        result: GitFilesystemResult,
    ) -> (r: Result<GitRunAction, GitCompatRunError<S, E>>)
        ensures
            progress(r, final(self)@) == recorded::<S, E>(
                old(self)@,
                action@,
                transition,
                result@,
            ),
    {
        if let Some(transition) = transition {
            let held = result.replicate();
            return self.transact(
                GitRequest::Complete { transition, result },
                GitContinuation::Conclude { result: held },
            );
        }
        match action {
            GitFilesystemAction::CaptureCommit {
                workspace_tree,
                message,
                author,
                authored_at_seconds,
                expected_head,
                ..
            } => match result {
                GitFilesystemResult::Captured { tree, tracked_paths } => self.transact(
                    GitRequest::Record {
                        record: GitCommitRecord {
                            expected_head,
                            tree,
                            workspace_tree,
                            tracked_paths,
                            message,
                            author,
                            authored_at_seconds,
                        },
                    },
                    GitContinuation::Deliver,
                ),
                _ => self.fail(GitCompatRunError::InvalidResult),
            },
            GitFilesystemAction::ForkBranch { branch, head, switch, .. } => match result {
                GitFilesystemResult::Forked { workspace_id } => self.transact(
                    GitRequest::Register { branch, workspace_id, head, switch },
                    GitContinuation::Deliver,
                ),
                _ => self.fail(GitCompatRunError::InvalidResult),
            },
            _ => self.conclude(Some(GitCommandOutput::Filesystem(result))),
        }
    }

    fn loaded<S, E>(&mut self, state: Option<GitCompatState>, fresh: GitTransitionId) -> (r: Result<
        GitRunAction,
        GitCompatRunError<S, E>,
    >)
        ensures
            progress(r, final(self)@) == on_loaded::<S, E>(old(self)@, loaded_view(state), fresh),
    {
        match self.take_phase() {
            GitRunPhase::CheckTree { command, perform } => {
                match admit_loaded::<S>(state, self.workspace_id) {
                    Err(error) => self.reject(error),
                    Ok(state) => self.check_tree(state, command, perform),
                }
            },
            GitRunPhase::Inspect { command } => {
                match admit_loaded::<S>(state, self.workspace_id) {
                    Err(error) => self.reject(error),
                    Ok(state) => self.inspect_pending(state.pending, command),
                }
            },
            GitRunPhase::Resume => match admit_loaded::<S>(state, self.workspace_id) {
                Err(error) => self.reject(error),
                Ok(state) => self.resume_pending(state.pending),
            },
            GitRunPhase::Transact { transaction, next } => {
                let mut transaction = transaction;
                let action = transaction.loaded::<S>(state, fresh);
                self.advance_transaction(transaction, action, next)
            },
            _ => self.fail(GitCompatRunError::InvalidResult),
        }
    }

    fn validated<S, E>(&mut self) -> (r: Result<GitRunAction, GitCompatRunError<S, E>>)
        ensures
            progress(r, final(self)@) == on_validated::<S, E>(old(self)@),
    {
        match self.take_phase() {
            GitRunPhase::Admit { command } => match command {
                GitCommand::MergeContinue => self.go(
                    GitRunPhase::Inspect { command: GitCommand::MergeContinue },
                    GitRunAction::Load,
                ),
                GitCommand::MergeAbort => self.go(
                    GitRunPhase::Inspect { command: GitCommand::MergeAbort },
                    GitRunAction::Load,
                ),
                GitCommand::Add { paths } => self.go(
                    GitRunPhase::Inspect { command: GitCommand::Add { paths } },
                    GitRunAction::Load,
                ),
                command => self.command(command),
            },
            GitRunPhase::Continue { transition, tracked_paths } => {
                let result = GitFilesystemResult::Applied {
                    tree: self.workspace_tree,
                    tracked_paths: Some(tracked_paths),
                };
                self.transact(
                    GitRequest::Complete { transition, result },
                    GitContinuation::Deliver,
                )
            },
            GitRunPhase::RolledBack { transition, result } => self.transact(
                GitRequest::Abort { transition },
                GitContinuation::Aborted { result },
            ),
            GitRunPhase::Confirm { output } => self.confirm_output(output),
            GitRunPhase::Executed { action, transition, result } => self.finish_output(
                action,
                transition,
                result,
            ),
            _ => self.fail(GitCompatRunError::InvalidResult),
        }
    }

    fn performed<S, E>(&mut self, result: GitFilesystemResult) -> (r: Result<
        GitRunAction,
        GitCompatRunError<S, E>,
    >)
        ensures
            progress(r, final(self)@) == on_performed::<S, E>(old(self)@, result@),
    {
        match self.take_phase() {
            GitRunPhase::Rollback { transition } => self.go(
                GitRunPhase::RolledBack { transition, result },
                GitRunAction::Validate,
            ),
            GitRunPhase::Execute { action, transition } => self.go(
                GitRunPhase::Executed { action, transition, result },
                GitRunAction::Validate,
            ),
            _ => self.fail(GitCompatRunError::InvalidResult),
        }
    }

    fn encoded<S, E>(&mut self, bytes: Vec<u8>) -> (r: Result<
        GitRunAction,
        GitCompatRunError<S, E>,
    >)
        ensures
            progress(r, final(self)@) == on_encoded::<S, E>(old(self)@, bytes@),
    {
        match (self.take_phase(), self.workspace_tree) {
            (GitRunPhase::Encode { action }, Some(tree)) => {
                let operation_id = action_operation_id(self.workspace_id, tree, bytes.as_slice());
                proof {
                    lemma_operation_named(
                        operation_id,
                        action_preimage(self.workspace_id, tree, bytes@),
                    );
                }
                let held = action.replicate();
                self.go(
                    GitRunPhase::Execute { action: held, transition: None },
                    GitRunAction::Execute { operation_id, action },
                )
            },
            _ => self.fail(GitCompatRunError::InvalidResult),
        }
    }

    fn swapped<S, E>(&mut self, published: bool) -> (r: Result<
        GitRunAction,
        GitCompatRunError<S, E>,
    >)
        ensures
            progress(r, final(self)@) == on_swapped::<S, E>(old(self)@, published),
    {
        match self.take_phase() {
            GitRunPhase::Transact { transaction, next } => {
                let mut transaction = transaction;
                let action = transaction.swapped::<S>(published);
                self.advance_transaction(transaction, action, next)
            },
            _ => self.fail(GitCompatRunError::InvalidResult),
        }
    }

    /// Takes one event and decides what must happen next.
    pub fn step<S, E>(&mut self, event: GitRunEvent) -> (r: Result<
        GitRunAction,
        GitCompatRunError<S, E>,
    >)
        ensures
            progress(r, final(self)@) == run_step::<S, E>(old(self)@, event@),
    {
        match event {
            GitRunEvent::Loaded { state, fresh } => self.loaded(state, fresh),
            GitRunEvent::Swapped { published } => self.swapped(published),
            GitRunEvent::Validated => self.validated(),
            GitRunEvent::Encoded { bytes } => self.encoded(bytes),
            GitRunEvent::Performed { result } => self.performed(result),
        }
    }
}

/// Repository façade over one workspace and private compatibility state.
pub struct GitCompatRepository<S> {
    workspace_id: WorkspaceId,
    store: S,
}

impl<S> GitCompatRepository<S> {
    /// Workspace that the repository lives in.
    pub closed spec fn workspace(&self) -> WorkspaceId {
        self.workspace_id
    }

    /// State adapter of the repository.
    pub closed spec fn adapter(&self) -> S {
        self.store
    }

    /// Creates a façade. State is initialized lazily on the first command.
    pub fn new(workspace_id: WorkspaceId, store: S) -> (r: Self)
        ensures
            r.workspace() == workspace_id,
            r.adapter() == store,
    {
        GitCompatRepository { workspace_id, store }
    }

    /// Borrows the state adapter.
    pub fn store(&self) -> (r: &S)
        ensures
            *r == self.adapter(),
    {
        &self.store
    }

    /// Returns the paths tracked by the current branch of a loaded state.
    pub fn tracked_paths<E>(&self, loaded: Option<GitCompatState>) -> (r: Result<
        OrderedSet<String>,
        GitCompatError<E>,
    >)
        ensures
            match (r, admitted(loaded_view(loaded), self.workspace())) {
                (Ok(paths), Some(state)) => current_branch(state) matches Some(branch) && paths@
                    == branch.tracked_paths,
                (Err(error), None) => error@ == CompatErrorView::<E>::InvalidState,
                _ => false,
            },
    {
        match admit_loaded::<E>(loaded, self.workspace_id) {
            Err(error) => Err(error),
            Ok(state) => match state.current() {
                Ok(branch) => Ok(branch.tracked_paths.replicate()),
                Err(_) => Err(GitCompatError::InvalidState),
            },
        }
    }

    /// Returns the latest explicit commit of the current branch of a loaded state.
    pub fn head<E>(&self, loaded: Option<GitCompatState>) -> (r: Result<
        Option<GitCommitId>,
        GitCompatError<E>,
    >)
        ensures
            match (r, admitted(loaded_view(loaded), self.workspace())) {
                (Ok(head), Some(state)) => current_branch(state) matches Some(branch) && head
                    == branch.head,
                (Err(error), None) => error@ == CompatErrorView::<E>::InvalidState,
                _ => false,
            },
    {
        match admit_loaded::<E>(loaded, self.workspace_id) {
            Err(error) => Err(error),
            Ok(state) => match state.current() {
                Ok(branch) => Ok(branch.head),
                Err(_) => Err(GitCompatError::InvalidState),
            },
        }
    }

    /// Returns the transition of a loaded state that requires recovery.
    pub fn pending_transition<E>(&self, loaded: Option<GitCompatState>) -> (r: Result<
        Option<GitPendingTransition>,
        GitCompatError<E>,
    >)
        ensures
            match (r, admitted(loaded_view(loaded), self.workspace())) {
                (Ok(pending), Some(state)) => state.pending == match pending {
                    Some(pending) => Some(pending@),
                    None => None,
                },
                (Err(error), None) => error@ == CompatErrorView::<E>::InvalidState,
                _ => false,
            },
    {
        match admit_loaded::<E>(loaded, self.workspace_id) {
            Err(error) => Err(error),
            Ok(state) => Ok(state.pending),
        }
    }

    /// Starts a command and all filesystem work it needs; the first step is a
    /// read of the store.
    pub fn run<T: IntoGitTreeRef>(&self, command: GitCommand, workspace_tree: T) -> (r: GitRun)
        ensures
            r@ == (RunView {
                workspace_id: self.workspace(),
                workspace_tree: Some(workspace_tree.tree_ref(self.workspace())),
                phase: PhaseView::CheckTree { command: command@, perform: true },
            }),
    {
        let tree = workspace_tree.into_git_tree_ref(self.workspace_id);
        GitRun {
            workspace_id: self.workspace_id,
            workspace_tree: Some(tree),
            phase: GitRunPhase::CheckTree { command, perform: true },
        }
    }

    /// Starts a command without its filesystem work.
    pub fn execute<T: IntoGitTreeRef>(&self, command: GitCommand, workspace_tree: T) -> (r: GitRun)
        ensures
            r@ == (RunView {
                workspace_id: self.workspace(),
                workspace_tree: Some(workspace_tree.tree_ref(self.workspace())),
                phase: PhaseView::CheckTree { command: command@, perform: false },
            }),
    {
        let tree = workspace_tree.into_git_tree_ref(self.workspace_id);
        GitRun {
            workspace_id: self.workspace_id,
            workspace_tree: Some(tree),
            phase: GitRunPhase::CheckTree { command, perform: false },
        }
    }

    /// Parses the words that follow the umbrella command and starts a run.
    pub fn run_argv<T: IntoGitTreeRef, E>(
        &self,
        argv: &[String],
        workspace_tree: T,
        default_author: &str,
        now_seconds: i64,
    ) -> (r: Result<GitRun, GitCompatError<E>>)
        ensures
            match parsed_command::<E>(views(argv@), default_author@, now_seconds) {
                Ok(command) => r matches Ok(run) && run@ == (RunView {
                    workspace_id: self.workspace(),
                    workspace_tree: Some(workspace_tree.tree_ref(self.workspace())),
                    phase: PhaseView::CheckTree { command, perform: true },
                }),
                Err(problem) => r matches Err(error) && error@ == problem,
            },
    {
        match parse_argv::<E>(argv, default_author, now_seconds) {
            Ok(command) => Ok(self.run(command, workspace_tree)),
            Err(error) => Err(error),
        }
    }

    /// Parses the words that follow the umbrella command and starts the command
    /// without its filesystem work.
    pub fn execute_argv<T: IntoGitTreeRef, E>(
        &self,
        argv: &[String],
        workspace_tree: T,
        default_author: &str,
        now_seconds: i64,
    ) -> (r: Result<GitRun, GitCompatError<E>>)
        ensures
            match parsed_command::<E>(views(argv@), default_author@, now_seconds) {
                Ok(command) => r matches Ok(run) && run@ == (RunView {
                    workspace_id: self.workspace(),
                    workspace_tree: Some(workspace_tree.tree_ref(self.workspace())),
                    phase: PhaseView::CheckTree { command, perform: false },
                }),
                Err(problem) => r matches Err(error) && error@ == problem,
            },
    {
        match parse_argv::<E>(argv, default_author, now_seconds) {
            Ok(command) => Ok(self.execute(command, workspace_tree)),
            Err(error) => Err(error),
        }
    }

    /// Starts the recovery of the durable pending transition, if any.
    pub fn resume(&self) -> (r: GitRun)
        ensures
            r@ == (RunView {
                workspace_id: self.workspace(),
                workspace_tree: None,
                phase: PhaseView::Resume,
            }),
    {
        GitRun {
            workspace_id: self.workspace_id,
            workspace_tree: None,
            phase: GitRunPhase::Resume,
        }
    }

    /// Starts the commit of a prepared transition whose work left a tree.
    pub fn complete_transition(
        &self,
        transition: GitTransitionId,
        resulting_tree: Option<GitTreeRef>,
    ) -> (r: GitTransaction)
        ensures
            r@ == transaction_of(
                self.workspace(),
                RequestView::Complete {
                    transition,
                    result: ResultView::Applied { tree: resulting_tree, tracked_paths: None },
                },
            ),
    {
        self.complete_transition_result(
            transition,
            GitFilesystemResult::Applied { tree: resulting_tree, tracked_paths: None },
        )
    }

    /// Starts the commit of a prepared transition with its complete result.
    pub fn complete_transition_result(
        &self,
        transition: GitTransitionId,
        result: GitFilesystemResult,
    ) -> (r: GitTransaction)
        ensures
            r@ == transaction_of(
                self.workspace(),
                RequestView::Complete { transition, result: result@ },
            ),
    {
        GitTransaction::new(self.workspace_id, GitRequest::Complete { transition, result })
    }

    /// Starts the removal of a prepared transition whose effects do not remain.
    pub fn abort_transition(&self, transition: GitTransitionId) -> (r: GitTransaction)
        ensures
            r@ == transaction_of(self.workspace(), RequestView::Abort { transition }),
    {
        GitTransaction::new(self.workspace_id, GitRequest::Abort { transition })
    }

    /// Starts the registration of a branch workspace.
    ///
    /// Registration is idempotent for the same branch, workspace and head, and
    /// rejects any competing result.
    pub fn register_branch_workspace(
        &self,
        branch: String,
        workspace_id: WorkspaceId,
        head: Option<GitCommitId>,
        switch: bool,
    ) -> (r: GitTransaction)
        ensures
            r@ == transaction_of(
                self.workspace(),
                RequestView::Register { branch: branch@, workspace_id, head, switch },
            ),
    {
        GitTransaction::new(
            self.workspace_id,
            GitRequest::Register { branch, workspace_id, head, switch },
        )
    }

    /// Starts the record of a commit whose filtered and live trees agree.
    pub fn record_commit(
        &self,
        expected_head: Option<GitCommitId>,
        generation: GenerationId,
        tracked_paths: OrderedSet<String>,
        message: String,
        author: String,
        authored_at_seconds: i64,
    ) -> (r: GitTransaction)
        ensures
            r@ == transaction_of(
                self.workspace(),
                RequestView::Record {
                    record: CommitRecordView {
                        expected_head,
                        tree: generation.tree_ref(self.workspace()),
                        workspace_tree: generation.tree_ref(self.workspace()),
                        tracked_paths: tracked_paths@,
                        message: message@,
                        author: author@,
                        authored_at_seconds,
                    },
                },
            ),
    {
        let tree = generation.into_git_tree_ref(self.workspace_id);
        let record = GitCommitRecord {
            expected_head,
            tree,
            workspace_tree: tree,
            tracked_paths,
            message,
            author,
            authored_at_seconds,
        };
        GitTransaction::new(self.workspace_id, GitRequest::Record { record })
    }

    /// Starts the record of a publication performed by the workspace layer.
    pub fn record_publication(&self, publication: GitPublicationRecord) -> (r: GitTransaction)
        ensures
            r@ == transaction_of(
                self.workspace(),
                RequestView::Publish { record: publication@ },
            ),
    {
        GitTransaction::new(self.workspace_id, GitRequest::Publish { record: publication })
    }
}

} // verus!
