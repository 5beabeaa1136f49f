//! What runs of commands are for.

use super::repository::{admitted, transaction_of};
use super::run::{rollback_operation, run_step, RunErrorView};
use super::types::{
    ActionView, CommandView, CompatErrorView, ContinuationView, GitTransitionId, GitTreeRef,
    OutputView, PhaseView, RequestView, ResultView, RunActionView, RunEventView,
    RunView, StateView,
};
use vstd::prelude::*;

verus! {

/// Whether a run waits for the state, to change it by a request.
pub open spec fn awaits_request(run: RunView, request: RequestView, next: ContinuationView) -> bool {
    run.phase == (PhaseView::Transact {
        transaction: transaction_of(run.workspace_id, request),
        next,
    })
}

/// What was prepared is performed under the operation that it was prepared with, and once
/// it has been, its transition is completed with the result; what the completion yields, or
/// else the result, is the output.
pub proof fn prepared_work_is_performed_and_completed<S, E>(
    run: RunView,
    transition: GitTransitionId,
    action: ActionView,
    result: ResultView,
)
    requires
        run.phase == (PhaseView::Confirm { output: OutputView::Prepared { transition, action } }),
    ensures
        ({
            let asked = run_step::<S, E>(run, RunEventView::Validated);
            let done = run_step::<S, E>(asked.run, RunEventView::Performed { result });
            let last = run_step::<S, E>(done.run, RunEventView::Validated);
            &&& asked.action == Ok::<RunActionView, RunErrorView<S, E>>(
                RunActionView::Execute { operation_id: transition.operation, action },
            )
            &&& done.action == Ok::<RunActionView, RunErrorView<S, E>>(RunActionView::Validate)
            &&& last.action == Ok::<RunActionView, RunErrorView<S, E>>(RunActionView::Load)
            &&& awaits_request(
                last.run,
                RequestView::Complete { transition, result },
                ContinuationView::Conclude { result },
            )
        }),
{
}

/// A run that takes up what is pending performs it again under its own operation, and then
/// completes it; where nothing is pending there is nothing to do.
pub proof fn pending_work_is_taken_up_again<S, E>(
    run: RunView,
    loaded: Option<StateView>,
    state: StateView,
    fresh: GitTransitionId,
    result: ResultView,
)
    requires
        run.phase == PhaseView::Resume,
        admitted(loaded, run.workspace_id) == Some(state),
    ensures
        ({
            let asked = run_step::<S, E>(run, RunEventView::Loaded { state: loaded, fresh });
            match state.pending {
                None => asked.action == Ok::<RunActionView, RunErrorView<S, E>>(
                    RunActionView::Done { output: None },
                ),
                Some(pending) => {
                    let done = run_step::<S, E>(asked.run, RunEventView::Performed { result });
                    let last = run_step::<S, E>(done.run, RunEventView::Validated);
                    &&& asked.action == Ok::<RunActionView, RunErrorView<S, E>>(
                        RunActionView::Execute {
                            operation_id: pending.id.operation,
                            action: pending.action,
                        },
                    )
                    &&& awaits_request(
                        last.run,
                        RequestView::Complete { transition: pending.id, result },
                        ContinuationView::Conclude { result },
                    )
                },
            }
        }),
{
}

/// Giving up a merge restores the tree that it started from, and then gives up its
/// transition; going on with it completes the transition with the live tree and the paths
/// of the merge. Any other pending work refuses both, and so does none.
pub proof fn merges_are_given_up_or_completed<S, E>(
    run: RunView,
    loaded: Option<StateView>,
    state: StateView,
    fresh: GitTransitionId,
    abort: bool,
    result: ResultView,
)
    requires
        run.phase == (PhaseView::Inspect {
            command: if abort {
                CommandView::MergeAbort
            } else {
                CommandView::MergeContinue
            },
        }),
        admitted(loaded, run.workspace_id) == Some(state),
    ensures
        ({
            let asked = run_step::<S, E>(run, RunEventView::Loaded { state: loaded, fresh });
            match state.pending {
                None => asked.action matches Err(
                    RunErrorView::Compat(CompatErrorView::InvalidCommand(_)),
                ),
                Some(pending) => if !(pending.mutation is Join) {
                    asked.action == Err::<RunActionView, RunErrorView<S, E>>(
                        RunErrorView::Compat(CompatErrorView::TransitionPending(pending.id)),
                    )
                } else {
                    pending.action matches ActionView::Join { target_tree, tracked_paths, .. } ==> {
                        if abort {
                            let done = run_step::<S, E>(
                                asked.run,
                                RunEventView::Performed { result },
                            );
                            let last = run_step::<S, E>(done.run, RunEventView::Validated);
                            &&& asked.action == Ok::<RunActionView, RunErrorView<S, E>>(
                                RunActionView::Execute {
                                    operation_id: rollback_operation(pending.id),
                                    action: ActionView::RestoreGeneration {
                                        tree: target_tree,
                                        paths: None,
                                    },
                                },
                            )
                            &&& awaits_request(
                                last.run,
                                RequestView::Abort { transition: pending.id },
                                ContinuationView::Aborted { result },
                            )
                        } else {
                            let last = run_step::<S, E>(asked.run, RunEventView::Validated);
                            awaits_request(
                                last.run,
                                RequestView::Complete {
                                    transition: pending.id,
                                    result: ResultView::Applied {
                                        tree: run.workspace_tree,
                                        tracked_paths: Some(tracked_paths),
                                    },
                                },
                                ContinuationView::Deliver,
                            )
                        }
                    }
                },
            }
        }),
{
}

/// A command on the live tree of the selected branch is executed on it: at once where only
/// its output is asked for, and once the tree has been validated where it is to be
/// performed. A command on a tree of another workspace is refused.
pub proof fn commands_are_executed_on_their_tree<S, E>(
    run: RunView,
    loaded: Option<StateView>,
    state: StateView,
    fresh: GitTransitionId,
    command: CommandView,
    perform: bool,
    tree: GitTreeRef,
)
    requires
        run.phase == (PhaseView::CheckTree { command, perform }),
        run.workspace_tree == Some(tree),
        admitted(loaded, run.workspace_id) == Some(state),
        state.branches.dom().contains(state.current_branch),
        !(command is Add) && !(command is MergeContinue) && !(command is MergeAbort),
    ensures
        ({
            let asked = run_step::<S, E>(run, RunEventView::Loaded { state: loaded, fresh });
            let next = run_step::<S, E>(asked.run, RunEventView::Validated);
            let request = RequestView::Execute { command, workspace_tree: tree };
            if state.branches[state.current_branch].workspace_id != tree.owner() {
                asked.action == Err::<RunActionView, RunErrorView<S, E>>(
                    RunErrorView::Compat(CompatErrorView::WorkspaceMismatch),
                )
            } else if perform {
                asked.action == Ok::<RunActionView, RunErrorView<S, E>>(RunActionView::Validate)
                    && awaits_request(next.run, request, ContinuationView::Perform)
            } else {
                awaits_request(asked.run, request, ContinuationView::Deliver)
            }
        }),
{
}

} // verus!
