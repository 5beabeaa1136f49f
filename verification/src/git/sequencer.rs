//! Durable transitions prepared before filesystem work.

use super::history::{GitCompatStateError, StateErrorView};
use super::types::{
    ActionView, GitCommandOutput, GitCompatState, GitFilesystemAction, GitPendingMutation,
    GitPendingTransition, GitTransitionId, MutationView, OutputView, PendingView, StateView,
};
use crate::order::Replicate;
use vstd::prelude::*;

verus! {

/// What a command yields and the state it leaves.
#[verifier::ext_equal]
pub struct Step {
    /// Result of the command.
    pub output: Result<OutputView, StateErrorView>,
    /// State after the command.
    pub state: StateView,
}

impl Step {
    /// The step that a concrete result and state make up.
    pub open spec fn of(
        result: Result<GitCommandOutput, GitCompatStateError>,
        state: StateView,
    ) -> Step {
        Step {
            output: match result {
                Ok(output) => Ok(output@),
                Err(error) => Err(error@),
            },
            state,
        }
    }
}

/// A durable intent to perform an action and then a mutation.
pub open spec fn prepared(
    state: StateView,
    action: ActionView,
    mutation: MutationView,
    transition: GitTransitionId,
) -> Step {
    Step {
        output: Ok(OutputView::Prepared { transition, action }),
        state: StateView {
            pending: Some(PendingView { id: transition, action, mutation }),
            ..state
        },
    }
}

/// Records a durable intent to perform an action and then a mutation.
pub fn prepare_transition(
    state: &mut GitCompatState,
    action: GitFilesystemAction,
    mutation: GitPendingMutation,
    transition: GitTransitionId,
) -> (r: GitCommandOutput)
    ensures
        Step::of(Ok(r), final(state)@) == prepared(old(state)@, action@, mutation@, transition),
{
    let ghost before = state@;
    state.pending = Some(
        GitPendingTransition { id: transition, action: action.replicate(), mutation },
    );
    let r = GitCommandOutput::Prepared { transition, action };
    assert(Step::of(Ok(r), state@) =~= prepared(before, action@, mutation@, transition));
    r
}

} // verus!
