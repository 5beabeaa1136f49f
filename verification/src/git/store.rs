//! Stores of private compatibility state.

use super::types::{GitCompatState, StateView};
use crate::foundation::WorkspaceId;
use crate::order::{OrderedMap, Replicate};
use vstd::prelude::*;

verus! {

/// The revision of a stored state; an absent state has revision zero.
pub open spec fn stored_revision(states: Map<WorkspaceId, StateView>, workspace_id: WorkspaceId) -> u64 {
    if states.dom().contains(workspace_id) {
        states[workspace_id].revision
    } else {
        0
    }
}

/// Optimistic-concurrency adapter for private compatibility state, held
/// exclusively by its caller.
pub trait GitCompatStore: Sized {
    /// Adapter error.
    type Error;

    /// States by workspace.
    spec fn states(&self) -> Map<WorkspaceId, StateView>;

    /// Loads the state of one workspace.
    fn load(&self, workspace_id: WorkspaceId) -> (r: Result<Option<GitCompatState>, Self::Error>)
        ensures
            r matches Ok(Some(state)) ==> self.states().dom().contains(workspace_id) && state@
                == self.states()[workspace_id],
            r matches Ok(None) ==> !self.states().dom().contains(workspace_id),
    ;

    /// Replaces one expected revision. Revision zero creates state.
    fn compare_and_swap(
        &mut self,
        workspace_id: WorkspaceId,
        expected_revision: u64,
        replacement: GitCompatState,
    ) -> (r: Result<bool, Self::Error>)
        ensures
            r matches Ok(published) ==> {
                &&& published == (stored_revision(old(self).states(), workspace_id)
                    == expected_revision)
                &&& final(self).states() == if published {
                    old(self).states().insert(workspace_id, replacement@)
                } else {
                    old(self).states()
                }
            },
    ;

    /// Removes one exact revision.
    fn compare_and_delete(&mut self, workspace_id: WorkspaceId, expected_revision: u64) -> (r:
        Result<bool, Self::Error>)
        ensures
            r matches Ok(deleted) ==> {
                &&& deleted == (stored_revision(old(self).states(), workspace_id)
                    == expected_revision)
                &&& final(self).states() == if deleted {
                    old(self).states().remove(workspace_id)
                } else {
                    old(self).states()
                }
            },
    ;
}

/// Process-local compatibility state adapter for tests and embedded callers.
pub struct MemoryGitCompatStore {
    states: OrderedMap<WorkspaceId, GitCompatState>,
}

/// Process-local compatibility store synchronization failure.
#[derive(Clone, Copy, Debug, PartialEq, Eq)]
pub struct MemoryGitCompatStoreError;

impl MemoryGitCompatStore {
    /// Creates an empty adapter.
    pub fn new() -> (r: Self)
        ensures
            r.states() == Map::<WorkspaceId, StateView>::empty(),
    {
        MemoryGitCompatStore { states: OrderedMap::new() }
    }

    fn revision(&self, workspace_id: WorkspaceId) -> (r: u64)
        ensures
            r == stored_revision(self.states(), workspace_id),
    {
        match self.states.get(&workspace_id) {
            Some(state) => state.revision,
            None => 0,
        }
    }
}

impl Default for MemoryGitCompatStore {
    fn default() -> (r: Self)
        ensures
            r.states() == Map::<WorkspaceId, StateView>::empty(),
    {
        Self::new()
    }
}

impl GitCompatStore for MemoryGitCompatStore {
    type Error = MemoryGitCompatStoreError;

    closed spec fn states(&self) -> Map<WorkspaceId, StateView> {
        self.states@
    }

    fn load(&self, workspace_id: WorkspaceId) -> (r: Result<
        Option<GitCompatState>,
        MemoryGitCompatStoreError,
    >)
        ensures
            r is Ok,
    {
        match self.states.get(&workspace_id) {
            Some(state) => Ok(Some(state.replicate())),
            None => Ok(None),
        }
    }

    fn compare_and_swap(
        &mut self,
        workspace_id: WorkspaceId,
        expected_revision: u64,
        replacement: GitCompatState,
    ) -> (r: Result<bool, MemoryGitCompatStoreError>)
        ensures
            r is Ok,
    {
        if self.revision(workspace_id) != expected_revision {
            return Ok(false);
        }
        self.states.insert(workspace_id, replacement);
        Ok(true)
    }

    fn compare_and_delete(&mut self, workspace_id: WorkspaceId, expected_revision: u64) -> (r:
        Result<bool, MemoryGitCompatStoreError>)
        ensures
            r is Ok,
    {
        if self.revision(workspace_id) != expected_revision {
            return Ok(false);
        }
        self.states.remove(&workspace_id);
        Ok(true)
    }
}

} // verus!
