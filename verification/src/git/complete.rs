//! Deferred mutations, committed once their filesystem work is done.

use super::commit::commit_made;
use super::history::{current_branch, record, with_head};
use super::types::{
    BranchView, CommitView, CompatErrorView, GitBranch, GitCommandOutput, GitCommit, GitCommitId,
    GitCommitRecord, GitCompatError, GitCompatState, GitFilesystemResult, GitPendingMutation,
    GitPendingTransition, GitTreeRef, MutationView, OutputView, ResultView, StateView,
};
use crate::digest::hex_chars;
use crate::foundation::WorkspaceId;
use crate::order::{OrderedSet, Replicate};
use crate::text::text_pair;
use vstd::prelude::*;
use vstd::string::*;

verus! {

/// What a completion yields and the state it leaves.
#[verifier::ext_equal]
#[verifier::reject_recursive_types(E)]
pub struct Completion<E> {
    /// Result of the completion.
    pub output: Result<OutputView, CompatErrorView<E>>,
    /// State after the completion.
    pub state: StateView,
}

impl<E> Completion<E> {
    /// The completion that a concrete result and state make up.
    pub open spec fn of(
        result: Result<GitCommandOutput, GitCompatError<E>>,
        state: StateView,
    ) -> Completion<E> {
        Completion {
            output: match result {
                Ok(output) => Ok(output@),
                Err(error) => Err(error@),
            },
            state,
        }
    }
}

/// A failed completion and the state it leaves.
pub open spec fn failed<E>(state: StateView, error: CompatErrorView<E>) -> Completion<E> {
    Completion { output: Err(error), state }
}

/// A completion without output.
pub open spec fn settled<E>(state: StateView) -> Completion<E> {
    Completion { output: Ok(OutputView::NoOp), state }
}

/// The state after a commit becomes the head of the selected branch.
pub open spec fn with_commit(
    state: StateView,
    commit: CommitView,
    previous: Option<GitCommitId>,
) -> StateView {
    with_head(
        StateView {
            reflog: seq![previous] + state.reflog,
            commits: state.commits.insert(commit.id, commit),
            ..state
        },
        commit.id,
        commit.tracked_paths,
    )
}

/// Parents made of the heads that exist.
pub open spec fn parents_from(first: Option<GitCommitId>, second: Option<GitCommitId>) -> Seq<
    GitCommitId,
> {
    (match first {
        Some(id) => seq![id],
        None => Seq::empty(),
    }) + (match second {
        Some(id) => seq![id],
        None => Seq::empty(),
    })
}

/// The tree that a filesystem result leaves behind.
pub open spec fn tree_left(result: ResultView) -> Option<GitTreeRef> {
    match result {
        ResultView::Captured { tree, .. } => Some(tree),
        ResultView::Applied { tree, .. } => tree,
        ResultView::Forked { .. } => None,
        ResultView::Data { .. } => None,
    }
}

/// A recorded commit of a captured tree.
pub open spec fn captured<E>(
    state: StateView,
    expected_head: Option<GitCommitId>,
    tree: GitTreeRef,
    workspace_tree: GitTreeRef,
    tracked_paths: Set<Seq<char>>,
    message: Seq<char>,
    author: Seq<char>,
    authored_at_seconds: i64,
) -> Completion<E> {
    match current_branch(state) {
        None => failed(state, CompatErrorView::InvalidState),
        Some(branch) => if branch.head != expected_head {
            failed(state, CompatErrorView::InvalidState)
        } else if record(state.commits, branch.head) is Some && record(
            state.commits,
            branch.head,
        )->0.tree == tree {
            failed(state, CompatErrorView::NothingToCommit)
        } else {
            let commit = commit_made(
                tree,
                workspace_tree,
                tracked_paths,
                parents_from(branch.head, None),
                author,
                authored_at_seconds,
                message,
            );
            Completion {
                output: Ok(OutputView::Committed(commit)),
                state: with_commit(state, commit, branch.head),
            }
        },
    }
}

/// The tracked paths that a branch inherits from its head.
pub open spec fn inherited_paths(state: StateView, head: Option<GitCommitId>) -> Set<Seq<char>> {
    match record(state.commits, head) {
        Some(commit) => commit.tracked_paths,
        None => Set::empty(),
    }
}

/// A registered branch workspace.
pub open spec fn registered<E>(
    state: StateView,
    name: Seq<char>,
    workspace_id: WorkspaceId,
    head: Option<GitCommitId>,
    switch: bool,
) -> Completion<E> {
    let selected = if switch {
        name
    } else {
        state.current_branch
    };
    if state.branches.dom().contains(name) {
        let existing = state.branches[name];
        if existing.workspace_id != workspace_id || existing.head != head {
            failed(state, CompatErrorView::BranchExists(name))
        } else {
            settled(StateView { current_branch: selected, ..state })
        }
    } else {
        settled(
            StateView {
                branches: state.branches.insert(
                    name,
                    BranchView {
                        name,
                        workspace_id,
                        head,
                        tracked_paths: inherited_paths(state, head),
                    },
                ),
                current_branch: selected,
                ..state
            },
        )
    }
}

/// A generated commit of a joined or applied tree.
pub open spec fn generated<E>(
    state: StateView,
    result: ResultView,
    parents: Seq<GitCommitId>,
    message: Seq<char>,
) -> Completion<E> {
    match tree_left(result) {
        None => failed(state, CompatErrorView::MissingResultGeneration),
        Some(tree) => match result {
            ResultView::Applied { tracked_paths: Some(paths), .. } => match current_branch(state) {
                None => failed(state, CompatErrorView::InvalidState),
                Some(branch) => {
                    let commit = commit_made(
                        tree,
                        tree,
                        paths,
                        parents,
                        "git-compat"@,
                        0,
                        message,
                    );
                    Completion {
                        output: Ok(OutputView::Committed(commit)),
                        state: with_commit(state, commit, branch.head),
                    }
                },
            },
            _ => failed(state, CompatErrorView::InvalidState),
        },
    }
}

/// The head of the selected branch, if there is one.
pub open spec fn current_head(state: StateView) -> Option<GitCommitId> {
    match current_branch(state) {
        Some(branch) => branch.head,
        None => None,
    }
}

/// What a deferred mutation yields and the state it leaves.
pub open spec fn completed<E>(
    state: StateView,
    mutation: MutationView,
    result: ResultView,
) -> Completion<E> {
    match mutation {
        MutationView::NoOp => settled(state),
        MutationView::CaptureCommit {
            workspace_tree,
            message,
            author,
            authored_at_seconds,
            expected_head,
        } => match result {
            ResultView::Captured { tree, tracked_paths } => captured(
                state,
                expected_head,
                tree,
                workspace_tree,
                tracked_paths,
                message,
                author,
                authored_at_seconds,
            ),
            _ => failed(state, CompatErrorView::InvalidState),
        },
        MutationView::ForkBranch { branch, head, switch } => match result {
            ResultView::Forked { workspace_id } => registered(
                state,
                branch,
                workspace_id,
                head,
                switch,
            ),
            _ => failed(state, CompatErrorView::InvalidState),
        },
        MutationView::Switch { branch } => if state.branches.dom().contains(branch) {
            settled(StateView { current_branch: branch, ..state })
        } else {
            failed(state, CompatErrorView::InvalidState)
        },
        MutationView::Reset { head } => if current_branch(state) is None {
            failed(state, CompatErrorView::InvalidState)
        } else {
            let logged = StateView {
                reflog: seq![current_head(state)] + state.reflog,
                ..state
            };
            if state.commits.dom().contains(head) {
                settled(with_head(logged, head, state.commits[head].tracked_paths))
            } else {
                failed(logged, CompatErrorView::InvalidState)
            }
        },
        MutationView::StashPush { tree } => settled(
            StateView { stash: state.stash.push(tree), ..state },
        ),
        MutationView::StashPop { tree } => if state.stash.len() > 0 && state.stash.last() == tree {
            settled(StateView { stash: state.stash.drop_last(), ..state })
        } else {
            failed(state, CompatErrorView::InvalidState)
        },
        MutationView::Join { source_head, source_branch, rebase } => generated(
            state,
            result,
            if rebase {
                parents_from(source_head, None)
            } else {
                parents_from(current_head(state), source_head)
            },
            (if rebase {
                "rebase "@
            } else {
                "merge "@
            }) + source_branch,
        ),
        MutationView::ApplyCommit { commit, reverse } => generated(
            state,
            result,
            parents_from(current_head(state), None),
            (if reverse {
                "revert "@
            } else {
                "cherry-pick "@
            }) + hex_chars(commit.bytes@),
        ),
        MutationView::Bisect { state: replacement, result } => Completion {
            output: Ok(OutputView::Bisect(result)),
            state: StateView { bisect: replacement, ..state },
        },
    }
}

/// The failure of a result that belongs to another workspace.
pub open spec fn completion_problem<E>(
    state: StateView,
    mutation: MutationView,
    result: ResultView,
) -> Option<CompatErrorView<E>> {
    match current_branch(state) {
        None => Some(CompatErrorView::InvalidState),
        Some(branch) => if tree_left(result) is Some && tree_left(result)->0.owner()
            != branch.workspace_id {
            Some(CompatErrorView::WorkspaceMismatch)
        } else {
            match mutation {
                MutationView::CaptureCommit { workspace_tree, .. } => if workspace_tree.owner()
                    != branch.workspace_id {
                    Some(CompatErrorView::WorkspaceMismatch)
                } else {
                    None
                },
                _ => None,
            }
        },
    }
}

impl GitFilesystemResult {
    /// The tree that the result leaves behind.
    pub fn resulting_tree(&self) -> (r: Option<GitTreeRef>)
        ensures
            r == tree_left(self@),
    {
        match self {
            GitFilesystemResult::Captured { tree, .. } => Some(*tree),
            GitFilesystemResult::Applied { tree, .. } => *tree,
            GitFilesystemResult::Forked { .. } => None,
            GitFilesystemResult::Data { .. } => None,
        }
    }
}

/// Refuses a result that belongs to another workspace.
pub fn validate_completion_result<E>(
    state: &GitCompatState,
    pending: &GitPendingTransition,
    result: &GitFilesystemResult,
) -> (r: Result<(), GitCompatError<E>>)
    ensures
        match r {
            Ok(_) => completion_problem::<E>(state@, pending@.mutation, result@) is None,
            Err(error) => completion_problem::<E>(state@, pending@.mutation, result@) == Some(
                error@,
            ),
        },
{
    let workspace_id = match state.current() {
        Ok(branch) => branch.workspace_id,
        Err(_) => return Err(GitCompatError::InvalidState),
    };
    if let Some(tree) = result.resulting_tree() {
        if tree.workspace_id() != workspace_id {
            return Err(GitCompatError::WorkspaceMismatch);
        }
    }
    if let GitPendingMutation::CaptureCommit { workspace_tree, .. } = &pending.mutation {
        if workspace_tree.workspace_id() != workspace_id {
            return Err(GitCompatError::WorkspaceMismatch);
        }
    }
    Ok(())
}

fn heads(first: Option<GitCommitId>, second: Option<GitCommitId>) -> (r: Vec<GitCommitId>)
    ensures
        r@ == parents_from(first, second),
{
    let mut r: Vec<GitCommitId> = Vec::new();
    if let Some(id) = first {
        r.push(id);
    }
    if let Some(id) = second {
        r.push(id);
    }
    assert(r@ =~= parents_from(first, second));
    r
}

/// Makes a commit the head of the selected branch.
pub(crate) fn install_commit(
    state: &mut GitCompatState,
    commit: &GitCommit,
    previous: Option<GitCommitId>,
)
    requires
        current_branch(old(state)@) is Some,
    ensures
        final(state)@ == with_commit(old(state)@, commit@, previous),
{
    let ghost before = state@;
    state.reflog.insert(0, previous);
    state.commits.insert(commit.id, commit.replicate());
    proof {
        assert(state.reflog@ =~= seq![previous] + before.reflog);
        assert(state@ =~= (StateView {
            reflog: seq![previous] + before.reflog,
            commits: before.commits.insert(commit@.id, commit@),
            ..before
        }));
    }
    state.set_current_head(commit.id, commit.tracked_paths.replicate());
}

/// Records a commit of a captured tree.
pub fn record_captured_commit_state<E>(state: &mut GitCompatState, record: GitCommitRecord) -> (r:
    Result<GitCommandOutput, GitCompatError<E>>)
    ensures
        Completion::of(r, final(state)@) == captured::<E>(
            old(state)@,
            record.expected_head,
            record.tree,
            record.workspace_tree,
            record.tracked_paths@,
            record.message@,
            record.author@,
            record.authored_at_seconds,
        ),
{
    let head = match state.current() {
        Ok(branch) => branch.head,
        Err(_) => return Err(GitCompatError::InvalidState),
    };
    if head != record.expected_head {
        return Err(GitCompatError::InvalidState);
    }
    if let Some(id) = head {
        if let Some(commit) = state.commits.get(&id) {
            if commit.tree == record.tree {
                return Err(GitCompatError::NothingToCommit);
            }
        }
    }
    let commit = GitCommit::new_with_metadata(
        record.tree,
        record.workspace_tree,
        record.tracked_paths,
        heads(head, None),
        record.author,
        record.authored_at_seconds,
        record.message,
    );
    install_commit(state, &commit, head);
    Ok(GitCommandOutput::Committed(commit))
}

/// Registers the workspace of a branch.
pub fn register_branch_workspace_state<E>(
    state: &mut GitCompatState,
    branch: String,
    workspace_id: WorkspaceId,
    head: Option<GitCommitId>,
    switch: bool,
) -> (r: Result<GitCommandOutput, GitCompatError<E>>)
    ensures
        Completion::of(r, final(state)@) == registered::<E>(
            old(state)@,
            branch@,
            workspace_id,
            head,
            switch,
        ),
{
    let ghost before = state@;
    let ghost name = branch@;
    if let Some(existing) = state.branches.get(&branch) {
        if existing.workspace_id != workspace_id || existing.head != head {
            return Err(GitCompatError::BranchExists(branch));
        }
        if switch {
            state.current_branch = branch;
        }
        assert(state@ =~= registered::<E>(before, name, workspace_id, head, switch).state);
        return Ok(GitCommandOutput::NoOp);
    }
    let tracked_paths = match head {
        None => OrderedSet::new(),
        Some(id) => match state.commits.get(&id) {
            Some(commit) => commit.tracked_paths.replicate(),
            None => OrderedSet::new(),
        },
    };
    let added = GitBranch { name: branch.clone(), workspace_id, head, tracked_paths };
    state.branches.insert(branch.clone(), added);
    if switch {
        state.current_branch = branch;
    }
    assert(state@ =~= registered::<E>(before, name, workspace_id, head, switch).state);
    Ok(GitCommandOutput::NoOp)
}

/// Records a commit of a joined or applied tree.
fn record_generated_commit<E>(
    state: &mut GitCompatState,
    result: &GitFilesystemResult,
    parents: Vec<GitCommitId>,
    message: String,
) -> (r: Result<GitCommandOutput, GitCompatError<E>>)
    ensures
        Completion::of(r, final(state)@) == generated::<E>(
            old(state)@,
            result@,
            parents@,
            message@,
        ),
{
    let tree = match result.resulting_tree() {
        Some(tree) => tree,
        None => return Err(GitCompatError::MissingResultGeneration),
    };
    let tracked_paths = match result {
        GitFilesystemResult::Applied { tracked_paths: Some(paths), .. } => paths.replicate(),
        _ => return Err(GitCompatError::InvalidState),
    };
    let previous = match state.current() {
        Ok(branch) => branch.head,
        Err(_) => return Err(GitCompatError::InvalidState),
    };
    let commit = GitCommit::new_with_metadata(
        tree,
        tree,
        tracked_paths,
        parents,
        "git-compat".to_owned(),
        0,
        message,
    );
    install_commit(state, &commit, previous);
    Ok(GitCommandOutput::Committed(commit))
}

/// Commits a capture or a fork.
fn complete_creation_pending<E>(
    state: &mut GitCompatState,
    mutation: GitPendingMutation,
    result: &GitFilesystemResult,
) -> (r: Result<GitCommandOutput, GitCompatError<E>>)
    requires
        mutation is CaptureCommit || mutation is ForkBranch,
    ensures
        Completion::of(r, final(state)@) == completed::<E>(old(state)@, mutation@, result@),
{
    match mutation {
        GitPendingMutation::CaptureCommit {
            workspace_tree,
            message,
            author,
            authored_at_seconds,
            expected_head,
        } => match result {
            GitFilesystemResult::Captured { tree, tracked_paths } => record_captured_commit_state(
                state,
                GitCommitRecord {
                    expected_head,
                    tree: *tree,
                    workspace_tree,
                    tracked_paths: tracked_paths.replicate(),
                    message,
                    author,
                    authored_at_seconds,
                },
            ),
            _ => Err(GitCompatError::InvalidState),
        },
        GitPendingMutation::ForkBranch { branch, head, switch } => match result {
            GitFilesystemResult::Forked { workspace_id } => register_branch_workspace_state(
                state,
                branch,
                *workspace_id,
                head,
                switch,
            ),
            _ => Err(GitCompatError::InvalidState),
        },
        _ => Err(GitCompatError::InvalidState),
    }
}

/// Commits a deferred mutation with the result of its filesystem work.
pub fn complete_pending<E>(
    state: &mut GitCompatState,
    mutation: GitPendingMutation,
    result: &GitFilesystemResult,
) -> (r: Result<GitCommandOutput, GitCompatError<E>>)
    ensures
        Completion::of(r, final(state)@) == completed::<E>(old(state)@, mutation@, result@),
{
    let ghost before = state@;
    let head = match state.current() {
        Ok(branch) => branch.head,
        Err(_) => None,
    };
    match mutation {
        GitPendingMutation::NoOp => Ok(GitCommandOutput::NoOp),
        GitPendingMutation::CaptureCommit { .. } => complete_creation_pending(
            state,
            mutation,
            result,
        ),
        GitPendingMutation::ForkBranch { .. } => complete_creation_pending(state, mutation, result),
        GitPendingMutation::Switch { branch } => {
            if !state.branches.contains_key(&branch) {
                return Err(GitCompatError::InvalidState);
            }
            let ghost name = branch@;
            state.current_branch = branch;
            assert(state@ =~= (StateView { current_branch: name, ..before }));
            Ok(GitCommandOutput::NoOp)
        },
        GitPendingMutation::Reset { head: target } => {
            if state.current().is_err() {
                return Err(GitCompatError::InvalidState);
            }
            state.reflog.insert(0, head);
            proof {
                assert(state.reflog@ =~= seq![head] + before.reflog);
                assert(state@ =~= (StateView { reflog: seq![head] + before.reflog, ..before }));
            }
            let tracked_paths = match state.commits.get(&target) {
                Some(commit) => commit.tracked_paths.replicate(),
                None => return Err(GitCompatError::InvalidState),
            };
            state.set_current_head(target, tracked_paths);
            Ok(GitCommandOutput::NoOp)
        },
        GitPendingMutation::StashPush { tree } => {
            state.stash.push(tree);
            assert(state@ =~= (StateView { stash: before.stash.push(tree), ..before }));
            Ok(GitCommandOutput::NoOp)
        },
        GitPendingMutation::StashPop { tree } => {
            let count = state.stash.len();
            if count == 0 || state.stash[count - 1] != tree {
                return Err(GitCompatError::InvalidState);
            }
            state.stash.truncate(count - 1);
            proof {
                assert(state.stash@ =~= before.stash.drop_last());
                assert(state@ =~= (StateView { stash: before.stash.drop_last(), ..before }));
            }
            Ok(GitCommandOutput::NoOp)
        },
        GitPendingMutation::Join { source_head, source_branch, rebase } => {
            let parents = if rebase {
                heads(source_head, None)
            } else {
                heads(head, source_head)
            };
            let message = if rebase {
                text_pair("rebase ", source_branch.as_str())
            } else {
                text_pair("merge ", source_branch.as_str())
            };
            record_generated_commit(state, result, parents, message)
        },
        GitPendingMutation::ApplyCommit { commit, reverse } => {
            let spelled = commit.to_hex();
            let message = if reverse {
                text_pair("revert ", spelled.as_str())
            } else {
                text_pair("cherry-pick ", spelled.as_str())
            };
            record_generated_commit(state, result, heads(head, None), message)
        },
        GitPendingMutation::Bisect { state: replacement, result } => {
            state.bisect = replacement;
            assert(state@ =~= (StateView { bisect: state@.bisect, ..before }));
            Ok(GitCommandOutput::Bisect(result))
        },
    }
}

} // verus!
