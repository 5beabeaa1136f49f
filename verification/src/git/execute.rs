//! One command against one state.

use super::ancestry::{merge_base, nearest_common_ancestor};
use super::bisect::{bisected, execute_bisect, refused};
use super::history::{
    current_branch, find_visible_head, first_parent_history, record, resolve_object, resolved,
    visible_head, walk_commits, with_head, GitCompatStateError, StateErrorView,
};
use super::paths::{expand_pathspecs, selection};
use super::sequencer::{prepare_transition, prepared, Step};
use super::types::{
    ActionView, BranchView, CommandView, CommitView, CompatErrorView, GitBranch, GitCommand,
    GitCommandOutput, GitCommit, GitCommitId, GitCompatError, GitCompatState, GitDirtyState,
    GitFilesystemAction, GitObjectName, GitPendingMutation, GitResetMode, GitStatus,
    GitTransitionId, GitTreeRef, MutationView, OutputView, StateView, StatusView,
};
use crate::digest::hex_chars;
use crate::order::{ascending, views, OrderedMap, Replicate};
use crate::text::{text_is, text_pair};
use vstd::prelude::*;
use vstd::string::*;

verus! {

/// Commands that a bisection session leaves available.
pub open spec fn allowed_while_bisecting(command: CommandView) -> bool {
    match command {
        CommandView::Status => true,
        CommandView::Diff { .. } => true,
        CommandView::Log { .. } => true,
        CommandView::Show { .. } => true,
        CommandView::RevParse { .. } => true,
        CommandView::SymbolicRef { .. } => true,
        CommandView::MergeBase { .. } => true,
        CommandView::LsFiles => true,
        CommandView::CheckIgnore { .. } => true,
        CommandView::Bisect { .. } => true,
        _ => false,
    }
}

/// A successful step that leaves the state alone.
pub open spec fn answered(state: StateView, output: OutputView) -> Step {
    Step { output: Ok(output), state }
}

/// A step on the commit that an object name denotes.
pub open spec fn on_commit(
    state: StateView,
    object: Option<Seq<char>>,
    step: spec_fn(GitCommitId, CommitView) -> Step,
) -> Step {
    match resolved(state, object) {
        Err(problem) => refused(state, problem),
        Ok(id) => if state.commits.dom().contains(id) {
            step(id, state.commits[id])
        } else {
            refused(state, StateErrorView::Invalid)
        },
    }
}

/// Whether the live tree differs from the recorded one.
pub open spec fn dirty_state(head: Option<GitTreeRef>, workspace: GitTreeRef) -> GitDirtyState {
    if head == Some(workspace) {
        GitDirtyState::Clean
    } else if (head is None || head->0 is Lazy) && workspace is Lazy {
        GitDirtyState::Unknown
    } else {
        GitDirtyState::Dirty
    }
}

/// A capture of the live tree.
pub open spec fn commit_step(
    state: StateView,
    branch: BranchView,
    head: Option<CommitView>,
    workspace: GitTreeRef,
    message: Seq<char>,
    author: Seq<char>,
    authored_at_seconds: i64,
    transition: GitTransitionId,
) -> Step {
    let head_workspace_tree = match head {
        Some(commit) => Some(commit.workspace_tree),
        None => None,
    };
    let head_tree = match head {
        Some(commit) => Some(commit.tree),
        None => None,
    };
    if head_workspace_tree == Some(workspace) {
        refused(state, StateErrorView::NothingToCommit)
    } else {
        prepared(
            state,
            ActionView::CaptureCommit {
                workspace_tree: workspace,
                head_tree,
                head_workspace_tree,
                tracked_paths: branch.tracked_paths,
                message,
                author,
                authored_at_seconds,
                expected_head: branch.head,
            },
            MutationView::CaptureCommit {
                workspace_tree: workspace,
                message,
                author,
                authored_at_seconds,
                expected_head: branch.head,
            },
            transition,
        )
    }
}

/// A fork of the live tree into a new branch.
pub open spec fn fork_step(
    state: StateView,
    branch: BranchView,
    workspace: GitTreeRef,
    name: Seq<char>,
    switch: bool,
    transition: GitTransitionId,
) -> Step {
    prepared(
        state,
        ActionView::ForkBranch { branch: name, source_tree: workspace, head: branch.head, switch },
        MutationView::ForkBranch { branch: name, head: branch.head, switch },
        transition,
    )
}

/// Branch records in ascending name order.
pub open spec fn branch_list(branches: Map<Seq<char>, BranchView>) -> Seq<BranchView> {
    let names = ascending::<String>(branches.dom());
    Seq::new(names.len(), |i: int| branches[names[i]])
}

/// A reset of the selected branch to one commit.
pub open spec fn reset_step(
    state: StateView,
    branch: BranchView,
    id: GitCommitId,
    commit: CommitView,
    mode: GitResetMode,
    transition: GitTransitionId,
) -> Step {
    if mode == GitResetMode::Hard {
        prepared(
            state,
            ActionView::RestoreGeneration {
                tree: commit.tree,
                paths: Some(branch.tracked_paths.union(commit.tracked_paths)),
            },
            MutationView::Reset { head: id },
            transition,
        )
    } else {
        answered(
            with_head(
                StateView { reflog: seq![branch.head] + state.reflog, ..state },
                id,
                commit.tracked_paths,
            ),
            OutputView::NoOp,
        )
    }
}

/// A join of another branch.
pub open spec fn join_step(
    state: StateView,
    branch: BranchView,
    workspace: GitTreeRef,
    name: Seq<char>,
    rebase: bool,
    transition: GitTransitionId,
) -> Step {
    if !state.branches.dom().contains(name) {
        refused(state, StateErrorView::Unknown(name))
    } else {
        let source = state.branches[name];
        prepared(
            state,
            ActionView::Join {
                target_tree: workspace,
                source_workspace: source.workspace_id,
                rebase,
                tracked_paths: branch.tracked_paths.union(source.tracked_paths),
            },
            MutationView::Join { source_head: source.head, source_branch: name, rebase },
            transition,
        )
    }
}

/// An application of one commit relative to its first parent.
pub open spec fn apply_step(
    state: StateView,
    branch: BranchView,
    id: GitCommitId,
    commit: CommitView,
    reverse: bool,
    transition: GitTransitionId,
) -> Step {
    let parent = record(state.commits, super::history::first_parent(commit));
    let parent_tree = match parent {
        Some(parent) => Some(parent.tree),
        None => None,
    };
    let paths = match parent {
        Some(parent) => parent.tracked_paths.union(commit.tracked_paths),
        None => commit.tracked_paths,
    };
    prepared(
        state,
        ActionView::ApplyCommit {
            commit: id,
            reverse,
            base: if reverse {
                Some(commit.tree)
            } else {
                parent_tree
            },
            source: if reverse {
                parent_tree
            } else {
                Some(commit.tree)
            },
            paths,
            tracked_paths: branch.tracked_paths.union(paths),
        },
        MutationView::ApplyCommit { commit: id, reverse },
        transition,
    )
}

/// A listing, creation or deletion of tags.
pub open spec fn tag_step(
    state: StateView,
    name: Option<Seq<char>>,
    target: Option<Seq<char>>,
    delete: bool,
) -> Step {
    match name {
        None => answered(state, OutputView::Tags(state.tags)),
        Some(name) => if delete {
            let tags = state.tags.remove(name);
            answered(StateView { tags, ..state }, OutputView::Tags(tags))
        } else {
            match resolved(state, target) {
                Err(problem) => refused(state, problem),
                Ok(id) => {
                    let tags = state.tags.insert(name, id);
                    answered(StateView { tags, ..state }, OutputView::Tags(tags))
                },
            }
        },
    }
}

/// The full name of a branch.
pub open spec fn full_name(branch: Seq<char>) -> Seq<char> {
    "refs/heads/"@ + branch
}

/// A read-only probe.
pub open spec fn rev_parse_step(state: StateView, branch: BranchView, argument: Seq<char>) -> Step {
    if argument == "--is-inside-work-tree"@ {
        answered(state, OutputView::Text("true"@))
    } else if argument == "--abbrev-ref HEAD"@ {
        answered(state, OutputView::Text(branch.name))
    } else if argument == "--symbolic-full-name HEAD"@ {
        answered(state, OutputView::Text(full_name(branch.name)))
    } else {
        match resolved(state, Some(argument)) {
            Err(problem) => refused(state, problem),
            Ok(id) => answered(state, OutputView::Text(hex_chars(id.bytes@))),
        }
    }
}

/// A probe for the nearest common ancestor.
pub open spec fn merge_base_step(state: StateView, left: Seq<char>, right: Seq<char>) -> Step {
    match resolved(state, Some(left)) {
        Err(problem) => refused(state, problem),
        Ok(a) => match resolved(state, Some(right)) {
            Err(problem) => refused(state, problem),
            Ok(b) => match merge_base(state.commits, a, b) {
                Some(id) => answered(state, OutputView::Text(hex_chars(id.bytes@))),
                None => refused(state, StateErrorView::Unknown("merge base"@)),
            },
        },
    }
}

/// A command that only reads the state.
pub open spec fn inspected(
    state: StateView,
    branch: BranchView,
    command: CommandView,
    workspace: GitTreeRef,
) -> Step {
    let head = record(state.commits, visible_head(state));
    match command {
        CommandView::Status => answered(
            state,
            OutputView::Status(
                StatusView {
                    branch: branch.name,
                    head: visible_head(state),
                    workspace,
                    dirty: dirty_state(
                        match head {
                            Some(commit) => Some(commit.workspace_tree),
                            None => None,
                        },
                        workspace,
                    ),
                    all_changes_staged: true,
                },
            ),
        ),
        CommandView::Diff { .. } => answered(
            state,
            OutputView::Action(
                ActionView::Diff {
                    from: match head {
                        Some(commit) => Some(commit.tree),
                        None => None,
                    },
                    to: workspace,
                },
            ),
        ),
        CommandView::Log { maximum } => answered(
            state,
            OutputView::Commits(
                first_parent_history(state.commits, branch.head, maximum as nat),
            ),
        ),
        CommandView::Show { object } => on_commit(
            state,
            object,
            |id: GitCommitId, commit: CommitView|
                answered(state, OutputView::Commits(seq![commit])),
        ),
        CommandView::Blame { path } => answered(
            state,
            OutputView::Action(
                ActionView::Blame {
                    path,
                    commits: first_parent_history(state.commits, branch.head, u32::MAX as nat),
                },
            ),
        ),
        CommandView::Grep { pattern, path } => answered(
            state,
            OutputView::Action(ActionView::Grep { pattern, path, tree: workspace }),
        ),
        CommandView::Archive { object } => match object {
            Some(name) => on_commit(
                state,
                Some(name),
                |id: GitCommitId, commit: CommitView|
                    answered(state, OutputView::Action(ActionView::Archive { tree: commit.tree })),
            ),
            None => answered(state, OutputView::Action(ActionView::Archive { tree: workspace })),
        },
        CommandView::RevParse { argument } => rev_parse_step(state, branch, argument),
        CommandView::SymbolicRef { short } => answered(
            state,
            OutputView::Text(
                if short {
                    branch.name
                } else {
                    full_name(branch.name)
                },
            ),
        ),
        CommandView::MergeBase { left, right } => merge_base_step(state, left, right),
        CommandView::LsFiles => answered(
            state,
            OutputView::Paths(ascending::<String>(branch.tracked_paths)),
        ),
        CommandView::CheckIgnore { paths } => answered(
            state,
            OutputView::Action(ActionView::CheckIgnore { paths, tree: workspace }),
        ),
        _ => answered(state, OutputView::NoOp),
    }
}

/// A command that may change the state or the filesystem.
pub open spec fn changed(
    state: StateView,
    branch: BranchView,
    command: CommandView,
    workspace: GitTreeRef,
    transition: GitTransitionId,
) -> Step {
    let head = record(state.commits, visible_head(state));
    match command {
        CommandView::Commit { message, author, authored_at_seconds } => commit_step(
            state,
            branch,
            head,
            workspace,
            message,
            author,
            authored_at_seconds,
            transition,
        ),
        CommandView::Branch { create } => match create {
            Some(name) => if state.branches.dom().contains(name) {
                refused(state, StateErrorView::BranchExists(name))
            } else {
                fork_step(state, branch, workspace, name, false, transition)
            },
            None => answered(
                state,
                OutputView::Branches {
                    current: state.current_branch,
                    branches: branch_list(state.branches),
                },
            ),
        },
        CommandView::Switch { branch: name, create } => if state.branches.dom().contains(name) {
            prepared(
                state,
                ActionView::SwitchWorkspace { workspace_id: state.branches[name].workspace_id },
                MutationView::Switch { branch: name },
                transition,
            )
        } else if create {
            fork_step(state, branch, workspace, name, true, transition)
        } else {
            refused(state, StateErrorView::Unknown(name))
        },
        CommandView::Restore { source, paths } => on_commit(
            state,
            source,
            |id: GitCommitId, commit: CommitView|
                answered(
                    state,
                    OutputView::Action(
                        ActionView::RestorePaths {
                            tree: commit.tree,
                            paths: ascending::<String>(selection(paths, commit.tracked_paths)),
                        },
                    ),
                ),
        ),
        CommandView::Reset { target, mode } => on_commit(
            state,
            Some(target),
            |id: GitCommitId, commit: CommitView|
                reset_step(state, branch, id, commit, mode, transition),
        ),
        CommandView::Merge { branch: name } => join_step(
            state,
            branch,
            workspace,
            name,
            false,
            transition,
        ),
        CommandView::Rebase { branch: name } => join_step(
            state,
            branch,
            workspace,
            name,
            true,
            transition,
        ),
        CommandView::StashPush => match head {
            None => refused(state, StateErrorView::UnbornHead),
            Some(commit) => prepared(
                state,
                ActionView::RestoreGeneration { tree: commit.workspace_tree, paths: None },
                MutationView::StashPush { tree: workspace },
                transition,
            ),
        },
        CommandView::StashPop => if state.stash.len() == 0 {
            refused(state, StateErrorView::EmptyStash)
        } else {
            let tree = state.stash.last();
            prepared(
                state,
                ActionView::RestoreGeneration { tree, paths: None },
                MutationView::StashPop { tree },
                transition,
            )
        },
        CommandView::CherryPick { object } => on_commit(
            state,
            Some(object),
            |id: GitCommitId, commit: CommitView|
                apply_step(state, branch, id, commit, false, transition),
        ),
        CommandView::Revert { object } => on_commit(
            state,
            Some(object),
            |id: GitCommitId, commit: CommitView|
                apply_step(state, branch, id, commit, true, transition),
        ),
        CommandView::Tag { name, target, delete } => tag_step(state, name, target, delete),
        CommandView::Clean { dry_run } => answered(
            state,
            OutputView::Action(
                ActionView::Clean { dry_run, tree: workspace, tracked_paths: branch.tracked_paths },
            ),
        ),
        CommandView::Apply { patch } => answered(
            state,
            OutputView::Action(ActionView::ApplyPatch { patch }),
        ),
        CommandView::Bisect { arguments } => bisected(
            state,
            branch,
            workspace,
            arguments,
            transition,
        ),
        CommandView::MergeContinue => refused(state, StateErrorView::Invalid),
        CommandView::MergeAbort => refused(state, StateErrorView::Invalid),
        _ => inspected(state, branch, command, workspace),
    }
}

/// What one command yields and the state it leaves.
pub open spec fn executed(
    state: StateView,
    command: CommandView,
    workspace: GitTreeRef,
    transition: GitTransitionId,
) -> Step {
    match current_branch(state) {
        None => refused(state, StateErrorView::Invalid),
        Some(branch) => if state.bisect is Some && !allowed_while_bisecting(command) {
            refused(
                state,
                StateErrorView::Bisect("finish with 'git bisect reset' before changing history"@),
            )
        } else {
            changed(state, branch, command, workspace, transition)
        },
    }
}


fn may_run_while_bisecting(command: &GitCommand) -> (r: bool)
    ensures
        r == allowed_while_bisecting(command@),
{
    match command {
        GitCommand::Status => true,
        GitCommand::Diff { .. } => true,
        GitCommand::Log { .. } => true,
        GitCommand::Show { .. } => true,
        GitCommand::RevParse { .. } => true,
        GitCommand::SymbolicRef { .. } => true,
        GitCommand::MergeBase { .. } => true,
        GitCommand::LsFiles => true,
        GitCommand::CheckIgnore { .. } => true,
        GitCommand::Bisect { .. } => true,
        _ => false,
    }
}

/// Finds the commit that an object name denotes, with its record.
fn find_commit<'a>(state: &'a GitCompatState, object: Option<&GitObjectName>) -> (r: Result<
    (GitCommitId, &'a GitCommit),
    GitCompatStateError,
>)
    ensures
        match r {
            Ok((id, commit)) => {
                &&& resolved(
                    state@,
                    match object {
                        Some(name) => Some(name@),
                        None => None,
                    },
                ) == Ok::<GitCommitId, StateErrorView>(id)
                &&& state@.commits.dom().contains(id)
                &&& commit@ == state@.commits[id]
            },
            Err(error) => match resolved(
                state@,
                match object {
                    Some(name) => Some(name@),
                    None => None,
                },
            ) {
                Ok(id) => !state@.commits.dom().contains(id) && error@ == StateErrorView::Invalid,
                Err(problem) => error@ == problem,
            },
        },
{
    match resolve_object(state, object) {
        Err(error) => Err(error),
        Ok(id) => match state.commits.get(&id) {
            Some(commit) => Ok((id, commit)),
            None => Err(GitCompatStateError::Invalid),
        },
    }
}

fn head_record<'a>(state: &'a GitCompatState, head: Option<GitCommitId>) -> (r: Option<
    &'a GitCommit,
>)
    ensures
        match r {
            Some(commit) => record(state@.commits, head) == Some(commit@),
            None => record(state@.commits, head) is None,
        },
{
    match head {
        Some(id) => state.commits.get(&id),
        None => None,
    }
}

fn dirtiness(head: Option<GitTreeRef>, workspace: GitTreeRef) -> (r: GitDirtyState)
    ensures
        r == dirty_state(head, workspace),
{
    let lazy = match workspace {
        GitTreeRef::Lazy(_) => true,
        GitTreeRef::Exact(_) => false,
    };
    match head {
        None => if lazy {
            GitDirtyState::Unknown
        } else {
            GitDirtyState::Dirty
        },
        Some(tree) => if tree == workspace {
            GitDirtyState::Clean
        } else {
            match tree {
                GitTreeRef::Lazy(_) => if lazy {
                    GitDirtyState::Unknown
                } else {
                    GitDirtyState::Dirty
                },
                GitTreeRef::Exact(_) => GitDirtyState::Dirty,
            }
        },
    }
}

fn list_branches(branches: &OrderedMap<String, GitBranch>) -> (r: Vec<GitBranch>)
    ensures
        views(r@) == branch_list(branches@),
{
    let count = branches.len();
    let ghost names = ascending::<String>(branches@.dom());
    let mut r: Vec<GitBranch> = Vec::new();
    let mut i: usize = 0;
    while i < count
        invariant
            i <= count,
            count == names.len(),
            names == ascending::<String>(branches@.dom()),
            r@.len() == i,
            forall|k: int| 0 <= k < i ==> (#[trigger] r@[k])@ == branches@[names[k]],
        decreases count - i,
    {
        r.push(branches.value_at(i).replicate());
        i = i + 1;
    }
    assert(views(r@) =~= branch_list(branches@));
    r
}

fn probe_revision(state: &GitCompatState, branch: &GitBranch, argument: String) -> (r: Result<
    GitCommandOutput,
    GitCompatStateError,
>)
    ensures
        Step::of(r, state@) == rev_parse_step(state@, branch@, argument@),
{
    if text_is(argument.as_str(), "--is-inside-work-tree") {
        Ok(GitCommandOutput::Text("true".to_owned()))
    } else if text_is(argument.as_str(), "--abbrev-ref HEAD") {
        Ok(GitCommandOutput::Text(branch.name.clone()))
    } else if text_is(argument.as_str(), "--symbolic-full-name HEAD") {
        Ok(GitCommandOutput::Text(text_pair("refs/heads/", branch.name.as_str())))
    } else {
        match resolve_object(state, Some(&GitObjectName(argument))) {
            Err(error) => Err(error),
            Ok(id) => Ok(GitCommandOutput::Text(id.to_hex())),
        }
    }
}

fn probe_merge_base(state: &GitCompatState, left: &GitObjectName, right: &GitObjectName) -> (r:
    Result<GitCommandOutput, GitCompatStateError>)
    ensures
        Step::of(r, state@) == merge_base_step(state@, left@, right@),
{
    let a = match resolve_object(state, Some(left)) {
        Err(error) => return Err(error),
        Ok(id) => id,
    };
    let b = match resolve_object(state, Some(right)) {
        Err(error) => return Err(error),
        Ok(id) => id,
    };
    match nearest_common_ancestor(&state.commits, a, b) {
        Some(id) => Ok(GitCommandOutput::Text(id.to_hex())),
        None => Err(GitCompatStateError::Unknown("merge base".to_owned())),
    }
}

/// Executes a command that only reads the state.
fn inspect(
    state: &GitCompatState,
    branch: &GitBranch,
    command: GitCommand,
    workspace: GitTreeRef,
) -> (r: Result<GitCommandOutput, GitCompatStateError>)
    requires
        current_branch(state@) == Some(branch@),
    ensures
        Step::of(r, state@) == inspected(state@, branch@, command@, workspace),
{
    let visible = find_visible_head(state);
    match command {
        GitCommand::Status => {
            let head = match head_record(state, visible) {
                Some(commit) => Some(commit.workspace_tree),
                None => None,
            };
            Ok(
                GitCommandOutput::Status(
                    GitStatus {
                        branch: branch.name.clone(),
                        head: visible,
                        workspace,
                        dirty: dirtiness(head, workspace),
                        all_changes_staged: true,
                    },
                ),
            )
        },
        GitCommand::Diff { .. } => {
            let from = match head_record(state, visible) {
                Some(commit) => Some(commit.tree),
                None => None,
            };
            Ok(GitCommandOutput::Action(GitFilesystemAction::Diff { from, to: workspace }))
        },
        GitCommand::Log { maximum } => Ok(
            GitCommandOutput::Commits(walk_commits(&state.commits, branch.head, maximum)),
        ),
        GitCommand::Show { object } => match find_commit(state, object.as_ref()) {
            Err(error) => Err(error),
            Ok((id, commit)) => {
                let shown = vec![commit.replicate()];
                assert(views(shown@) =~= seq![commit@]);
                Ok(GitCommandOutput::Commits(shown))
            },
        },
        GitCommand::Blame { path } => Ok(
            GitCommandOutput::Action(
                GitFilesystemAction::Blame {
                    path,
                    commits: walk_commits(&state.commits, branch.head, u32::MAX),
                },
            ),
        ),
        GitCommand::Grep { pattern, path } => Ok(
            GitCommandOutput::Action(
                GitFilesystemAction::Grep { pattern, path, tree: workspace },
            ),
        ),
        GitCommand::Archive { object } => match object {
            Some(name) => match find_commit(state, Some(&name)) {
                Err(error) => Err(error),
                Ok((id, commit)) => Ok(
                    GitCommandOutput::Action(GitFilesystemAction::Archive { tree: commit.tree }),
                ),
            },
            None => Ok(GitCommandOutput::Action(GitFilesystemAction::Archive { tree: workspace })),
        },
        GitCommand::RevParse { argument } => probe_revision(state, branch, argument),
        GitCommand::SymbolicRef { short } => Ok(
            GitCommandOutput::Text(
                if short {
                    branch.name.clone()
                } else {
                    text_pair("refs/heads/", branch.name.as_str())
                },
            ),
        ),
        GitCommand::MergeBase { left, right } => probe_merge_base(state, &left, &right),
        GitCommand::LsFiles => Ok(GitCommandOutput::Paths(branch.tracked_paths.to_vec())),
        GitCommand::CheckIgnore { paths } => Ok(
            GitCommandOutput::Action(GitFilesystemAction::CheckIgnore { paths, tree: workspace }),
        ),
        _ => Ok(GitCommandOutput::NoOp),
    }
}

fn prepare_commit(
    state: &mut GitCompatState,
    branch: &GitBranch,
    workspace: GitTreeRef,
    message: String,
    author: String,
    authored_at_seconds: i64,
    transition: GitTransitionId,
) -> (r: Result<GitCommandOutput, GitCompatStateError>)
    ensures
        Step::of(r, final(state)@) == commit_step(
            old(state)@,
            branch@,
            record(old(state)@.commits, visible_head(old(state)@)),
            workspace,
            message@,
            author@,
            authored_at_seconds,
            transition,
        ),
{
    let visible = find_visible_head(state);
    let (head_tree, head_workspace_tree) = match head_record(state, visible) {
        Some(commit) => (Some(commit.tree), Some(commit.workspace_tree)),
        None => (None, None),
    };
    if let Some(tree) = head_workspace_tree {
        if tree == workspace {
            return Err(GitCompatStateError::NothingToCommit);
        }
    }
    let action = GitFilesystemAction::CaptureCommit {
        workspace_tree: workspace,
        head_tree,
        head_workspace_tree,
        tracked_paths: branch.tracked_paths.replicate(),
        message: message.clone(),
        author: author.clone(),
        authored_at_seconds,
        expected_head: branch.head,
    };
    let mutation = GitPendingMutation::CaptureCommit {
        workspace_tree: workspace,
        message,
        author,
        authored_at_seconds,
        expected_head: branch.head,
    };
    Ok(prepare_transition(state, action, mutation, transition))
}

fn prepare_fork(
    state: &mut GitCompatState,
    branch: &GitBranch,
    workspace: GitTreeRef,
    name: String,
    switch: bool,
    transition: GitTransitionId,
) -> (r: GitCommandOutput)
    ensures
        Step::of(Ok(r), final(state)@) == fork_step(
            old(state)@,
            branch@,
            workspace,
            name@,
            switch,
            transition,
        ),
{
    let action = GitFilesystemAction::ForkBranch {
        branch: name.clone(),
        source_tree: workspace,
        head: branch.head,
        switch,
    };
    let mutation = GitPendingMutation::ForkBranch { branch: name, head: branch.head, switch };
    prepare_transition(state, action, mutation, transition)
}

fn prepare_join(
    state: &mut GitCompatState,
    branch: &GitBranch,
    workspace: GitTreeRef,
    name: String,
    rebase: bool,
    transition: GitTransitionId,
) -> (r: Result<GitCommandOutput, GitCompatStateError>)
    ensures
        Step::of(r, final(state)@) == join_step(
            old(state)@,
            branch@,
            workspace,
            name@,
            rebase,
            transition,
        ),
{
    match state.branches.get(&name) {
        None => Err(GitCompatStateError::Unknown(name)),
        Some(source) => {
            let action = GitFilesystemAction::Join {
                target_tree: workspace,
                source_workspace: source.workspace_id,
                rebase,
                tracked_paths: branch.tracked_paths.union(&source.tracked_paths),
            };
            let mutation = GitPendingMutation::Join {
                source_head: source.head,
                source_branch: name,
                rebase,
            };
            Ok(prepare_transition(state, action, mutation, transition))
        },
    }
}

fn prepare_apply(
    state: &mut GitCompatState,
    branch: &GitBranch,
    object: &GitObjectName,
    reverse: bool,
    transition: GitTransitionId,
) -> (r: Result<GitCommandOutput, GitCompatStateError>)
    ensures
        Step::of(r, final(state)@) == on_commit(
            old(state)@,
            Some(object@),
            |id: GitCommitId, commit: CommitView|
                apply_step(old(state)@, branch@, id, commit, reverse, transition),
        ),
{
    match find_commit(state, Some(object)) {
        Err(error) => Err(error),
        Ok((id, commit)) => {
            let first = if commit.parents.len() > 0 {
                Some(commit.parents[0])
            } else {
                None
            };
            let (parent_tree, paths) = match head_record(state, first) {
                Some(parent) => (
                    Some(parent.tree),
                    parent.tracked_paths.union(&commit.tracked_paths),
                ),
                None => (None, commit.tracked_paths.replicate()),
            };
            let tracked_paths = branch.tracked_paths.union(&paths);
            let (base, source) = if reverse {
                (Some(commit.tree), parent_tree)
            } else {
                (parent_tree, Some(commit.tree))
            };
            let action = GitFilesystemAction::ApplyCommit {
                commit: id,
                reverse,
                base,
                source,
                paths,
                tracked_paths,
            };
            let mutation = GitPendingMutation::ApplyCommit { commit: id, reverse };
            Ok(prepare_transition(state, action, mutation, transition))
        },
    }
}

fn reset(
    state: &mut GitCompatState,
    branch: &GitBranch,
    target: &GitObjectName,
    mode: GitResetMode,
    transition: GitTransitionId,
) -> (r: Result<GitCommandOutput, GitCompatStateError>)
    requires
        current_branch(old(state)@) == Some(branch@),
    ensures
        Step::of(r, final(state)@) == on_commit(
            old(state)@,
            Some(target@),
            |id: GitCommitId, commit: CommitView|
                reset_step(old(state)@, branch@, id, commit, mode, transition),
        ),
{
    let ghost before = state@;
    match find_commit(state, Some(target)) {
        Err(error) => Err(error),
        Ok((id, commit)) => {
            let tree = commit.tree;
            let paths = commit.tracked_paths.replicate();
            match mode {
                GitResetMode::Hard => {
                    let action = GitFilesystemAction::RestoreGeneration {
                        tree,
                        paths: Some(branch.tracked_paths.union(&paths)),
                    };
                    let mutation = GitPendingMutation::Reset { head: id };
                    Ok(prepare_transition(state, action, mutation, transition))
                },
                _ => {
                    state.reflog.insert(0, branch.head);
                    proof {
                        assert(state.reflog@ =~= seq![branch.head] + before.reflog);
                        assert(state@ =~= (StateView {
                            reflog: seq![branch.head] + before.reflog,
                            ..before
                        }));
                    }
                    state.set_current_head(id, paths);
                    Ok(GitCommandOutput::NoOp)
                },
            }
        },
    }
}

fn edit_tags(
    state: &mut GitCompatState,
    name: Option<String>,
    target: Option<GitObjectName>,
    delete: bool,
) -> (r: Result<GitCommandOutput, GitCompatStateError>)
    ensures
        Step::of(r, final(state)@) == tag_step(
            old(state)@,
            match name {
                Some(name) => Some(name@),
                None => None,
            },
            match target {
                Some(target) => Some(target@),
                None => None,
            },
            delete,
        ),
{
    let ghost before = state@;
    if let Some(name) = name {
        if delete {
            state.tags.remove(&name);
            assert(state@ =~= (StateView { tags: before.tags.remove(name@), ..before }));
        } else {
            match resolve_object(state, target.as_ref()) {
                Err(error) => return Err(error),
                Ok(id) => {
                    let ghost added = name@;
                    state.tags.insert(name, id);
                    assert(state@ =~= (StateView { tags: before.tags.insert(added, id), ..before }));
                },
            }
        }
    }
    Ok(GitCommandOutput::Tags(state.tags.replicate()))
}

/// Executes one command against one state and live tree.
///
/// `transition` names the durable intent, should the command need one.
pub fn execute_command(
    state: &mut GitCompatState,
    command: GitCommand,
    workspace: GitTreeRef,
    transition: GitTransitionId,
) -> (r: Result<GitCommandOutput, GitCompatStateError>)
    ensures
        Step::of(r, final(state)@) == executed(old(state)@, command@, workspace, transition),
{
    let branch = match state.current() {
        Ok(branch) => branch.replicate(),
        Err(error) => return Err(error),
    };
    if state.bisect.is_some() && !may_run_while_bisecting(&command) {
        return Err(
            GitCompatStateError::Bisect(
                "finish with 'git bisect reset' before changing history".to_owned(),
            ),
        );
    }
    match command {
        GitCommand::Commit { message, author, authored_at_seconds } => prepare_commit(
            state,
            &branch,
            workspace,
            message,
            author,
            authored_at_seconds,
            transition,
        ),
        GitCommand::Branch { create } => match create {
            Some(name) => {
                if state.branches.contains_key(&name) {
                    Err(GitCompatStateError::BranchExists(name))
                } else {
                    Ok(prepare_fork(state, &branch, workspace, name, false, transition))
                }
            },
            None => Ok(
                GitCommandOutput::Branches {
                    current: state.current_branch.clone(),
                    branches: list_branches(&state.branches),
                },
            ),
        },
        GitCommand::Switch { branch: name, create } => {
            let found = match state.branches.get(&name) {
                Some(target) => Some(target.workspace_id),
                None => None,
            };
            match found {
                Some(workspace_id) => {
                    let action = GitFilesystemAction::SwitchWorkspace { workspace_id };
                    let mutation = GitPendingMutation::Switch { branch: name };
                    Ok(prepare_transition(state, action, mutation, transition))
                },
                None => if create {
                    Ok(prepare_fork(state, &branch, workspace, name, true, transition))
                } else {
                    Err(GitCompatStateError::Unknown(name))
                },
            }
        },
        GitCommand::Restore { source, paths } => match find_commit(state, source.as_ref()) {
            Err(error) => Err(error),
            Ok((id, commit)) => Ok(
                GitCommandOutput::Action(
                    GitFilesystemAction::RestorePaths {
                        tree: commit.tree,
                        paths: expand_pathspecs(paths.as_slice(), &commit.tracked_paths),
                    },
                ),
            ),
        },
        GitCommand::Reset { target, mode } => reset(state, &branch, &target, mode, transition),
        GitCommand::Merge { branch: name } => prepare_join(
            state,
            &branch,
            workspace,
            name,
            false,
            transition,
        ),
        GitCommand::Rebase { branch: name } => prepare_join(
            state,
            &branch,
            workspace,
            name,
            true,
            transition,
        ),
        GitCommand::StashPush => {
            let visible = find_visible_head(state);
            let tree = match head_record(state, visible) {
                Some(commit) => commit.workspace_tree,
                None => return Err(GitCompatStateError::UnbornHead),
            };
            let action = GitFilesystemAction::RestoreGeneration { tree, paths: None };
            let mutation = GitPendingMutation::StashPush { tree: workspace };
            Ok(prepare_transition(state, action, mutation, transition))
        },
        GitCommand::StashPop => {
            if state.stash.len() == 0 {
                return Err(GitCompatStateError::EmptyStash);
            }
            let tree = state.stash[state.stash.len() - 1];
            let action = GitFilesystemAction::RestoreGeneration { tree, paths: None };
            let mutation = GitPendingMutation::StashPop { tree };
            Ok(prepare_transition(state, action, mutation, transition))
        },
        GitCommand::CherryPick { object } => prepare_apply(
            state,
            &branch,
            &object,
            false,
            transition,
        ),
        GitCommand::Revert { object } => prepare_apply(state, &branch, &object, true, transition),
        GitCommand::Tag { name, target, delete } => edit_tags(state, name, target, delete),
        GitCommand::Clean { dry_run } => Ok(
            GitCommandOutput::Action(
                GitFilesystemAction::Clean {
                    dry_run,
                    tree: workspace,
                    tracked_paths: branch.tracked_paths,
                },
            ),
        ),
        GitCommand::Apply { patch } => Ok(
            GitCommandOutput::Action(GitFilesystemAction::ApplyPatch { patch }),
        ),
        GitCommand::Bisect { arguments } => execute_bisect(
            state,
            &branch,
            workspace,
            &arguments,
            transition,
        ),
        GitCommand::MergeContinue => Err(GitCompatStateError::Invalid),
        GitCommand::MergeAbort => Err(GitCompatStateError::Invalid),
        command => inspect(state, &branch, command, workspace),
    }
}

/// The public failure for a failed step.
pub open spec fn public_error<E>(error: StateErrorView) -> CompatErrorView<E> {
    match error {
        StateErrorView::Invalid => CompatErrorView::InvalidState,
        StateErrorView::Unknown(name) => CompatErrorView::UnknownObject(name),
        StateErrorView::BranchExists(name) => CompatErrorView::BranchExists(name),
        StateErrorView::UnbornHead => CompatErrorView::UnbornHead,
        StateErrorView::NothingToCommit => CompatErrorView::NothingToCommit,
        StateErrorView::EmptyStash => CompatErrorView::UnknownObject("stash@{0}"@),
        StateErrorView::Bisect(message) => CompatErrorView::InvalidCommand(message),
    }
}

/// Turns a failed step into the public failure.
pub fn map_state_error<E>(error: GitCompatStateError) -> (r: GitCompatError<E>)
    ensures
        r@ == public_error::<E>(error@),
{
    match error {
        GitCompatStateError::Invalid => GitCompatError::InvalidState,
        GitCompatStateError::Unknown(name) => GitCompatError::UnknownObject(name),
        GitCompatStateError::BranchExists(name) => GitCompatError::BranchExists(name),
        GitCompatStateError::UnbornHead => GitCompatError::UnbornHead,
        GitCompatStateError::NothingToCommit => GitCompatError::NothingToCommit,
        GitCompatStateError::EmptyStash => GitCompatError::UnknownObject("stash@{0}".to_owned()),
        GitCompatStateError::Bisect(message) => GitCompatError::InvalidCommand(message),
    }
}

} // verus!
