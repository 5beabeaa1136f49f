//! Repositories driven step by step over an in-memory store.

use acyclic_filesystem::foundation::{Digest, GenerationId, OperationId, WorkspaceId};
use acyclic_filesystem::git::complete::complete_pending;
use acyclic_filesystem::git::run::{GitCompatRepository, GitCompatRunError};
use acyclic_filesystem::git::store::{
    GitCompatStore, MemoryGitCompatStore, MemoryGitCompatStoreError,
};
use acyclic_filesystem::git::types::{
    GitBranch, GitCommand, GitCommandOutput, GitCommit, GitCommitId, GitCompatError,
    GitCompatState, GitDirtyState, GitFilesystemAction, GitFilesystemResult, GitPendingMutation,
    GitPendingTransition, GitPublicationRecord, GitRun, GitRunAction, GitRunEvent, GitTransaction,
    GitTransitionId, GitTreeRef,
};
use acyclic_filesystem::order::OrderedSet;

type StoreError = MemoryGitCompatStoreError;
type RunResult = Result<Option<GitCommandOutput>, GitCompatRunError<StoreError, Failure>>;

#[derive(Debug, PartialEq, Eq)]
struct Failure;

/// An executor that answers every action alike and keeps what it was asked for.
struct Executor {
    result: Option<GitFilesystemResult>,
    operations: Vec<OperationId>,
}

impl Executor {
    fn returning(result: GitFilesystemResult) -> Self {
        Executor { result: Some(result), operations: Vec::new() }
    }

    fn failing() -> Self {
        Executor { result: None, operations: Vec::new() }
    }
}

/// A repository with its store and a source of fresh identities.
struct Driver {
    repository: GitCompatRepository<()>,
    store: MemoryGitCompatStore,
    transitions: u8,
}

impl Driver {
    fn new() -> Self {
        Driver::over(MemoryGitCompatStore::new())
    }

    fn over(store: MemoryGitCompatStore) -> Self {
        Driver { repository: GitCompatRepository::new(workspace(), ()), store, transitions: 0 }
    }

    fn fresh(&mut self) -> GitTransitionId {
        self.transitions += 1;
        GitTransitionId { operation: OperationId::from_bytes([self.transitions; 16]) }
    }

    fn load(&self) -> Option<GitCompatState> {
        self.store.load(workspace()).expect("memory store")
    }

    fn drive(&mut self, mut run: GitRun, executor: &mut Executor) -> RunResult {
        let mut action = GitRunAction::Load;
        loop {
            let event = match action {
                GitRunAction::Load => {
                    GitRunEvent::Loaded { state: self.load(), fresh: self.fresh() }
                }
                GitRunAction::Swap { expected, replacement } => GitRunEvent::Swapped {
                    published: self
                        .store
                        .compare_and_swap(workspace(), expected, replacement)
                        .expect("memory store"),
                },
                GitRunAction::Validate => GitRunEvent::Validated,
                GitRunAction::Encode { action } => {
                    GitRunEvent::Encoded { bytes: format!("{action:?}").into_bytes() }
                }
                GitRunAction::Execute { operation_id, .. } => {
                    executor.operations.push(operation_id);
                    match &executor.result {
                        Some(result) => GitRunEvent::Performed { result: result.clone() },
                        None => return Err(GitCompatRunError::Executor(Failure)),
                    }
                }
                GitRunAction::Done { output } => return Ok(output),
            };
            action = run.step(event)?;
        }
    }

    fn settle(
        &mut self,
        mut transaction: GitTransaction,
    ) -> Result<GitCommandOutput, GitCompatError<StoreError>> {
        let mut action = GitRunAction::Load;
        loop {
            action = match action {
                GitRunAction::Load => {
                    let state = self.load();
                    let fresh = self.fresh();
                    transaction.loaded(state, fresh)?
                }
                GitRunAction::Swap { expected, replacement } => {
                    let published = self
                        .store
                        .compare_and_swap(workspace(), expected, replacement)
                        .expect("memory store");
                    transaction.swapped(published)?
                }
                GitRunAction::Done { output: Some(output) } => return Ok(output),
                other => panic!("unexpected step {other:?}"),
            };
        }
    }

    fn run(&mut self, command: GitCommand, byte: u8, executor: &mut Executor) -> RunResult {
        let run = self.repository.run(command, generation(byte));
        self.drive(run, executor)
    }

    fn execute(
        &mut self,
        command: GitCommand,
        live: GitTreeRef,
    ) -> Result<GitCommandOutput, GitCompatError<StoreError>> {
        let run = self.repository.execute(command, live);
        match self.drive(run, &mut Executor::failing()) {
            Ok(Some(output)) => Ok(output),
            Err(GitCompatRunError::Compat(error)) => Err(error),
            other => panic!("unexpected outcome {other:?}"),
        }
    }

    fn pending(&self) -> Option<GitPendingTransition> {
        self.repository
            .pending_transition::<StoreError>(self.load())
            .expect("consistent state")
    }

    fn prepare(&mut self, command: GitCommand, byte: u8) -> (GitTransitionId, GitFilesystemAction) {
        match self.execute(command, tree(byte)).expect("prepared command") {
            GitCommandOutput::Prepared { transition, action } => (transition, action),
            other => panic!("expected preparation, got {other:?}"),
        }
    }

    fn record(&mut self, expected: Option<GitCommitId>, byte: u8, message: &str) -> GitCommit {
        let transaction = self.repository.record_commit(
            expected,
            generation(byte),
            paths(&["tracked.txt"]),
            message.to_owned(),
            "agent".to_owned(),
            i64::from(byte),
        );
        match self.settle(transaction).expect("recorded commit") {
            GitCommandOutput::Committed(commit) => commit,
            other => panic!("expected commit, got {other:?}"),
        }
    }
}

fn generation(byte: u8) -> GenerationId {
    GenerationId::new(Digest::from_bytes([byte; 32]))
}

fn workspace() -> WorkspaceId {
    WorkspaceId::from_bytes([9; 16])
}

fn other_workspace(byte: u8) -> WorkspaceId {
    WorkspaceId::from_bytes([byte; 16])
}

fn tree(byte: u8) -> GitTreeRef {
    GitTreeRef::exact(workspace(), generation(byte))
}

fn paths(names: &[&str]) -> OrderedSet<String> {
    OrderedSet::from_vec(names.iter().map(|name| (*name).to_owned()).collect())
}

fn initial_commit() -> GitCommand {
    GitCommand::Commit {
        message: "initial".to_owned(),
        author: "agent".to_owned(),
        authored_at_seconds: 10,
    }
}

fn bisect(arguments: &[&str]) -> GitCommand {
    GitCommand::Bisect { arguments: arguments.iter().map(|text| (*text).to_owned()).collect() }
}

fn applied(tree: Option<GitTreeRef>) -> GitFilesystemResult {
    GitFilesystemResult::Applied { tree, tracked_paths: None }
}

#[test]
fn foreign_workspace_tree_is_rejected_before_executor_side_effects() {
    let mut driver = Driver::new();
    let mut executor = Executor::returning(applied(None));
    let run = driver
        .repository
        .run(GitCommand::Status, GitTreeRef::exact(other_workspace(8), generation(1)));
    let outcome = driver.drive(run, &mut executor);
    assert!(matches!(
        outcome,
        Err(GitCompatRunError::Compat(GitCompatError::WorkspaceMismatch))
    ));
    assert!(executor.operations.is_empty());
}

#[test]
fn foreign_completion_tree_is_rejected_without_consuming_the_transition() {
    let mut driver = Driver::new();
    let (transition, _) = driver.prepare(initial_commit(), 1);
    let completion = driver.repository.complete_transition_result(
        transition,
        GitFilesystemResult::Captured {
            tree: GitTreeRef::exact(other_workspace(8), generation(1)),
            tracked_paths: OrderedSet::new(),
        },
    );
    assert!(matches!(driver.settle(completion), Err(GitCompatError::WorkspaceMismatch)));
    assert_eq!(driver.pending().map(|pending| pending.id), Some(transition));
}

#[test]
fn persisted_commit_hashes_are_validated_before_use() {
    let mut store = MemoryGitCompatStore::new();
    let mut state = GitCompatState::new("main".to_owned(), workspace());
    let mut commit =
        GitCommit::new(tree(1), Vec::new(), "agent".to_owned(), 10, "initial".to_owned());
    commit.message = "forged".to_owned();
    state.revision = 1;
    let id = commit.id;
    state.commits.insert(id, commit);
    state.branches.insert(
        "main".to_owned(),
        GitBranch {
            name: "main".to_owned(),
            workspace_id: workspace(),
            head: Some(id),
            tracked_paths: OrderedSet::new(),
        },
    );
    assert_eq!(store.compare_and_swap(workspace(), 0, state), Ok(true));
    let mut driver = Driver::over(store);
    assert!(matches!(
        driver.execute(GitCommand::Status, tree(1)),
        Err(GitCompatError::InvalidState)
    ));
}

#[test]
fn generated_commit_uses_exact_resulting_tracked_paths() {
    let mut state = GitCompatState::new("main".to_owned(), workspace());
    state.branches.insert(
        "main".to_owned(),
        GitBranch {
            name: "main".to_owned(),
            workspace_id: workspace(),
            head: None,
            tracked_paths: paths(&["deleted.txt", "kept.txt"]),
        },
    );
    let output = complete_pending::<MemoryGitCompatStoreError>(
        &mut state,
        GitPendingMutation::ApplyCommit {
            commit: GitCommitId::from_bytes([7; 32]),
            reverse: false,
        },
        &GitFilesystemResult::Applied {
            tree: Some(tree(2)),
            tracked_paths: Some(paths(&["kept.txt"])),
        },
    )
    .expect("generated commit");
    let GitCommandOutput::Committed(commit) = output else {
        panic!("expected generated commit");
    };
    assert_eq!(commit.tracked_paths, paths(&["kept.txt"]));
    assert_eq!(
        state.current().expect("current branch").tracked_paths,
        commit.tracked_paths
    );
}

#[test]
fn auto_staging_commit_and_machine_readable_history() {
    let mut driver = Driver::new();
    let GitCommandOutput::Status(status) =
        driver.execute(GitCommand::Status, tree(1)).expect("status")
    else {
        panic!("expected status");
    };
    assert_eq!(status.dirty, GitDirtyState::Dirty);
    assert!(status.all_changes_staged);
    let (transition, action) = driver.prepare(initial_commit(), 1);
    assert!(matches!(action, GitFilesystemAction::CaptureCommit { .. }));
    let completion = driver.repository.complete_transition_result(
        transition,
        GitFilesystemResult::Captured { tree: tree(1), tracked_paths: paths(&["tracked.txt"]) },
    );
    let GitCommandOutput::Committed(commit) = driver.settle(completion).expect("record commit")
    else {
        panic!("expected commit");
    };
    let GitCommandOutput::Commits(log) =
        driver.execute(GitCommand::Log { maximum: 10 }, tree(1)).expect("log")
    else {
        panic!("expected log");
    };
    assert_eq!(log, vec![commit]);
}

#[test]
fn composed_run_finalizes_commit_and_branch_actions() {
    let mut driver = Driver::new();
    let mut committer = Executor::returning(GitFilesystemResult::Captured {
        tree: tree(9),
        tracked_paths: paths(&["tracked.txt"]),
    });
    let Some(GitCommandOutput::Committed(commit)) =
        driver.run(initial_commit(), 1, &mut committer).expect("composed commit")
    else {
        panic!("expected composed commit");
    };
    assert_eq!(commit.tree, tree(9));
    assert_eq!(commit.workspace_tree, tree(1));
    assert!(matches!(
        driver.execute(GitCommand::Status, tree(1)).expect("status"),
        GitCommandOutput::Status(status) if status.dirty == GitDirtyState::Clean
    ));
    let child = other_workspace(21);
    let mut brancher =
        Executor::returning(GitFilesystemResult::Forked { workspace_id: child });
    driver
        .run(
            GitCommand::Branch { create: Some("feature-run".to_owned()) },
            1,
            &mut brancher,
        )
        .expect("composed branch");
    assert!(matches!(
        driver.execute(GitCommand::Branch { create: None }, tree(1)).expect("branches"),
        GitCommandOutput::Branches { branches, .. }
            if branches.iter().any(|branch| branch.workspace_id == child)
    ));
}

#[test]
fn composed_run_leaves_failed_transition_for_exact_resume() {
    let mut driver = Driver::new();
    let mut committer = Executor::returning(GitFilesystemResult::Captured {
        tree: tree(1),
        tracked_paths: OrderedSet::new(),
    });
    driver.run(initial_commit(), 1, &mut committer).expect("initial commit");
    let mut brancher = Executor::returning(GitFilesystemResult::Forked {
        workspace_id: other_workspace(22),
    });
    driver
        .run(
            GitCommand::Branch { create: Some("recover-run".to_owned()) },
            1,
            &mut brancher,
        )
        .expect("branch");
    let failed = driver.run(
        GitCommand::Switch { branch: "recover-run".to_owned(), create: false },
        2,
        &mut Executor::failing(),
    );
    assert!(matches!(failed, Err(GitCompatRunError::Executor(Failure))));
    let pending = driver.pending().expect("durable pending transition");
    let mut executor = Executor::returning(applied(Some(tree(1))));
    let resume = driver.repository.resume();
    assert!(driver.drive(resume, &mut executor).expect("resume").is_some());
    assert!(driver.pending().is_none());
    assert_eq!(executor.operations, vec![pending.id.operation]);
}

fn pending_merge(driver: &mut Driver, child: WorkspaceId) {
    let mut brancher = Executor::returning(GitFilesystemResult::Forked { workspace_id: child });
    driver
        .run(GitCommand::Branch { create: Some("feature".to_owned()) }, 1, &mut brancher)
        .expect("feature branch");
    assert!(matches!(
        driver.run(
            GitCommand::Merge { branch: "feature".to_owned() },
            2,
            &mut Executor::failing(),
        ),
        Err(GitCompatRunError::Executor(Failure))
    ));
}

#[test]
fn conflicted_merge_can_continue_or_abort_without_a_second_sequencer() {
    let child = other_workspace(23);
    let mut continued = Driver::new();
    pending_merge(&mut continued, child);
    let staged = continued
        .run(
            GitCommand::Add { paths: vec!["conflicted.txt".to_owned()] },
            3,
            &mut Executor::returning(applied(None)),
        )
        .expect("stage conflict resolution");
    assert_eq!(staged, Some(GitCommandOutput::NoOp));
    assert!(continued.pending().is_some());
    let joined = continued
        .run(GitCommand::MergeContinue, 3, &mut Executor::returning(applied(None)))
        .expect("continue merge");
    assert!(matches!(
        joined,
        Some(GitCommandOutput::Committed(commit)) if commit.tree == tree(3)
    ));
    assert!(continued.pending().is_none());

    let mut aborted = Driver::new();
    pending_merge(&mut aborted, child);
    let outcome = aborted
        .run(
            GitCommand::MergeAbort,
            4,
            &mut Executor::returning(applied(Some(tree(2)))),
        )
        .expect("abort merge");
    assert!(matches!(
        outcome,
        Some(GitCommandOutput::Filesystem(GitFilesystemResult::Applied { .. }))
    ));
    assert!(aborted.pending().is_none());
}

#[test]
fn bisect_uses_durable_first_parent_generation_checkouts() {
    let mut driver = Driver::new();
    let mut commits = Vec::new();
    let mut expected = None;
    for byte in 1..=5 {
        let commit = driver.record(expected, byte, &format!("commit {byte}"));
        expected = Some(commit.id);
        commits.push(commit.id);
    }
    let bad = commits[4].to_hex();
    let good = commits[0].to_hex();
    let Some(GitCommandOutput::Bisect(started)) = driver
        .run(
            bisect(&["start", &bad, &good]),
            5,
            &mut Executor::returning(applied(Some(tree(3)))),
        )
        .expect("start bisect")
    else {
        panic!("expected bisect state");
    };
    assert_eq!(started.current, Some(commits[2]));
    assert_eq!(started.remaining, 3);
    let Some(GitCommandOutput::Bisect(narrowed)) = driver
        .run(bisect(&["good"]), 3, &mut Executor::returning(applied(Some(tree(4)))))
        .expect("mark good")
    else {
        panic!("expected narrowed bisect state");
    };
    assert_eq!(narrowed.current, Some(commits[3]));
    let Some(GitCommandOutput::Bisect(done)) = driver
        .run(bisect(&["bad"]), 4, &mut Executor::returning(applied(Some(tree(4)))))
        .expect("mark bad")
    else {
        panic!("expected completed bisect state");
    };
    assert_eq!(done.first_bad, Some(commits[3]));
    assert_eq!(done.remaining, 0);
    let Some(GitCommandOutput::Bisect(reset)) = driver
        .run(bisect(&["reset"]), 4, &mut Executor::returning(applied(Some(tree(5)))))
        .expect("reset bisect")
    else {
        panic!("expected reset bisect state");
    };
    assert!(!reset.active);
}

#[test]
fn distributed_publication_records_one_idempotent_merge_commit() {
    let mut driver = Driver::new();
    let initial = driver.record(None, 1, "initial");
    let registration = driver.repository.register_branch_workspace(
        "agents/child".to_owned(),
        other_workspace(0x51),
        Some(initial.id),
        false,
    );
    driver.settle(registration).expect("source branch");
    let publication = driver.repository.record_publication(GitPublicationRecord {
        tree: tree(2),
        workspace_tree: tree(3),
        source_head: Some(initial.id),
        tracked_paths: paths(&["tracked.txt", "new.txt"]),
        message: "Merge agents/child".to_owned(),
        author: "parent".to_owned(),
        authored_at_seconds: 2,
    });
    let GitCommandOutput::Committed(merged) =
        driver.settle(publication).expect("publication commit")
    else {
        panic!("expected publication commit");
    };
    assert_eq!(merged.parents, vec![initial.id]);
    assert_eq!(merged.tracked_paths, paths(&["tracked.txt", "new.txt"]));
    assert_eq!(
        driver
            .repository
            .tracked_paths::<StoreError>(driver.load())
            .expect("tracked paths"),
        paths(&["tracked.txt", "new.txt"])
    );
    let retry = driver.repository.record_publication(GitPublicationRecord {
        tree: tree(2),
        workspace_tree: tree(3),
        source_head: Some(initial.id),
        tracked_paths: OrderedSet::new(),
        message: "retry".to_owned(),
        author: "parent".to_owned(),
        authored_at_seconds: 99,
    });
    assert_eq!(driver.settle(retry).expect("exact retry"), GitCommandOutput::NoOp);
}

#[test]
fn cached_diff_is_head_to_workspace_and_add_is_noop() {
    let mut driver = Driver::new();
    let (transition, _) = driver.prepare(initial_commit(), 1);
    let completion = driver.repository.complete_transition_result(
        transition,
        GitFilesystemResult::Captured { tree: tree(1), tracked_paths: OrderedSet::new() },
    );
    driver.settle(completion).expect("record commit");
    assert_eq!(
        driver
            .execute(GitCommand::Add { paths: vec![".".to_owned()] }, tree(2))
            .expect("add"),
        GitCommandOutput::NoOp
    );
    let (_, action) = driver.prepare(GitCommand::Diff { cached: true }, 2);
    assert!(matches!(
        action,
        GitFilesystemAction::Diff { from: Some(from), to } if from == tree(1) && to == tree(2)
    ));
}

#[test]
fn every_branch_requests_and_registers_a_distinct_workspace() {
    let mut driver = Driver::new();
    let (transition, action) = driver.prepare(
        GitCommand::Switch { branch: "feature".to_owned(), create: true },
        4,
    );
    let GitFilesystemAction::ForkBranch { source_tree, head, switch, .. } = action else {
        panic!("expected a core workspace fork request");
    };
    assert_eq!(source_tree, tree(4));
    assert!(head.is_none());
    assert!(switch);
    let child = other_workspace(24);
    let completion = driver.repository.complete_transition_result(
        transition,
        GitFilesystemResult::Forked { workspace_id: child },
    );
    driver.settle(completion).expect("register branch workspace");
    let GitCommandOutput::Status(status) = driver
        .execute(GitCommand::Status, GitTreeRef::exact(child, generation(4)))
        .expect("feature status")
    else {
        panic!("expected status");
    };
    assert_eq!(status.branch, "feature");
}

fn execute_argv(
    driver: &mut Driver,
    words: &[&str],
) -> Result<GitCommandOutput, GitCompatError<StoreError>> {
    let argv: Vec<String> = words.iter().map(|word| (*word).to_owned()).collect();
    let run = driver.repository.execute_argv(&argv, generation(1), "agent", 10)?;
    match driver.drive(run, &mut Executor::failing()) {
        Ok(Some(output)) => Ok(output),
        Err(GitCompatRunError::Compat(error)) => Err(error),
        other => panic!("unexpected outcome {other:?}"),
    }
}

#[test]
fn argv_covers_local_history_and_rejects_transport() {
    let mut driver = Driver::new();
    assert!(matches!(
        execute_argv(&mut driver, &["reset", "--hard", "HEAD"]),
        Err(GitCompatError::UnbornHead)
    ));
    assert!(matches!(
        execute_argv(&mut driver, &["clean"]),
        Err(GitCompatError::InvalidCommand(message)) if message.contains("requires -f")
    ));
    assert!(matches!(
        execute_argv(&mut driver, &["clean", "--dry-run"]),
        Ok(GitCommandOutput::Prepared {
            action: GitFilesystemAction::Clean { dry_run: true, .. },
            ..
        })
    ));
    assert!(matches!(
        execute_argv(&mut driver, &["push"]),
        Err(GitCompatError::Unsupported { .. })
    ));
}

#[test]
fn state_changing_filesystem_actions_are_prepared_then_completed() {
    let mut driver = Driver::new();
    let (transition, _) = driver.prepare(initial_commit(), 1);
    let completion = driver.repository.complete_transition_result(
        transition,
        GitFilesystemResult::Captured { tree: tree(1), tracked_paths: OrderedSet::new() },
    );
    let GitCommandOutput::Committed(commit) = driver.settle(completion).expect("record commit")
    else {
        panic!("expected commit");
    };
    let registration = driver.repository.register_branch_workspace(
        "feature".to_owned(),
        workspace(),
        Some(commit.id),
        false,
    );
    driver.settle(registration).expect("register branch");
    let (transition, _) = driver.prepare(
        GitCommand::Switch { branch: "feature".to_owned(), create: false },
        2,
    );
    assert!(matches!(
        driver.execute(GitCommand::Status, tree(2)),
        Err(GitCompatError::TransitionPending(id)) if id == transition
    ));
    let completion = driver.repository.complete_transition(transition, None);
    driver.settle(completion).expect("complete switch");
    let GitCommandOutput::Status(status) =
        driver.execute(GitCommand::Status, tree(1)).expect("status")
    else {
        panic!("expected status");
    };
    assert_eq!(status.branch, "feature");
}

#[test]
fn commit_identity_is_the_digest_of_the_record() {
    let commit = GitCommit::new(tree(1), Vec::new(), "agent".to_owned(), 10, "initial".to_owned());
    let again = GitCommit::new(tree(1), Vec::new(), "agent".to_owned(), 10, "initial".to_owned());
    let other = GitCommit::new(tree(1), Vec::new(), "agent".to_owned(), 11, "initial".to_owned());
    assert_eq!(commit.id, again.id);
    assert_ne!(commit.id, other.id);
    assert_eq!(commit.id.to_hex().len(), 64);
}

#[test]
fn giving_up_a_preparation_leads_back() {
    let mut driver = Driver::new();
    driver.record(None, 1, "initial");
    let before = driver.load().expect("state");
    let (transition, _) = driver.prepare(GitCommand::StashPush, 2);
    let abort = driver.repository.abort_transition(transition);
    assert_eq!(driver.settle(abort).expect("abort"), GitCommandOutput::NoOp);
    let mut after = driver.load().expect("state");
    assert_eq!(after.revision, before.revision + 2);
    after.revision = before.revision;
    assert_eq!(after, before);
    let stale = driver.repository.abort_transition(transition);
    assert!(matches!(driver.settle(stale), Err(GitCompatError::StaleTransition)));
}

#[test]
fn stashing_and_popping_restores_the_stash() {
    let mut driver = Driver::new();
    driver.record(None, 1, "initial");
    driver
        .run(GitCommand::StashPush, 2, &mut Executor::returning(applied(Some(tree(1)))))
        .expect("push");
    assert_eq!(driver.load().expect("state").stash, vec![tree(2)]);
    driver
        .run(GitCommand::StashPop, 1, &mut Executor::returning(applied(Some(tree(2)))))
        .expect("pop");
    assert!(driver.load().expect("state").stash.is_empty());
    assert!(matches!(
        driver.execute(GitCommand::StashPop, tree(2)),
        Err(GitCompatError::UnknownObject(name)) if name == "stash@{0}"
    ));
}

#[test]
fn registering_a_branch_twice_changes_nothing_but_the_revision() {
    let mut driver = Driver::new();
    let initial = driver.record(None, 1, "initial");
    for _ in 0..2 {
        let registration = driver.repository.register_branch_workspace(
            "topic".to_owned(),
            other_workspace(5),
            Some(initial.id),
            false,
        );
        assert_eq!(driver.settle(registration).expect("register"), GitCommandOutput::NoOp);
    }
    let competing = driver.repository.register_branch_workspace(
        "topic".to_owned(),
        other_workspace(6),
        Some(initial.id),
        false,
    );
    assert!(matches!(
        driver.settle(competing),
        Err(GitCompatError::BranchExists(name)) if name == "topic"
    ));
}

#[test]
fn refused_offers_are_bounded() {
    let mut transaction = GitCompatRepository::new(workspace(), ()).record_commit(
        None,
        generation(1),
        OrderedSet::new(),
        "initial".to_owned(),
        "agent".to_owned(),
        1,
    );
    let fresh = GitTransitionId { operation: OperationId::from_bytes([1; 16]) };
    let mut attempts = 0;
    loop {
        transaction.loaded::<StoreError>(None, fresh).expect("offer");
        attempts += 1;
        match transaction.swapped::<StoreError>(false) {
            Ok(action) => assert_eq!(action, GitRunAction::Load),
            Err(error) => {
                assert!(matches!(error, GitCompatError::Contended));
                break;
            }
        }
    }
    assert_eq!(attempts, 32);
}

#[test]
fn a_finished_run_asks_for_nothing_more() {
    let mut run = GitCompatRepository::new(workspace(), ()).resume();
    let fresh = GitTransitionId { operation: OperationId::from_bytes([1; 16]) };
    let done = run
        .step::<StoreError, Failure>(GitRunEvent::Loaded { state: None, fresh })
        .expect("nothing to resume");
    assert_eq!(done, GitRunAction::Done { output: None });
    assert!(matches!(
        run.step::<StoreError, Failure>(GitRunEvent::Validated),
        Err(GitCompatRunError::InvalidResult)
    ));
}
