//! Values of the compatibility layer.
//!
//! Compatibility commits point at exact authenticated generations. Commands
//! that need filesystem work yield a typed action, so one state machine can
//! drive every executor.

use crate::digest::{hex_chars, hex_text};
use crate::foundation::{Digest, GenerationId, OperationId, WorkspaceId};
use crate::order::{
    replicate_all, same_bytes, views, OrderKey, OrderedMap, OrderedSet, Replicate,
};
use vstd::prelude::*;

verus! {

/// Copies a list of plain values.
pub fn copy_all<T: Copy>(items: &[T]) -> (r: Vec<T>)
    ensures
        r@ == items@,
{
    vstd::slice::slice_to_vec(items)
}

/// Stable BLAKE3 compatibility commit identity.
#[derive(Clone, Copy, Debug, Eq, PartialOrd, Ord, Hash)]
pub struct GitCommitId {
    /// Canonical bytes.
    pub bytes: [u8; 32],
}

impl PartialEq for GitCommitId {
    fn eq(&self, other: &Self) -> (r: bool) {
        broadcast use vstd::array::group_array_axioms;

        let r = same_bytes(self.bytes.as_slice(), other.bytes.as_slice());
        assert(r ==> self.bytes =~= other.bytes);
        r
    }
}

impl vstd::std_specs::cmp::PartialEqSpecImpl for GitCommitId {
    open spec fn obeys_eq_spec() -> bool {
        true
    }

    open spec fn eq_spec(&self, other: &Self) -> bool {
        *self == *other
    }
}

impl View for GitCommitId {
    type V = GitCommitId;

    open spec fn view(&self) -> GitCommitId {
        *self
    }
}

impl Replicate for GitCommitId {
    fn replicate(&self) -> (r: Self) {
        *self
    }
}

impl OrderKey for GitCommitId {
    open spec fn order_bytes(key: GitCommitId) -> Seq<u8> {
        key.bytes@
    }

    proof fn order_bytes_injective(a: GitCommitId, b: GitCommitId) {
        broadcast use vstd::array::group_array_axioms;

        assert(a.bytes =~= b.bytes);
    }

    fn key_bytes(&self) -> (r: &[u8]) {
        self.bytes.as_slice()
    }
}

impl GitCommitId {
    /// Restores an exact compatibility identity.
    pub fn from_bytes(bytes: [u8; 32]) -> (r: Self)
        ensures
            r.bytes == bytes,
    {
        GitCommitId { bytes }
    }

    /// Returns canonical bytes.
    pub fn into_bytes(self) -> (r: [u8; 32])
        ensures
            r == self.bytes,
    {
        self.bytes
    }

    /// Lower-case hexadecimal spelling accepted on the command line.
    pub fn to_hex(self) -> (r: String)
        ensures
            r@ == hex_chars(self.bytes@),
    {
        hex_text(self.bytes.as_slice())
    }
}

/// Identity of one logical snapshot with unresolved source state.
#[derive(Clone, Copy, Debug, Eq, PartialOrd, Ord, Hash)]
pub struct LazySnapshotId {
    /// Digest that names the snapshot.
    pub digest: Digest,
}

impl PartialEq for LazySnapshotId {
    fn eq(&self, other: &Self) -> (r: bool) {
        self.digest == other.digest
    }
}

impl vstd::std_specs::cmp::PartialEqSpecImpl for LazySnapshotId {
    open spec fn obeys_eq_spec() -> bool {
        true
    }

    open spec fn eq_spec(&self, other: &Self) -> bool {
        *self == *other
    }
}

/// Constant-size logical snapshot that retains unresolved source semantics.
#[derive(Clone, Copy, Debug, Eq)]
pub struct LazySnapshotRef {
    /// Snapshot identity.
    pub id: LazySnapshotId,
    /// Workspace owning the authored component.
    pub workspace_id: WorkspaceId,
    /// Authenticated authored generation component.
    pub authored_generation: GenerationId,
}

impl PartialEq for LazySnapshotRef {
    fn eq(&self, other: &Self) -> (r: bool) {
        self.id == other.id && self.workspace_id == other.workspace_id
            && self.authored_generation == other.authored_generation
    }
}

impl vstd::std_specs::cmp::PartialEqSpecImpl for LazySnapshotRef {
    open spec fn obeys_eq_spec() -> bool {
        true
    }

    open spec fn eq_spec(&self, other: &Self) -> bool {
        *self == *other
    }
}

/// Exact compatibility snapshot identity across workspaces.
#[derive(Clone, Copy, Debug, Eq)]
pub struct GitGenerationRef {
    /// Workspace that authenticates the generation.
    pub workspace_id: WorkspaceId,
    /// Immutable generation identity.
    pub generation: GenerationId,
}

impl PartialEq for GitGenerationRef {
    fn eq(&self, other: &Self) -> (r: bool) {
        self.workspace_id == other.workspace_id && self.generation == other.generation
    }
}

impl vstd::std_specs::cmp::PartialEqSpecImpl for GitGenerationRef {
    open spec fn obeys_eq_spec() -> bool {
        true
    }

    open spec fn eq_spec(&self, other: &Self) -> bool {
        *self == *other
    }
}

/// One visible tree, either fully authored or lazily source-backed.
#[derive(Clone, Copy, Debug, Eq)]
pub enum GitTreeRef {
    /// Exact authenticated authored generation.
    Exact(GitGenerationRef),
    /// Constant-size logical snapshot retaining unresolved source semantics.
    Lazy(LazySnapshotRef),
}

impl PartialEq for GitTreeRef {
    fn eq(&self, other: &Self) -> (r: bool) {
        match (self, other) {
            (GitTreeRef::Exact(a), GitTreeRef::Exact(b)) => *a == *b,
            (GitTreeRef::Lazy(a), GitTreeRef::Lazy(b)) => *a == *b,
            _ => false,
        }
    }
}

impl vstd::std_specs::cmp::PartialEqSpecImpl for GitTreeRef {
    open spec fn obeys_eq_spec() -> bool {
        true
    }

    open spec fn eq_spec(&self, other: &Self) -> bool {
        *self == *other
    }
}

impl View for GitTreeRef {
    type V = GitTreeRef;

    open spec fn view(&self) -> GitTreeRef {
        *self
    }
}

impl Replicate for GitTreeRef {
    fn replicate(&self) -> (r: Self) {
        *self
    }
}

impl From<GitGenerationRef> for GitTreeRef {
    fn from(value: GitGenerationRef) -> (r: Self) {
        GitTreeRef::Exact(value)
    }
}

impl vstd::std_specs::convert::FromSpecImpl<GitGenerationRef> for GitTreeRef {
    open spec fn obeys_from_spec() -> bool {
        true
    }

    open spec fn from_spec(value: GitGenerationRef) -> GitTreeRef {
        GitTreeRef::Exact(value)
    }
}

impl GitTreeRef {
    /// Workspace owning the authored component.
    pub open spec fn owner(self) -> WorkspaceId {
        match self {
            GitTreeRef::Exact(reference) => reference.workspace_id,
            GitTreeRef::Lazy(reference) => reference.workspace_id,
        }
    }

    /// Constructs an exact authored tree reference.
    pub fn exact(workspace_id: WorkspaceId, generation: GenerationId) -> (r: Self)
        ensures
            r == GitTreeRef::Exact((GitGenerationRef { workspace_id, generation })),
    {
        GitTreeRef::Exact(GitGenerationRef { workspace_id, generation })
    }

    /// Workspace owning the authored component.
    pub fn workspace_id(self) -> (r: WorkspaceId)
        ensures
            r == self.owner(),
    {
        match self {
            GitTreeRef::Exact(reference) => reference.workspace_id,
            GitTreeRef::Lazy(reference) => reference.workspace_id,
        }
    }

    /// Authenticated authored generation component.
    pub fn authored_generation(self) -> (r: GenerationId)
        ensures
            r == match self {
                GitTreeRef::Exact(reference) => reference.generation,
                GitTreeRef::Lazy(reference) => reference.authored_generation,
            },
    {
        match self {
            GitTreeRef::Exact(reference) => reference.generation,
            GitTreeRef::Lazy(reference) => reference.authored_generation,
        }
    }
}

/// Input accepted for a live workspace tree.
pub trait IntoGitTreeRef: Sized {
    /// The tree that the input names in a repository workspace.
    spec fn tree_ref(self, repository_workspace: WorkspaceId) -> GitTreeRef;

    /// Resolves the input using the repository workspace for exact generations.
    fn into_git_tree_ref(self, repository_workspace: WorkspaceId) -> (r: GitTreeRef)
        ensures
            r == self.tree_ref(repository_workspace),
    ;
}

impl IntoGitTreeRef for GitTreeRef {
    open spec fn tree_ref(self, repository_workspace: WorkspaceId) -> GitTreeRef {
        self
    }

    fn into_git_tree_ref(self, repository_workspace: WorkspaceId) -> (r: GitTreeRef) {
        self
    }
}

impl IntoGitTreeRef for GenerationId {
    open spec fn tree_ref(self, repository_workspace: WorkspaceId) -> GitTreeRef {
        GitTreeRef::Exact(
            (GitGenerationRef { workspace_id: repository_workspace, generation: self }),
        )
    }

    fn into_git_tree_ref(self, repository_workspace: WorkspaceId) -> (r: GitTreeRef) {
        GitTreeRef::exact(repository_workspace, self)
    }
}

/// Stable identity for one prepared compatibility filesystem transition.
#[derive(Clone, Copy, Debug, Eq, PartialOrd, Ord, Hash)]
pub struct GitTransitionId {
    /// Underlying operation identity.
    pub operation: OperationId,
}

impl PartialEq for GitTransitionId {
    fn eq(&self, other: &Self) -> (r: bool) {
        self.operation == other.operation
    }
}

impl vstd::std_specs::cmp::PartialEqSpecImpl for GitTransitionId {
    open spec fn obeys_eq_spec() -> bool {
        true
    }

    open spec fn eq_spec(&self, other: &Self) -> bool {
        *self == *other
    }
}

impl View for GitTransitionId {
    type V = GitTransitionId;

    open spec fn view(&self) -> GitTransitionId {
        *self
    }
}

impl Replicate for GitTransitionId {
    fn replicate(&self) -> (r: Self) {
        *self
    }
}

impl GitTransitionId {
    /// Names the transition of a fresh operation.
    pub fn new(operation: OperationId) -> (r: Self)
        ensures
            r.operation == operation,
    {
        GitTransitionId { operation }
    }

    /// Restores a transition identity from canonical bytes.
    pub fn from_bytes(bytes: [u8; 16]) -> (r: Self)
        ensures
            r.operation.bytes == bytes,
    {
        GitTransitionId { operation: OperationId::from_bytes(bytes) }
    }

    /// Returns canonical bytes.
    pub fn into_bytes(self) -> (r: [u8; 16])
        ensures
            r == self.operation.bytes,
    {
        self.operation.into_bytes()
    }

    /// Returns the underlying operation identity.
    pub fn operation_id(self) -> (r: OperationId)
        ensures
            r == self.operation,
    {
        self.operation
    }
}

/// One explicit commit mapped to a generation.
#[derive(Debug, PartialEq, Eq)]
pub struct GitCommit {
    /// Content-addressed compatibility identity.
    pub id: GitCommitId,
    /// Visible committed tree. Lazy trees retain unresolved source state.
    pub tree: GitTreeRef,
    /// Complete live working tree captured by the commit.
    pub workspace_tree: GitTreeRef,
    /// Exact portable paths represented by this snapshot.
    pub tracked_paths: OrderedSet<String>,
    /// Ordered compatibility parents.
    pub parents: Vec<GitCommitId>,
    /// Human or agent identity.
    pub author: String,
    /// Unix epoch timestamp in seconds.
    pub authored_at_seconds: i64,
    /// Commit message.
    pub message: String,
}

/// Abstract value of [`GitCommit`].
#[verifier::ext_equal]
pub struct CommitView {
    /// Content-addressed compatibility identity.
    pub id: GitCommitId,
    /// Visible committed tree. Lazy trees retain unresolved source state.
    pub tree: GitTreeRef,
    /// Complete live working tree captured by the commit.
    pub workspace_tree: GitTreeRef,
    /// Exact portable paths represented by this snapshot.
    pub tracked_paths: Set<Seq<char>>,
    /// Ordered compatibility parents.
    pub parents: Seq<GitCommitId>,
    /// Human or agent identity.
    pub author: Seq<char>,
    /// Unix epoch timestamp in seconds.
    pub authored_at_seconds: i64,
    /// Commit message.
    pub message: Seq<char>,
}

impl View for GitCommit {
    type V = CommitView;

    open spec fn view(&self) -> CommitView {
        CommitView {
            id: self.id,
            tree: self.tree,
            workspace_tree: self.workspace_tree,
            tracked_paths: self.tracked_paths@,
            parents: self.parents@,
            author: self.author@,
            authored_at_seconds: self.authored_at_seconds,
            message: self.message@,
        }
    }
}

impl Replicate for GitCommit {
    fn replicate(&self) -> (r: Self) {
        let r = GitCommit {
            id: self.id,
            tree: self.tree,
            workspace_tree: self.workspace_tree,
            tracked_paths: self.tracked_paths.replicate(),
            parents: copy_all(self.parents.as_slice()),
            author: self.author.clone(),
            authored_at_seconds: self.authored_at_seconds,
            message: self.message.clone(),
        };
        assert(r@ =~= self@);
        r
    }
}

impl Clone for GitCommit {
    fn clone(&self) -> (r: Self)
        ensures
            r@ == self@,
    {
        self.replicate()
    }
}

/// Compatibility branch backed by one workspace.
#[derive(Debug, PartialEq, Eq)]
pub struct GitBranch {
    /// Canonical branch name.
    pub name: String,
    /// Workspace owning the live working copy.
    pub workspace_id: WorkspaceId,
    /// Last explicit compatibility commit, or unborn.
    pub head: Option<GitCommitId>,
    /// Paths represented by this branch's latest explicit commit.
    pub tracked_paths: OrderedSet<String>,
}

/// Abstract value of [`GitBranch`].
#[verifier::ext_equal]
pub struct BranchView {
    /// Canonical branch name.
    pub name: Seq<char>,
    /// Workspace owning the live working copy.
    pub workspace_id: WorkspaceId,
    /// Last explicit compatibility commit, or unborn.
    pub head: Option<GitCommitId>,
    /// Paths represented by this branch's latest explicit commit.
    pub tracked_paths: Set<Seq<char>>,
}

impl View for GitBranch {
    type V = BranchView;

    open spec fn view(&self) -> BranchView {
        BranchView {
            name: self.name@,
            workspace_id: self.workspace_id,
            head: self.head,
            tracked_paths: self.tracked_paths@,
        }
    }
}

impl Replicate for GitBranch {
    fn replicate(&self) -> (r: Self) {
        let r = GitBranch {
            name: self.name.clone(),
            workspace_id: self.workspace_id,
            head: self.head,
            tracked_paths: self.tracked_paths.replicate(),
        };
        assert(r@ =~= self@);
        r
    }
}

impl Clone for GitBranch {
    fn clone(&self) -> (r: Self)
        ensures
            r@ == self@,
    {
        self.replicate()
    }
}

/// Durable first-parent bisection state.
#[derive(Debug, PartialEq, Eq)]
pub struct GitBisectState {
    /// Branch that was active before bisection began.
    pub original_branch: String,
    /// Commit restored by `bisect reset`.
    pub original_head: GitCommitId,
    /// Known good ancestor, when supplied.
    pub good: Option<GitCommitId>,
    /// Known bad descendant.
    pub bad: GitCommitId,
    /// Commit currently installed for testing.
    pub current: Option<GitCommitId>,
    /// Commits excluded by `bisect skip`.
    pub skipped: OrderedSet<GitCommitId>,
}

/// Abstract value of [`GitBisectState`].
#[verifier::ext_equal]
pub struct BisectView {
    /// Branch that was active before bisection began.
    pub original_branch: Seq<char>,
    /// Commit restored by `bisect reset`.
    pub original_head: GitCommitId,
    /// Known good ancestor, when supplied.
    pub good: Option<GitCommitId>,
    /// Known bad descendant.
    pub bad: GitCommitId,
    /// Commit currently installed for testing.
    pub current: Option<GitCommitId>,
    /// Commits excluded by `bisect skip`.
    pub skipped: Set<GitCommitId>,
}

impl View for GitBisectState {
    type V = BisectView;

    open spec fn view(&self) -> BisectView {
        BisectView {
            original_branch: self.original_branch@,
            original_head: self.original_head,
            good: self.good,
            bad: self.bad,
            current: self.current,
            skipped: self.skipped@,
        }
    }
}

impl Replicate for GitBisectState {
    fn replicate(&self) -> (r: Self) {
        let r = GitBisectState {
            original_branch: self.original_branch.clone(),
            original_head: self.original_head,
            good: self.good,
            bad: self.bad,
            current: self.current,
            skipped: self.skipped.replicate(),
        };
        assert(r@ =~= self@);
        r
    }
}

impl Clone for GitBisectState {
    fn clone(&self) -> (r: Self)
        ensures
            r@ == self@,
    {
        self.replicate()
    }
}

/// Stable machine-readable bisection result.
#[derive(Clone, Copy, Debug, PartialEq, Eq)]
pub struct GitBisectResult {
    /// Whether a session remains active.
    pub active: bool,
    /// Known good ancestor.
    pub good: Option<GitCommitId>,
    /// Known bad descendant.
    pub bad: Option<GitCommitId>,
    /// Commit installed for the caller to test.
    pub current: Option<GitCommitId>,
    /// Number of unclassified candidates remaining.
    pub remaining: u32,
    /// First bad commit once no candidates remain.
    pub first_bad: Option<GitCommitId>,
}

/// Revision or branch-like object name.
#[derive(Debug, PartialEq, Eq)]
pub struct GitObjectName(pub String);

impl View for GitObjectName {
    type V = Seq<char>;

    open spec fn view(&self) -> Seq<char> {
        self.0@
    }
}

impl Replicate for GitObjectName {
    fn replicate(&self) -> (r: Self) {
        GitObjectName(self.0.clone())
    }
}

impl Clone for GitObjectName {
    fn clone(&self) -> (r: Self)
        ensures
            r@ == self@,
    {
        self.replicate()
    }
}

/// Reset behavior supported by the compatibility layer.
#[derive(Clone, Copy, Debug, PartialEq, Eq, Structural)]
pub enum GitResetMode {
    /// Move compatibility HEAD without changing the workspace.
    Soft,
    /// Same as soft because there is no separate index.
    Mixed,
    /// Move HEAD and restore the workspace generation.
    Hard,
}

/// Whether a lazy working tree is known to differ from compatibility HEAD.
#[derive(Clone, Copy, Debug, PartialEq, Eq, Structural)]
pub enum GitDirtyState {
    /// Every represented path is known equal.
    Clean,
    /// At least one represented path is known different.
    Dirty,
    /// Unresolved source state prevents an exact answer without a scan.
    Unknown,
}

/// Parsed command.
#[allow(inconsistent_fields)]
#[derive(Debug, PartialEq, Eq)]
#[non_exhaustive]
pub enum GitCommand {
    /// Compare compatibility HEAD with the live workspace.
    Status,
    /// Diff HEAD-to-workspace; cached has identical semantics.
    Diff {
        /// Whether the caller used `--cached`; behavior is identical without an index.
        cached: bool,
    },
    /// Walk explicit compatibility history.
    Log {
        /// Maximum first-parent commits to return.
        maximum: u32,
    },
    /// Inspect one compatibility commit.
    Show {
        /// Object to show, defaulting to `HEAD`.
        object: Option<GitObjectName>,
    },
    /// Accepted no-op because changes are always staged.
    Add {
        /// Accepted pathspecs; staging remains automatic.
        paths: Vec<String>,
    },
    /// Capture the complete eligible workspace state.
    Commit {
        /// Commit message.
        message: String,
        /// Author identity.
        author: String,
        /// Signed Unix epoch time.
        authored_at_seconds: i64,
    },
    /// List or create a branch.
    Branch {
        /// Optional branch to create before listing.
        create: Option<String>,
    },
    /// Select a branch, optionally creating it first.
    Switch {
        /// Destination branch.
        branch: String,
        /// Whether to create a missing destination.
        create: bool,
    },
    /// Restore paths from an object.
    Restore {
        /// Source object, defaulting to `HEAD`.
        source: Option<GitObjectName>,
        /// Portable paths to restore.
        paths: Vec<String>,
    },
    /// Move HEAD and optionally the workspace.
    Reset {
        /// Commit-like target.
        target: GitObjectName,
        /// Workspace restoration policy.
        mode: GitResetMode,
    },
    /// Join another compatibility branch.
    Merge {
        /// Source branch.
        branch: String,
    },
    /// Continue the one durable conflicted merge after ordinary workspace edits.
    MergeContinue,
    /// Restore the pre-merge working tree and clear the durable merge intent.
    MergeAbort,
    /// Rebase onto another compatibility branch.
    Rebase {
        /// New base branch.
        branch: String,
    },
    /// Stash the complete working generation.
    StashPush,
    /// Restore and remove the newest stash.
    StashPop,
    /// Apply one commit as a cherry-pick.
    CherryPick {
        /// Commit to apply.
        object: GitObjectName,
    },
    /// Invert one explicit commit.
    Revert {
        /// Commit to invert.
        object: GitObjectName,
    },
    /// List, create, or delete a lightweight tag.
    Tag {
        /// Optional tag name; omission lists tags.
        name: Option<String>,
        /// Target object, defaulting to `HEAD`.
        target: Option<GitObjectName>,
        /// Whether to delete instead of create.
        delete: bool,
    },
    /// Attribute lines to compatibility commits.
    Blame {
        /// Portable path to attribute.
        path: String,
    },
    /// Search one live or historical tree.
    Grep {
        /// Search pattern interpreted by the executor.
        pattern: String,
        /// Optional subtree path.
        path: Option<String>,
    },
    /// Remove untracked, non-ignored paths.
    Clean {
        /// Whether to report candidates without mutation.
        dry_run: bool,
    },
    /// Export one compatibility tree.
    Archive {
        /// Object to archive, defaulting to the workspace.
        object: Option<GitObjectName>,
    },
    /// Apply a patch to the working workspace.
    Apply {
        /// Opaque patch bytes.
        patch: Vec<u8>,
    },
    /// Advance a caller-directed bisect session.
    Bisect {
        /// Bisect subcommand and arguments.
        arguments: Vec<String>,
    },
    /// Resolve one compatibility revision or a small read-only probe.
    RevParse {
        /// Probe or object name accepted by the compatibility subset.
        argument: String,
    },
    /// Print the symbolic compatibility HEAD.
    SymbolicRef {
        /// Whether to omit the `refs/heads/` prefix.
        short: bool,
    },
    /// Find the nearest common explicit compatibility commit.
    MergeBase {
        /// First commit-like object.
        left: GitObjectName,
        /// Second commit-like object.
        right: GitObjectName,
    },
    /// List paths tracked by explicit compatibility history.
    LsFiles,
    /// Test paths against the live compatibility ignore policy.
    CheckIgnore {
        /// Portable paths to test.
        paths: Vec<String>,
    },
}

/// Abstract value of [`GitCommand`].
#[allow(inconsistent_fields)]
#[verifier::ext_equal]
pub enum CommandView {
    /// Compare compatibility HEAD with the live workspace.
    Status,
    /// Diff HEAD-to-workspace; cached has identical semantics.
    Diff {
        /// Whether the caller used `--cached`; behavior is identical without an index.
        cached: bool,
    },
    /// Walk explicit compatibility history.
    Log {
        /// Maximum first-parent commits to return.
        maximum: u32,
    },
    /// Inspect one compatibility commit.
    Show {
        /// Object to show, defaulting to `HEAD`.
        object: Option<Seq<char>>,
    },
    /// Accepted no-op because changes are always staged.
    Add {
        /// Accepted pathspecs; staging remains automatic.
        paths: Seq<Seq<char>>,
    },
    /// Capture the complete eligible workspace state.
    Commit {
        /// Commit message.
        message: Seq<char>,
        /// Author identity.
        author: Seq<char>,
        /// Signed Unix epoch time.
        authored_at_seconds: i64,
    },
    /// List or create a branch.
    Branch {
        /// Optional branch to create before listing.
        create: Option<Seq<char>>,
    },
    /// Select a branch, optionally creating it first.
    Switch {
        /// Destination branch.
        branch: Seq<char>,
        /// Whether to create a missing destination.
        create: bool,
    },
    /// Restore paths from an object.
    Restore {
        /// Source object, defaulting to `HEAD`.
        source: Option<Seq<char>>,
        /// Portable paths to restore.
        paths: Seq<Seq<char>>,
    },
    /// Move HEAD and optionally the workspace.
    Reset {
        /// Commit-like target.
        target: Seq<char>,
        /// Workspace restoration policy.
        mode: GitResetMode,
    },
    /// Join another compatibility branch.
    Merge {
        /// Source branch.
        branch: Seq<char>,
    },
    /// Continue the one durable conflicted merge after ordinary workspace edits.
    MergeContinue,
    /// Restore the pre-merge working tree and clear the durable merge intent.
    MergeAbort,
    /// Rebase onto another compatibility branch.
    Rebase {
        /// New base branch.
        branch: Seq<char>,
    },
    /// Stash the complete working generation.
    StashPush,
    /// Restore and remove the newest stash.
    StashPop,
    /// Apply one commit as a cherry-pick.
    CherryPick {
        /// Commit to apply.
        object: Seq<char>,
    },
    /// Invert one explicit commit.
    Revert {
        /// Commit to invert.
        object: Seq<char>,
    },
    /// List, create, or delete a lightweight tag.
    Tag {
        /// Optional tag name; omission lists tags.
        name: Option<Seq<char>>,
        /// Target object, defaulting to `HEAD`.
        target: Option<Seq<char>>,
        /// Whether to delete instead of create.
        delete: bool,
    },
    /// Attribute lines to compatibility commits.
    Blame {
        /// Portable path to attribute.
        path: Seq<char>,
    },
    /// Search one live or historical tree.
    Grep {
        /// Search pattern interpreted by the executor.
        pattern: Seq<char>,
        /// Optional subtree path.
        path: Option<Seq<char>>,
    },
    /// Remove untracked, non-ignored paths.
    Clean {
        /// Whether to report candidates without mutation.
        dry_run: bool,
    },
    /// Export one compatibility tree.
    Archive {
        /// Object to archive, defaulting to the workspace.
        object: Option<Seq<char>>,
    },
    /// Apply a patch to the working workspace.
    Apply {
        /// Opaque patch bytes.
        patch: Seq<u8>,
    },
    /// Advance a caller-directed bisect session.
    Bisect {
        /// Bisect subcommand and arguments.
        arguments: Seq<Seq<char>>,
    },
    /// Resolve one compatibility revision or a small read-only probe.
    RevParse {
        /// Probe or object name accepted by the compatibility subset.
        argument: Seq<char>,
    },
    /// Print the symbolic compatibility HEAD.
    SymbolicRef {
        /// Whether to omit the `refs/heads/` prefix.
        short: bool,
    },
    /// Find the nearest common explicit compatibility commit.
    MergeBase {
        /// First commit-like object.
        left: Seq<char>,
        /// Second commit-like object.
        right: Seq<char>,
    },
    /// List paths tracked by explicit compatibility history.
    LsFiles,
    /// Test paths against the live compatibility ignore policy.
    CheckIgnore {
        /// Portable paths to test.
        paths: Seq<Seq<char>>,
    },
}

impl View for GitCommand {
    type V = CommandView;

    open spec fn view(&self) -> CommandView {
        match self {
            GitCommand::Status => CommandView::Status,
            GitCommand::Diff { cached } => CommandView::Diff {
                cached: *cached,
            },
            GitCommand::Log { maximum } => CommandView::Log {
                maximum: *maximum,
            },
            GitCommand::Show { object } => CommandView::Show {
                object: (match object { Some(inner) => Some(inner@), None => None }),
            },
            GitCommand::Add { paths } => CommandView::Add {
                paths: views(paths@),
            },
            GitCommand::Commit { message, author, authored_at_seconds } => CommandView::Commit {
                message: message@,
                author: author@,
                authored_at_seconds: *authored_at_seconds,
            },
            GitCommand::Branch { create } => CommandView::Branch {
                create: (match create { Some(inner) => Some(inner@), None => None }),
            },
            GitCommand::Switch { branch, create } => CommandView::Switch {
                branch: branch@,
                create: *create,
            },
            GitCommand::Restore { source, paths } => CommandView::Restore {
                source: (match source { Some(inner) => Some(inner@), None => None }),
                paths: views(paths@),
            },
            GitCommand::Reset { target, mode } => CommandView::Reset {
                target: target@,
                mode: *mode,
            },
            GitCommand::Merge { branch } => CommandView::Merge {
                branch: branch@,
            },
            GitCommand::MergeContinue => CommandView::MergeContinue,
            GitCommand::MergeAbort => CommandView::MergeAbort,
            GitCommand::Rebase { branch } => CommandView::Rebase {
                branch: branch@,
            },
            GitCommand::StashPush => CommandView::StashPush,
            GitCommand::StashPop => CommandView::StashPop,
            GitCommand::CherryPick { object } => CommandView::CherryPick {
                object: object@,
            },
            GitCommand::Revert { object } => CommandView::Revert {
                object: object@,
            },
            GitCommand::Tag { name, target, delete } => CommandView::Tag {
                name: (match name { Some(inner) => Some(inner@), None => None }),
                target: (match target { Some(inner) => Some(inner@), None => None }),
                delete: *delete,
            },
            GitCommand::Blame { path } => CommandView::Blame {
                path: path@,
            },
            GitCommand::Grep { pattern, path } => CommandView::Grep {
                pattern: pattern@,
                path: (match path { Some(inner) => Some(inner@), None => None }),
            },
            GitCommand::Clean { dry_run } => CommandView::Clean {
                dry_run: *dry_run,
            },
            GitCommand::Archive { object } => CommandView::Archive {
                object: (match object { Some(inner) => Some(inner@), None => None }),
            },
            GitCommand::Apply { patch } => CommandView::Apply {
                patch: patch@,
            },
            GitCommand::Bisect { arguments } => CommandView::Bisect {
                arguments: views(arguments@),
            },
            GitCommand::RevParse { argument } => CommandView::RevParse {
                argument: argument@,
            },
            GitCommand::SymbolicRef { short } => CommandView::SymbolicRef {
                short: *short,
            },
            GitCommand::MergeBase { left, right } => CommandView::MergeBase {
                left: left@,
                right: right@,
            },
            GitCommand::LsFiles => CommandView::LsFiles,
            GitCommand::CheckIgnore { paths } => CommandView::CheckIgnore {
                paths: views(paths@),
            },
        }
    }
}

impl Replicate for GitCommand {
    fn replicate(&self) -> (r: Self) {
        let r = match self {
            GitCommand::Status => GitCommand::Status,
            GitCommand::Diff { cached } => GitCommand::Diff {
                cached: *cached,
            },
            GitCommand::Log { maximum } => GitCommand::Log {
                maximum: *maximum,
            },
            GitCommand::Show { object } => GitCommand::Show {
                object: match object { Some(inner) => Some(inner.replicate()), None => None },
            },
            GitCommand::Add { paths } => GitCommand::Add {
                paths: replicate_all(paths),
            },
            GitCommand::Commit { message, author, authored_at_seconds } => GitCommand::Commit {
                message: message.clone(),
                author: author.clone(),
                authored_at_seconds: *authored_at_seconds,
            },
            GitCommand::Branch { create } => GitCommand::Branch {
                create: match create { Some(inner) => Some(inner.clone()), None => None },
            },
            GitCommand::Switch { branch, create } => GitCommand::Switch {
                branch: branch.clone(),
                create: *create,
            },
            GitCommand::Restore { source, paths } => GitCommand::Restore {
                source: match source { Some(inner) => Some(inner.replicate()), None => None },
                paths: replicate_all(paths),
            },
            GitCommand::Reset { target, mode } => GitCommand::Reset {
                target: target.replicate(),
                mode: *mode,
            },
            GitCommand::Merge { branch } => GitCommand::Merge {
                branch: branch.clone(),
            },
            GitCommand::MergeContinue => GitCommand::MergeContinue,
            GitCommand::MergeAbort => GitCommand::MergeAbort,
            GitCommand::Rebase { branch } => GitCommand::Rebase {
                branch: branch.clone(),
            },
            GitCommand::StashPush => GitCommand::StashPush,
            GitCommand::StashPop => GitCommand::StashPop,
            GitCommand::CherryPick { object } => GitCommand::CherryPick {
                object: object.replicate(),
            },
            GitCommand::Revert { object } => GitCommand::Revert {
                object: object.replicate(),
            },
            GitCommand::Tag { name, target, delete } => GitCommand::Tag {
                name: match name { Some(inner) => Some(inner.clone()), None => None },
                target: match target { Some(inner) => Some(inner.replicate()), None => None },
                delete: *delete,
            },
            GitCommand::Blame { path } => GitCommand::Blame {
                path: path.clone(),
            },
            GitCommand::Grep { pattern, path } => GitCommand::Grep {
                pattern: pattern.clone(),
                path: match path { Some(inner) => Some(inner.clone()), None => None },
            },
            GitCommand::Clean { dry_run } => GitCommand::Clean {
                dry_run: *dry_run,
            },
            GitCommand::Archive { object } => GitCommand::Archive {
                object: match object { Some(inner) => Some(inner.replicate()), None => None },
            },
            GitCommand::Apply { patch } => GitCommand::Apply {
                patch: vstd::slice::slice_to_vec(patch.as_slice()),
            },
            GitCommand::Bisect { arguments } => GitCommand::Bisect {
                arguments: replicate_all(arguments),
            },
            GitCommand::RevParse { argument } => GitCommand::RevParse {
                argument: argument.clone(),
            },
            GitCommand::SymbolicRef { short } => GitCommand::SymbolicRef {
                short: *short,
            },
            GitCommand::MergeBase { left, right } => GitCommand::MergeBase {
                left: left.replicate(),
                right: right.replicate(),
            },
            GitCommand::LsFiles => GitCommand::LsFiles,
            GitCommand::CheckIgnore { paths } => GitCommand::CheckIgnore {
                paths: replicate_all(paths),
            },
        };
        assert(r@ =~= self@);
        r
    }
}

impl Clone for GitCommand {
    fn clone(&self) -> (r: Self)
        ensures
            r@ == self@,
    {
        self.replicate()
    }
}

/// Filesystem work emitted by the compatibility state machine.
#[allow(inconsistent_fields)]
#[derive(Debug, PartialEq, Eq)]
pub enum GitFilesystemAction {
    /// Capture a compatibility-eligible generation before recording a commit.
    CaptureCommit {
        /// Complete live workspace tree.
        workspace_tree: GitTreeRef,
        /// Previous filtered compatibility tree, if HEAD exists.
        head_tree: Option<GitTreeRef>,
        /// Previous complete live tree, if recorded by HEAD.
        head_workspace_tree: Option<GitTreeRef>,
        /// Paths already tracked and therefore eligible even if newly ignored.
        tracked_paths: OrderedSet<String>,
        /// Commit message retained until capture completes.
        message: String,
        /// Author retained until capture completes.
        author: String,
        /// Signed Unix epoch timestamp retained until capture completes.
        authored_at_seconds: i64,
        /// Exact HEAD that must still be current at completion.
        expected_head: Option<GitCommitId>,
    },
    /// Fork a dedicated workspace for a compatibility branch.
    ForkBranch {
        /// New branch name.
        branch: String,
        /// Tree from which to fork the branch workspace.
        source_tree: GitTreeRef,
        /// Compatibility head inherited by the new branch.
        head: Option<GitCommitId>,
        /// Whether the new branch should become current after registration.
        switch: bool,
    },
    /// Select an existing branch's live workspace.
    SwitchWorkspace {
        /// Workspace that owns the destination branch's working copy.
        workspace_id: WorkspaceId,
    },
    /// Compute a semantic diff between exact generations.
    Diff {
        /// Explicit compatibility HEAD, or no baseline for an unborn branch.
        from: Option<GitTreeRef>,
        /// Live workspace generation.
        to: GitTreeRef,
    },
    /// Move the live workspace to an exact generation.
    RestoreGeneration {
        /// Tree to install.
        tree: GitTreeRef,
        /// Paths taking part in a history restore; `None` restores exactly.
        paths: Option<OrderedSet<String>>,
    },
    /// Restore selected paths from an exact generation.
    RestorePaths {
        /// Source tree.
        tree: GitTreeRef,
        /// Portable paths to replace.
        paths: Vec<String>,
    },
    /// Join a source workspace into the current workspace.
    Join {
        /// Exact target working tree captured before the join began.
        target_tree: GitTreeRef,
        /// Workspace owning the source branch.
        source_workspace: WorkspaceId,
        /// Whether to record rebase rather than merge ancestry.
        rebase: bool,
        /// Complete set of paths that may remain tracked after the join.
        tracked_paths: OrderedSet<String>,
    },
    /// Apply one commit relative to its first parent.
    ApplyCommit {
        /// Explicit compatibility commit.
        commit: GitCommitId,
        /// Whether to apply its inverse.
        reverse: bool,
        /// Exact earlier tree, or the empty compatibility tree.
        base: Option<GitTreeRef>,
        /// Exact later tree, or the empty compatibility tree.
        source: Option<GitTreeRef>,
        /// Complete portable path set participating in the delta.
        paths: OrderedSet<String>,
        /// Complete set of paths that may remain tracked after application.
        tracked_paths: OrderedSet<String>,
    },
    /// Attribute a path across explicit commit history.
    Blame {
        /// Portable path to attribute.
        path: String,
        /// Newest-first explicit history to inspect.
        commits: Vec<GitCommit>,
    },
    /// Search the live tree.
    Grep {
        /// Search pattern.
        pattern: String,
        /// Optional subtree path.
        path: Option<String>,
        /// Exact live tree to search.
        tree: GitTreeRef,
    },
    /// Discover and optionally remove untracked paths.
    Clean {
        /// Whether mutation is disabled.
        dry_run: bool,
        /// Exact live tree to inspect before any deletion.
        tree: GitTreeRef,
        /// Paths protected as tracked by the current branch.
        tracked_paths: OrderedSet<String>,
    },
    /// Export one exact generation.
    Archive {
        /// Tree to export.
        tree: GitTreeRef,
    },
    /// Parse and apply a patch.
    ApplyPatch {
        /// Opaque patch bytes.
        patch: Vec<u8>,
    },
    /// Test paths against the ignore policy in one exact live tree.
    CheckIgnore {
        /// Paths to test without shell expansion.
        paths: Vec<String>,
        /// Exact live tree containing `.gitignore` files.
        tree: GitTreeRef,
    },
}

/// Abstract value of [`GitFilesystemAction`].
#[allow(inconsistent_fields)]
#[verifier::ext_equal]
pub enum ActionView {
    /// Capture a compatibility-eligible generation before recording a commit.
    CaptureCommit {
        /// Complete live workspace tree.
        workspace_tree: GitTreeRef,
        /// Previous filtered compatibility tree, if HEAD exists.
        head_tree: Option<GitTreeRef>,
        /// Previous complete live tree, if recorded by HEAD.
        head_workspace_tree: Option<GitTreeRef>,
        /// Paths already tracked and therefore eligible even if newly ignored.
        tracked_paths: Set<Seq<char>>,
        /// Commit message retained until capture completes.
        message: Seq<char>,
        /// Author retained until capture completes.
        author: Seq<char>,
        /// Signed Unix epoch timestamp retained until capture completes.
        authored_at_seconds: i64,
        /// Exact HEAD that must still be current at completion.
        expected_head: Option<GitCommitId>,
    },
    /// Fork a dedicated workspace for a compatibility branch.
    ForkBranch {
        /// New branch name.
        branch: Seq<char>,
        /// Tree from which to fork the branch workspace.
        source_tree: GitTreeRef,
        /// Compatibility head inherited by the new branch.
        head: Option<GitCommitId>,
        /// Whether the new branch should become current after registration.
        switch: bool,
    },
    /// Select an existing branch's live workspace.
    SwitchWorkspace {
        /// Workspace that owns the destination branch's working copy.
        workspace_id: WorkspaceId,
    },
    /// Compute a semantic diff between exact generations.
    Diff {
        /// Explicit compatibility HEAD, or no baseline for an unborn branch.
        from: Option<GitTreeRef>,
        /// Live workspace generation.
        to: GitTreeRef,
    },
    /// Move the live workspace to an exact generation.
    RestoreGeneration {
        /// Tree to install.
        tree: GitTreeRef,
        /// Paths taking part in a history restore; `None` restores exactly.
        paths: Option<Set<Seq<char>>>,
    },
    /// Restore selected paths from an exact generation.
    RestorePaths {
        /// Source tree.
        tree: GitTreeRef,
        /// Portable paths to replace.
        paths: Seq<Seq<char>>,
    },
    /// Join a source workspace into the current workspace.
    Join {
        /// Exact target working tree captured before the join began.
        target_tree: GitTreeRef,
        /// Workspace owning the source branch.
        source_workspace: WorkspaceId,
        /// Whether to record rebase rather than merge ancestry.
        rebase: bool,
        /// Complete set of paths that may remain tracked after the join.
        tracked_paths: Set<Seq<char>>,
    },
    /// Apply one commit relative to its first parent.
    ApplyCommit {
        /// Explicit compatibility commit.
        commit: GitCommitId,
        /// Whether to apply its inverse.
        reverse: bool,
        /// Exact earlier tree, or the empty compatibility tree.
        base: Option<GitTreeRef>,
        /// Exact later tree, or the empty compatibility tree.
        source: Option<GitTreeRef>,
        /// Complete portable path set participating in the delta.
        paths: Set<Seq<char>>,
        /// Complete set of paths that may remain tracked after application.
        tracked_paths: Set<Seq<char>>,
    },
    /// Attribute a path across explicit commit history.
    Blame {
        /// Portable path to attribute.
        path: Seq<char>,
        /// Newest-first explicit history to inspect.
        commits: Seq<CommitView>,
    },
    /// Search the live tree.
    Grep {
        /// Search pattern.
        pattern: Seq<char>,
        /// Optional subtree path.
        path: Option<Seq<char>>,
        /// Exact live tree to search.
        tree: GitTreeRef,
    },
    /// Discover and optionally remove untracked paths.
    Clean {
        /// Whether mutation is disabled.
        dry_run: bool,
        /// Exact live tree to inspect before any deletion.
        tree: GitTreeRef,
        /// Paths protected as tracked by the current branch.
        tracked_paths: Set<Seq<char>>,
    },
    /// Export one exact generation.
    Archive {
        /// Tree to export.
        tree: GitTreeRef,
    },
    /// Parse and apply a patch.
    ApplyPatch {
        /// Opaque patch bytes.
        patch: Seq<u8>,
    },
    /// Test paths against the ignore policy in one exact live tree.
    CheckIgnore {
        /// Paths to test without shell expansion.
        paths: Seq<Seq<char>>,
        /// Exact live tree containing `.gitignore` files.
        tree: GitTreeRef,
    },
}

impl View for GitFilesystemAction {
    type V = ActionView;

    open spec fn view(&self) -> ActionView {
        match self {
            GitFilesystemAction::CaptureCommit { workspace_tree, head_tree, head_workspace_tree, tracked_paths, message, author, authored_at_seconds, expected_head } => ActionView::CaptureCommit {
                workspace_tree: *workspace_tree,
                head_tree: *head_tree,
                head_workspace_tree: *head_workspace_tree,
                tracked_paths: tracked_paths@,
                message: message@,
                author: author@,
                authored_at_seconds: *authored_at_seconds,
                expected_head: *expected_head,
            },
            GitFilesystemAction::ForkBranch { branch, source_tree, head, switch } => ActionView::ForkBranch {
                branch: branch@,
                source_tree: *source_tree,
                head: *head,
                switch: *switch,
            },
            GitFilesystemAction::SwitchWorkspace { workspace_id } => ActionView::SwitchWorkspace {
                workspace_id: *workspace_id,
            },
            GitFilesystemAction::Diff { from, to } => ActionView::Diff {
                from: *from,
                to: *to,
            },
            GitFilesystemAction::RestoreGeneration { tree, paths } => ActionView::RestoreGeneration {
                tree: *tree,
                paths: (match paths { Some(inner) => Some(inner@), None => None }),
            },
            GitFilesystemAction::RestorePaths { tree, paths } => ActionView::RestorePaths {
                tree: *tree,
                paths: views(paths@),
            },
            GitFilesystemAction::Join { target_tree, source_workspace, rebase, tracked_paths } => ActionView::Join {
                target_tree: *target_tree,
                source_workspace: *source_workspace,
                rebase: *rebase,
                tracked_paths: tracked_paths@,
            },
            GitFilesystemAction::ApplyCommit { commit, reverse, base, source, paths, tracked_paths } => ActionView::ApplyCommit {
                commit: *commit,
                reverse: *reverse,
                base: *base,
                source: *source,
                paths: paths@,
                tracked_paths: tracked_paths@,
            },
            GitFilesystemAction::Blame { path, commits } => ActionView::Blame {
                path: path@,
                commits: views(commits@),
            },
            GitFilesystemAction::Grep { pattern, path, tree } => ActionView::Grep {
                pattern: pattern@,
                path: (match path { Some(inner) => Some(inner@), None => None }),
                tree: *tree,
            },
            GitFilesystemAction::Clean { dry_run, tree, tracked_paths } => ActionView::Clean {
                dry_run: *dry_run,
                tree: *tree,
                tracked_paths: tracked_paths@,
            },
            GitFilesystemAction::Archive { tree } => ActionView::Archive {
                tree: *tree,
            },
            GitFilesystemAction::ApplyPatch { patch } => ActionView::ApplyPatch {
                patch: patch@,
            },
            GitFilesystemAction::CheckIgnore { paths, tree } => ActionView::CheckIgnore {
                paths: views(paths@),
                tree: *tree,
            },
        }
    }
}

impl Replicate for GitFilesystemAction {
    fn replicate(&self) -> (r: Self) {
        let r = match self {
            GitFilesystemAction::CaptureCommit { workspace_tree, head_tree, head_workspace_tree, tracked_paths, message, author, authored_at_seconds, expected_head } => GitFilesystemAction::CaptureCommit {
                workspace_tree: *workspace_tree,
                head_tree: *head_tree,
                head_workspace_tree: *head_workspace_tree,
                tracked_paths: tracked_paths.replicate(),
                message: message.clone(),
                author: author.clone(),
                authored_at_seconds: *authored_at_seconds,
                expected_head: *expected_head,
            },
            GitFilesystemAction::ForkBranch { branch, source_tree, head, switch } => GitFilesystemAction::ForkBranch {
                branch: branch.clone(),
                source_tree: *source_tree,
                head: *head,
                switch: *switch,
            },
            GitFilesystemAction::SwitchWorkspace { workspace_id } => GitFilesystemAction::SwitchWorkspace {
                workspace_id: *workspace_id,
            },
            GitFilesystemAction::Diff { from, to } => GitFilesystemAction::Diff {
                from: *from,
                to: *to,
            },
            GitFilesystemAction::RestoreGeneration { tree, paths } => GitFilesystemAction::RestoreGeneration {
                tree: *tree,
                paths: match paths { Some(inner) => Some(inner.replicate()), None => None },
            },
            GitFilesystemAction::RestorePaths { tree, paths } => GitFilesystemAction::RestorePaths {
                tree: *tree,
                paths: replicate_all(paths),
            },
            GitFilesystemAction::Join { target_tree, source_workspace, rebase, tracked_paths } => GitFilesystemAction::Join {
                target_tree: *target_tree,
                source_workspace: *source_workspace,
                rebase: *rebase,
                tracked_paths: tracked_paths.replicate(),
            },
            GitFilesystemAction::ApplyCommit { commit, reverse, base, source, paths, tracked_paths } => GitFilesystemAction::ApplyCommit {
                commit: *commit,
                reverse: *reverse,
                base: *base,
                source: *source,
                paths: paths.replicate(),
                tracked_paths: tracked_paths.replicate(),
            },
            GitFilesystemAction::Blame { path, commits } => GitFilesystemAction::Blame {
                path: path.clone(),
                commits: replicate_all(commits),
            },
            GitFilesystemAction::Grep { pattern, path, tree } => GitFilesystemAction::Grep {
                pattern: pattern.clone(),
                path: match path { Some(inner) => Some(inner.clone()), None => None },
                tree: *tree,
            },
            GitFilesystemAction::Clean { dry_run, tree, tracked_paths } => GitFilesystemAction::Clean {
                dry_run: *dry_run,
                tree: *tree,
                tracked_paths: tracked_paths.replicate(),
            },
            GitFilesystemAction::Archive { tree } => GitFilesystemAction::Archive {
                tree: *tree,
            },
            GitFilesystemAction::ApplyPatch { patch } => GitFilesystemAction::ApplyPatch {
                patch: vstd::slice::slice_to_vec(patch.as_slice()),
            },
            GitFilesystemAction::CheckIgnore { paths, tree } => GitFilesystemAction::CheckIgnore {
                paths: replicate_all(paths),
                tree: *tree,
            },
        };
        assert(r@ =~= self@);
        r
    }
}

impl Clone for GitFilesystemAction {
    fn clone(&self) -> (r: Self)
        ensures
            r@ == self@,
    {
        self.replicate()
    }
}

/// State mutation committed only after its filesystem action succeeds.
#[allow(inconsistent_fields)]
#[derive(Debug, PartialEq, Eq)]
pub enum GitPendingMutation {
    /// Clear the durable action intent without changing compatibility state.
    NoOp,
    /// Record a commit only after its filtered filesystem snapshot is durable.
    CaptureCommit {
        /// Complete live tree that was captured.
        workspace_tree: GitTreeRef,
        /// Commit message retained across executor recovery.
        message: String,
        /// Commit author retained across executor recovery.
        author: String,
        /// Signed Unix epoch timestamp retained across executor recovery.
        authored_at_seconds: i64,
        /// Exact compatibility head that must still be current.
        expected_head: Option<GitCommitId>,
    },
    /// Register a compatibility branch only after its workspace exists.
    ForkBranch {
        /// New branch name.
        branch: String,
        /// Compatibility head inherited by the branch.
        head: Option<GitCommitId>,
        /// Whether the new branch becomes current.
        switch: bool,
    },
    /// Select a branch after its generation is installed.
    Switch {
        /// Branch selected after restoration.
        branch: String,
    },
    /// Move the current branch head after a hard restore.
    Reset {
        /// Commit installed after restoration.
        head: GitCommitId,
    },
    /// Record the dirty generation after restoring compatibility HEAD.
    StashPush {
        /// Dirty tree retained by the stash.
        tree: GitTreeRef,
    },
    /// Remove the exact top stash after it is restored.
    StashPop {
        /// Exact top stash restored before removal.
        tree: GitTreeRef,
    },
    /// Record a merge or rebase result generation.
    Join {
        /// Source compatibility head captured while preparing.
        source_head: Option<GitCommitId>,
        /// Source branch used in the generated commit message.
        source_branch: String,
        /// Whether resulting ancestry is rebased rather than merged.
        rebase: bool,
    },
    /// Record a cherry-pick or revert result generation.
    ApplyCommit {
        /// Commit whose delta is applied.
        commit: GitCommitId,
        /// Whether the delta is inverted.
        reverse: bool,
    },
    /// Install one bisection checkout and then publish its durable session state.
    Bisect {
        /// Replacement session, or `None` when resetting.
        state: Option<GitBisectState>,
        /// Machine-readable result returned after the checkout succeeds.
        result: GitBisectResult,
    },
}

/// Abstract value of [`GitPendingMutation`].
#[allow(inconsistent_fields)]
#[verifier::ext_equal]
pub enum MutationView {
    /// Clear the durable action intent without changing compatibility state.
    NoOp,
    /// Record a commit only after its filtered filesystem snapshot is durable.
    CaptureCommit {
        /// Complete live tree that was captured.
        workspace_tree: GitTreeRef,
        /// Commit message retained across executor recovery.
        message: Seq<char>,
        /// Commit author retained across executor recovery.
        author: Seq<char>,
        /// Signed Unix epoch timestamp retained across executor recovery.
        authored_at_seconds: i64,
        /// Exact compatibility head that must still be current.
        expected_head: Option<GitCommitId>,
    },
    /// Register a compatibility branch only after its workspace exists.
    ForkBranch {
        /// New branch name.
        branch: Seq<char>,
        /// Compatibility head inherited by the branch.
        head: Option<GitCommitId>,
        /// Whether the new branch becomes current.
        switch: bool,
    },
    /// Select a branch after its generation is installed.
    Switch {
        /// Branch selected after restoration.
        branch: Seq<char>,
    },
    /// Move the current branch head after a hard restore.
    Reset {
        /// Commit installed after restoration.
        head: GitCommitId,
    },
    /// Record the dirty generation after restoring compatibility HEAD.
    StashPush {
        /// Dirty tree retained by the stash.
        tree: GitTreeRef,
    },
    /// Remove the exact top stash after it is restored.
    StashPop {
        /// Exact top stash restored before removal.
        tree: GitTreeRef,
    },
    /// Record a merge or rebase result generation.
    Join {
        /// Source compatibility head captured while preparing.
        source_head: Option<GitCommitId>,
        /// Source branch used in the generated commit message.
        source_branch: Seq<char>,
        /// Whether resulting ancestry is rebased rather than merged.
        rebase: bool,
    },
    /// Record a cherry-pick or revert result generation.
    ApplyCommit {
        /// Commit whose delta is applied.
        commit: GitCommitId,
        /// Whether the delta is inverted.
        reverse: bool,
    },
    /// Install one bisection checkout and then publish its durable session state.
    Bisect {
        /// Replacement session, or `None` when resetting.
        state: Option<BisectView>,
        /// Machine-readable result returned after the checkout succeeds.
        result: GitBisectResult,
    },
}

impl View for GitPendingMutation {
    type V = MutationView;

    open spec fn view(&self) -> MutationView {
        match self {
            GitPendingMutation::NoOp => MutationView::NoOp,
            GitPendingMutation::CaptureCommit { workspace_tree, message, author, authored_at_seconds, expected_head } => MutationView::CaptureCommit {
                workspace_tree: *workspace_tree,
                message: message@,
                author: author@,
                authored_at_seconds: *authored_at_seconds,
                expected_head: *expected_head,
            },
            GitPendingMutation::ForkBranch { branch, head, switch } => MutationView::ForkBranch {
                branch: branch@,
                head: *head,
                switch: *switch,
            },
            GitPendingMutation::Switch { branch } => MutationView::Switch {
                branch: branch@,
            },
            GitPendingMutation::Reset { head } => MutationView::Reset {
                head: *head,
            },
            GitPendingMutation::StashPush { tree } => MutationView::StashPush {
                tree: *tree,
            },
            GitPendingMutation::StashPop { tree } => MutationView::StashPop {
                tree: *tree,
            },
            GitPendingMutation::Join { source_head, source_branch, rebase } => MutationView::Join {
                source_head: *source_head,
                source_branch: source_branch@,
                rebase: *rebase,
            },
            GitPendingMutation::ApplyCommit { commit, reverse } => MutationView::ApplyCommit {
                commit: *commit,
                reverse: *reverse,
            },
            GitPendingMutation::Bisect { state, result } => MutationView::Bisect {
                state: (match state { Some(inner) => Some(inner@), None => None }),
                result: *result,
            },
        }
    }
}

impl Replicate for GitPendingMutation {
    fn replicate(&self) -> (r: Self) {
        let r = match self {
            GitPendingMutation::NoOp => GitPendingMutation::NoOp,
            GitPendingMutation::CaptureCommit { workspace_tree, message, author, authored_at_seconds, expected_head } => GitPendingMutation::CaptureCommit {
                workspace_tree: *workspace_tree,
                message: message.clone(),
                author: author.clone(),
                authored_at_seconds: *authored_at_seconds,
                expected_head: *expected_head,
            },
            GitPendingMutation::ForkBranch { branch, head, switch } => GitPendingMutation::ForkBranch {
                branch: branch.clone(),
                head: *head,
                switch: *switch,
            },
            GitPendingMutation::Switch { branch } => GitPendingMutation::Switch {
                branch: branch.clone(),
            },
            GitPendingMutation::Reset { head } => GitPendingMutation::Reset {
                head: *head,
            },
            GitPendingMutation::StashPush { tree } => GitPendingMutation::StashPush {
                tree: *tree,
            },
            GitPendingMutation::StashPop { tree } => GitPendingMutation::StashPop {
                tree: *tree,
            },
            GitPendingMutation::Join { source_head, source_branch, rebase } => GitPendingMutation::Join {
                source_head: *source_head,
                source_branch: source_branch.clone(),
                rebase: *rebase,
            },
            GitPendingMutation::ApplyCommit { commit, reverse } => GitPendingMutation::ApplyCommit {
                commit: *commit,
                reverse: *reverse,
            },
            GitPendingMutation::Bisect { state, result } => GitPendingMutation::Bisect {
                state: match state { Some(inner) => Some(inner.replicate()), None => None },
                result: *result,
            },
        };
        assert(r@ =~= self@);
        r
    }
}

impl Clone for GitPendingMutation {
    fn clone(&self) -> (r: Self)
        ensures
            r@ == self@,
    {
        self.replicate()
    }
}

/// Durable prepared action and its deferred compatibility-state mutation.
#[derive(Debug, PartialEq, Eq)]
pub struct GitPendingTransition {
    /// Stable retry identity.
    pub id: GitTransitionId,
    /// Filesystem action to execute idempotently.
    pub action: GitFilesystemAction,
    /// Mutation finalized only after successful action execution.
    pub mutation: GitPendingMutation,
}

/// Abstract value of [`GitPendingTransition`].
#[verifier::ext_equal]
pub struct PendingView {
    /// Stable retry identity.
    pub id: GitTransitionId,
    /// Filesystem action to execute idempotently.
    pub action: ActionView,
    /// Mutation finalized only after successful action execution.
    pub mutation: MutationView,
}

impl View for GitPendingTransition {
    type V = PendingView;

    open spec fn view(&self) -> PendingView {
        PendingView {
            id: self.id,
            action: self.action@,
            mutation: self.mutation@,
        }
    }
}

impl Replicate for GitPendingTransition {
    fn replicate(&self) -> (r: Self) {
        let r = GitPendingTransition {
            id: self.id,
            action: self.action.replicate(),
            mutation: self.mutation.replicate(),
        };
        assert(r@ =~= self@);
        r
    }
}

impl Clone for GitPendingTransition {
    fn clone(&self) -> (r: Self)
        ensures
            r@ == self@,
    {
        self.replicate()
    }
}

/// Typed result returned by a compatibility filesystem executor.
#[allow(inconsistent_fields)]
#[derive(Debug, PartialEq, Eq)]
#[non_exhaustive]
pub enum GitFilesystemResult {
    /// An eligible compatibility snapshot was captured.
    Captured {
        /// Filtered compatibility tree.
        tree: GitTreeRef,
        /// Paths represented by the captured compatibility history.
        tracked_paths: OrderedSet<String>,
    },
    /// A dedicated compatibility branch workspace was created.
    Forked {
        /// Stable workspace identity.
        workspace_id: WorkspaceId,
    },
    /// A mutating action completed, optionally producing a new generation.
    Applied {
        /// Resulting tree when the action changes workspace state.
        tree: Option<GitTreeRef>,
        /// Exact resulting tracked paths for generated compatibility commits.
        tracked_paths: Option<OrderedSet<String>>,
    },
    /// Stable executor-defined inspection data.
    Data {
        /// Result category such as `diff`, `grep`, or `archive`.
        kind: String,
        /// Versioned machine-readable result body, as JSON text.
        value: String,
    },
}

/// Abstract value of [`GitFilesystemResult`].
#[allow(inconsistent_fields)]
#[verifier::ext_equal]
pub enum ResultView {
    /// An eligible compatibility snapshot was captured.
    Captured {
        /// Filtered compatibility tree.
        tree: GitTreeRef,
        /// Paths represented by the captured compatibility history.
        tracked_paths: Set<Seq<char>>,
    },
    /// A dedicated compatibility branch workspace was created.
    Forked {
        /// Stable workspace identity.
        workspace_id: WorkspaceId,
    },
    /// A mutating action completed, optionally producing a new generation.
    Applied {
        /// Resulting tree when the action changes workspace state.
        tree: Option<GitTreeRef>,
        /// Exact resulting tracked paths for generated compatibility commits.
        tracked_paths: Option<Set<Seq<char>>>,
    },
    /// Stable executor-defined inspection data.
    Data {
        /// Result category such as `diff`, `grep`, or `archive`.
        kind: Seq<char>,
        /// Versioned machine-readable result body, as JSON text.
        value: Seq<char>,
    },
}

impl View for GitFilesystemResult {
    type V = ResultView;

    open spec fn view(&self) -> ResultView {
        match self {
            GitFilesystemResult::Captured { tree, tracked_paths } => ResultView::Captured {
                tree: *tree,
                tracked_paths: tracked_paths@,
            },
            GitFilesystemResult::Forked { workspace_id } => ResultView::Forked {
                workspace_id: *workspace_id,
            },
            GitFilesystemResult::Applied { tree, tracked_paths } => ResultView::Applied {
                tree: *tree,
                tracked_paths: (match tracked_paths { Some(inner) => Some(inner@), None => None }),
            },
            GitFilesystemResult::Data { kind, value } => ResultView::Data {
                kind: kind@,
                value: value@,
            },
        }
    }
}

impl Replicate for GitFilesystemResult {
    fn replicate(&self) -> (r: Self) {
        let r = match self {
            GitFilesystemResult::Captured { tree, tracked_paths } => GitFilesystemResult::Captured {
                tree: *tree,
                tracked_paths: tracked_paths.replicate(),
            },
            GitFilesystemResult::Forked { workspace_id } => GitFilesystemResult::Forked {
                workspace_id: *workspace_id,
            },
            GitFilesystemResult::Applied { tree, tracked_paths } => GitFilesystemResult::Applied {
                tree: *tree,
                tracked_paths: match tracked_paths { Some(inner) => Some(inner.replicate()), None => None },
            },
            GitFilesystemResult::Data { kind, value } => GitFilesystemResult::Data {
                kind: kind.clone(),
                value: value.clone(),
            },
        };
        assert(r@ =~= self@);
        r
    }
}

impl Clone for GitFilesystemResult {
    fn clone(&self) -> (r: Self)
        ensures
            r@ == self@,
    {
        self.replicate()
    }
}

/// Status without an index.
#[derive(Debug, PartialEq, Eq)]
pub struct GitStatus {
    /// Current compatibility branch.
    pub branch: String,
    /// Explicit compatibility HEAD.
    pub head: Option<GitCommitId>,
    /// Live workspace tree.
    pub workspace: GitTreeRef,
    /// Whether HEAD and the workspace differ.
    pub dirty: GitDirtyState,
    /// Always true: the compatibility layer stages all eligible changes.
    pub all_changes_staged: bool,
}

/// Abstract value of [`GitStatus`].
#[verifier::ext_equal]
pub struct StatusView {
    /// Current compatibility branch.
    pub branch: Seq<char>,
    /// Explicit compatibility HEAD.
    pub head: Option<GitCommitId>,
    /// Live workspace tree.
    pub workspace: GitTreeRef,
    /// Whether HEAD and the workspace differ.
    pub dirty: GitDirtyState,
    /// Always true: the compatibility layer stages all eligible changes.
    pub all_changes_staged: bool,
}

impl View for GitStatus {
    type V = StatusView;

    open spec fn view(&self) -> StatusView {
        StatusView {
            branch: self.branch@,
            head: self.head,
            workspace: self.workspace,
            dirty: self.dirty,
            all_changes_staged: self.all_changes_staged,
        }
    }
}

impl Replicate for GitStatus {
    fn replicate(&self) -> (r: Self) {
        let r = GitStatus {
            branch: self.branch.clone(),
            head: self.head,
            workspace: self.workspace,
            dirty: self.dirty,
            all_changes_staged: self.all_changes_staged,
        };
        assert(r@ =~= self@);
        r
    }
}

impl Clone for GitStatus {
    fn clone(&self) -> (r: Self)
        ensures
            r@ == self@,
    {
        self.replicate()
    }
}

/// Stable machine-readable command result.
#[allow(inconsistent_fields)]
#[derive(Debug, PartialEq, Eq)]
#[non_exhaustive]
pub enum GitCommandOutput {
    /// No state or filesystem change was required.
    NoOp,
    /// Status result.
    Status(GitStatus),
    /// Ordered commit records.
    Commits(Vec<GitCommit>),
    /// Branch catalog and active branch.
    Branches {
        /// Active branch name.
        current: String,
        /// Complete branch catalog.
        branches: Vec<GitBranch>,
    },
    /// Tag catalog.
    Tags(OrderedMap<String, GitCommitId>),
    /// New explicit commit.
    Committed(GitCommit),
    /// Durable first-parent bisection state.
    Bisect(GitBisectResult),
    /// Filesystem work is required.
    Action(GitFilesystemAction),
    /// Filesystem work durably prepared before a state-changing transition.
    Prepared {
        /// Stable completion or abort identity.
        transition: GitTransitionId,
        /// Idempotent filesystem action to execute.
        action: GitFilesystemAction,
    },
    /// Completed filesystem inspection or mutation result.
    Filesystem(GitFilesystemResult),
    /// Stable line-oriented value used by read-only probes.
    Text(String),
    /// Stable ordered portable-path result.
    Paths(Vec<String>),
}

/// Abstract value of [`GitCommandOutput`].
#[allow(inconsistent_fields)]
#[verifier::ext_equal]
pub enum OutputView {
    /// No state or filesystem change was required.
    NoOp,
    /// Status result.
    Status(StatusView),
    /// Ordered commit records.
    Commits(Seq<CommitView>),
    /// Branch catalog and active branch.
    Branches {
        /// Active branch name.
        current: Seq<char>,
        /// Complete branch catalog.
        branches: Seq<BranchView>,
    },
    /// Tag catalog.
    Tags(Map<Seq<char>, GitCommitId>),
    /// New explicit commit.
    Committed(CommitView),
    /// Durable first-parent bisection state.
    Bisect(GitBisectResult),
    /// Filesystem work is required.
    Action(ActionView),
    /// Filesystem work durably prepared before a state-changing transition.
    Prepared {
        /// Stable completion or abort identity.
        transition: GitTransitionId,
        /// Idempotent filesystem action to execute.
        action: ActionView,
    },
    /// Completed filesystem inspection or mutation result.
    Filesystem(ResultView),
    /// Stable line-oriented value used by read-only probes.
    Text(Seq<char>),
    /// Stable ordered portable-path result.
    Paths(Seq<Seq<char>>),
}

impl View for GitCommandOutput {
    type V = OutputView;

    open spec fn view(&self) -> OutputView {
        match self {
            GitCommandOutput::NoOp => OutputView::NoOp,
            GitCommandOutput::Status(value) => OutputView::Status(value@),
            GitCommandOutput::Commits(value) => OutputView::Commits(views(value@)),
            GitCommandOutput::Branches { current, branches } => OutputView::Branches {
                current: current@,
                branches: views(branches@),
            },
            GitCommandOutput::Tags(value) => OutputView::Tags(value@),
            GitCommandOutput::Committed(value) => OutputView::Committed(value@),
            GitCommandOutput::Bisect(value) => OutputView::Bisect(*value),
            GitCommandOutput::Action(value) => OutputView::Action(value@),
            GitCommandOutput::Prepared { transition, action } => OutputView::Prepared {
                transition: *transition,
                action: action@,
            },
            GitCommandOutput::Filesystem(value) => OutputView::Filesystem(value@),
            GitCommandOutput::Text(value) => OutputView::Text(value@),
            GitCommandOutput::Paths(value) => OutputView::Paths(views(value@)),
        }
    }
}

impl Replicate for GitCommandOutput {
    fn replicate(&self) -> (r: Self) {
        let r = match self {
            GitCommandOutput::NoOp => GitCommandOutput::NoOp,
            GitCommandOutput::Status(value) => GitCommandOutput::Status(value.replicate()),
            GitCommandOutput::Commits(value) => GitCommandOutput::Commits(replicate_all(value)),
            GitCommandOutput::Branches { current, branches } => GitCommandOutput::Branches {
                current: current.clone(),
                branches: replicate_all(branches),
            },
            GitCommandOutput::Tags(value) => GitCommandOutput::Tags(value.replicate()),
            GitCommandOutput::Committed(value) => GitCommandOutput::Committed(value.replicate()),
            GitCommandOutput::Bisect(value) => GitCommandOutput::Bisect(*value),
            GitCommandOutput::Action(value) => GitCommandOutput::Action(value.replicate()),
            GitCommandOutput::Prepared { transition, action } => GitCommandOutput::Prepared {
                transition: *transition,
                action: action.replicate(),
            },
            GitCommandOutput::Filesystem(value) => GitCommandOutput::Filesystem(value.replicate()),
            GitCommandOutput::Text(value) => GitCommandOutput::Text(value.clone()),
            GitCommandOutput::Paths(value) => GitCommandOutput::Paths(replicate_all(value)),
        };
        assert(r@ =~= self@);
        r
    }
}

impl Clone for GitCommandOutput {
    fn clone(&self) -> (r: Self)
        ensures
            r@ == self@,
    {
        self.replicate()
    }
}

/// Versioned private compatibility state.
#[derive(Debug, PartialEq, Eq)]
pub struct GitCompatState {
    /// Serialization contract version.
    pub version: u32,
    /// Monotonic optimistic-concurrency revision.
    pub revision: u64,
    /// Currently selected compatibility branch.
    pub current_branch: String,
    /// Branch catalog.
    pub branches: OrderedMap<String, GitBranch>,
    /// Explicit commit records.
    pub commits: OrderedMap<GitCommitId, GitCommit>,
    /// Cross-repository parents introduced by direct child publication.
    pub external_parents: OrderedSet<GitCommitId>,
    /// Lightweight tags.
    pub tags: OrderedMap<String, GitCommitId>,
    /// Most-recent-first prior branch heads.
    pub reflog: Vec<Option<GitCommitId>>,
    /// Stashed exact generations, newest last.
    pub stash: Vec<GitTreeRef>,
    /// Tracked paths of states older than version six.
    pub legacy_tracked_paths: OrderedSet<String>,
    /// Durable sequencer transition prepared before filesystem side effects.
    pub pending: Option<GitPendingTransition>,
    /// Active first-parent bisection, if any.
    pub bisect: Option<GitBisectState>,
}

/// Abstract value of [`GitCompatState`].
#[verifier::ext_equal]
pub struct StateView {
    /// Serialization contract version.
    pub version: u32,
    /// Monotonic optimistic-concurrency revision.
    pub revision: u64,
    /// Currently selected compatibility branch.
    pub current_branch: Seq<char>,
    /// Branch catalog.
    pub branches: Map<Seq<char>, BranchView>,
    /// Explicit commit records.
    pub commits: Map<GitCommitId, CommitView>,
    /// Cross-repository parents introduced by direct child publication.
    pub external_parents: Set<GitCommitId>,
    /// Lightweight tags.
    pub tags: Map<Seq<char>, GitCommitId>,
    /// Most-recent-first prior branch heads.
    pub reflog: Seq<Option<GitCommitId>>,
    /// Stashed exact generations, newest last.
    pub stash: Seq<GitTreeRef>,
    /// Tracked paths of states older than version six.
    pub legacy_tracked_paths: Set<Seq<char>>,
    /// Durable sequencer transition prepared before filesystem side effects.
    pub pending: Option<PendingView>,
    /// Active first-parent bisection, if any.
    pub bisect: Option<BisectView>,
}

impl View for GitCompatState {
    type V = StateView;

    open spec fn view(&self) -> StateView {
        StateView {
            version: self.version,
            revision: self.revision,
            current_branch: self.current_branch@,
            branches: self.branches@,
            commits: self.commits@,
            external_parents: self.external_parents@,
            tags: self.tags@,
            reflog: self.reflog@,
            stash: self.stash@,
            legacy_tracked_paths: self.legacy_tracked_paths@,
            pending: (match self.pending { Some(inner) => Some(inner@), None => None }),
            bisect: (match self.bisect { Some(inner) => Some(inner@), None => None }),
        }
    }
}

impl Replicate for GitCompatState {
    fn replicate(&self) -> (r: Self) {
        let r = GitCompatState {
            version: self.version,
            revision: self.revision,
            current_branch: self.current_branch.clone(),
            branches: self.branches.replicate(),
            commits: self.commits.replicate(),
            external_parents: self.external_parents.replicate(),
            tags: self.tags.replicate(),
            reflog: copy_all(self.reflog.as_slice()),
            stash: copy_all(self.stash.as_slice()),
            legacy_tracked_paths: self.legacy_tracked_paths.replicate(),
            pending: (match &self.pending { Some(inner) => Some(inner.replicate()), None => None }),
            bisect: (match &self.bisect { Some(inner) => Some(inner.replicate()), None => None }),
        };
        assert(r@ =~= self@);
        r
    }
}

impl Clone for GitCompatState {
    fn clone(&self) -> (r: Self)
        ensures
            r@ == self@,
    {
        self.replicate()
    }
}

/// Compatibility history record produced by one distributed publication.
#[derive(Debug, PartialEq, Eq)]
pub struct GitPublicationRecord {
    /// Filtered visible tree.
    pub tree: GitTreeRef,
    /// Complete live workspace tree after publication.
    pub workspace_tree: GitTreeRef,
    /// Optional compatibility head from the published child.
    pub source_head: Option<GitCommitId>,
    /// Paths represented by the filtered compatibility tree.
    pub tracked_paths: OrderedSet<String>,
    /// Merge commit message.
    pub message: String,
    /// Author identity.
    pub author: String,
    /// Unix epoch timestamp in seconds.
    pub authored_at_seconds: i64,
}

/// Abstract value of [`GitPublicationRecord`].
#[verifier::ext_equal]
pub struct PublicationView {
    /// Filtered visible tree.
    pub tree: GitTreeRef,
    /// Complete live workspace tree after publication.
    pub workspace_tree: GitTreeRef,
    /// Optional compatibility head from the published child.
    pub source_head: Option<GitCommitId>,
    /// Paths represented by the filtered compatibility tree.
    pub tracked_paths: Set<Seq<char>>,
    /// Merge commit message.
    pub message: Seq<char>,
    /// Author identity.
    pub author: Seq<char>,
    /// Unix epoch timestamp in seconds.
    pub authored_at_seconds: i64,
}

impl View for GitPublicationRecord {
    type V = PublicationView;

    open spec fn view(&self) -> PublicationView {
        PublicationView {
            tree: self.tree,
            workspace_tree: self.workspace_tree,
            source_head: self.source_head,
            tracked_paths: self.tracked_paths@,
            message: self.message@,
            author: self.author@,
            authored_at_seconds: self.authored_at_seconds,
        }
    }
}

impl Replicate for GitPublicationRecord {
    fn replicate(&self) -> (r: Self) {
        let r = GitPublicationRecord {
            tree: self.tree,
            workspace_tree: self.workspace_tree,
            source_head: self.source_head,
            tracked_paths: self.tracked_paths.replicate(),
            message: self.message.clone(),
            author: self.author.clone(),
            authored_at_seconds: self.authored_at_seconds,
        };
        assert(r@ =~= self@);
        r
    }
}

impl Clone for GitPublicationRecord {
    fn clone(&self) -> (r: Self)
        ensures
            r@ == self@,
    {
        self.replicate()
    }
}

/// Captured facts of one commit.
#[derive(Debug, PartialEq, Eq)]
pub struct GitCommitRecord {
    /// Exact HEAD that must still be current.
    pub expected_head: Option<GitCommitId>,
    /// Filtered compatibility tree.
    pub tree: GitTreeRef,
    /// Complete live tree.
    pub workspace_tree: GitTreeRef,
    /// Paths represented by the tree.
    pub tracked_paths: OrderedSet<String>,
    /// Commit message.
    pub message: String,
    /// Author identity.
    pub author: String,
    /// Unix epoch timestamp in seconds.
    pub authored_at_seconds: i64,
}

/// Abstract value of [`GitCommitRecord`].
#[verifier::ext_equal]
pub struct CommitRecordView {
    /// Exact HEAD that must still be current.
    pub expected_head: Option<GitCommitId>,
    /// Filtered compatibility tree.
    pub tree: GitTreeRef,
    /// Complete live tree.
    pub workspace_tree: GitTreeRef,
    /// Paths represented by the tree.
    pub tracked_paths: Set<Seq<char>>,
    /// Commit message.
    pub message: Seq<char>,
    /// Author identity.
    pub author: Seq<char>,
    /// Unix epoch timestamp in seconds.
    pub authored_at_seconds: i64,
}

impl View for GitCommitRecord {
    type V = CommitRecordView;

    open spec fn view(&self) -> CommitRecordView {
        CommitRecordView {
            expected_head: self.expected_head,
            tree: self.tree,
            workspace_tree: self.workspace_tree,
            tracked_paths: self.tracked_paths@,
            message: self.message@,
            author: self.author@,
            authored_at_seconds: self.authored_at_seconds,
        }
    }
}

impl Replicate for GitCommitRecord {
    fn replicate(&self) -> (r: Self) {
        let r = GitCommitRecord {
            expected_head: self.expected_head,
            tree: self.tree,
            workspace_tree: self.workspace_tree,
            tracked_paths: self.tracked_paths.replicate(),
            message: self.message.clone(),
            author: self.author.clone(),
            authored_at_seconds: self.authored_at_seconds,
        };
        assert(r@ =~= self@);
        r
    }
}

impl Clone for GitCommitRecord {
    fn clone(&self) -> (r: Self)
        ensures
            r@ == self@,
    {
        self.replicate()
    }
}

/// One change of the durable state, retried until it is published.
#[allow(inconsistent_fields)]
#[derive(Debug, PartialEq, Eq)]
pub enum GitRequest {
    /// Execute a command against a live tree.
    Execute {
        /// Command to execute.
        command: GitCommand,
        /// Exact live tree.
        workspace_tree: GitTreeRef,
    },
    /// Commit a prepared transition with the result of its filesystem work.
    Complete {
        /// Transition to commit.
        transition: GitTransitionId,
        /// Result of the filesystem work.
        result: GitFilesystemResult,
    },
    /// Clear a prepared transition whose effects do not remain.
    Abort {
        /// Transition to clear.
        transition: GitTransitionId,
    },
    /// Register the workspace of a branch.
    Register {
        /// Branch name.
        branch: String,
        /// Workspace of the branch.
        workspace_id: WorkspaceId,
        /// Compatibility head of the branch.
        head: Option<GitCommitId>,
        /// Whether the branch becomes current.
        switch: bool,
    },
    /// Record a commit of a captured tree.
    Record {
        /// Captured facts.
        record: GitCommitRecord,
    },
    /// Record a publication performed by the workspace layer.
    Publish {
        /// Published facts.
        record: GitPublicationRecord,
    },
}

/// Abstract value of [`GitRequest`].
#[allow(inconsistent_fields)]
#[verifier::ext_equal]
pub enum RequestView {
    /// Execute a command against a live tree.
    Execute {
        /// Command to execute.
        command: CommandView,
        /// Exact live tree.
        workspace_tree: GitTreeRef,
    },
    /// Commit a prepared transition with the result of its filesystem work.
    Complete {
        /// Transition to commit.
        transition: GitTransitionId,
        /// Result of the filesystem work.
        result: ResultView,
    },
    /// Clear a prepared transition whose effects do not remain.
    Abort {
        /// Transition to clear.
        transition: GitTransitionId,
    },
    /// Register the workspace of a branch.
    Register {
        /// Branch name.
        branch: Seq<char>,
        /// Workspace of the branch.
        workspace_id: WorkspaceId,
        /// Compatibility head of the branch.
        head: Option<GitCommitId>,
        /// Whether the branch becomes current.
        switch: bool,
    },
    /// Record a commit of a captured tree.
    Record {
        /// Captured facts.
        record: CommitRecordView,
    },
    /// Record a publication performed by the workspace layer.
    Publish {
        /// Published facts.
        record: PublicationView,
    },
}

impl View for GitRequest {
    type V = RequestView;

    open spec fn view(&self) -> RequestView {
        match self {
            GitRequest::Execute { command, workspace_tree } => RequestView::Execute {
                command: command@,
                workspace_tree: *workspace_tree,
            },
            GitRequest::Complete { transition, result } => RequestView::Complete {
                transition: *transition,
                result: result@,
            },
            GitRequest::Abort { transition } => RequestView::Abort {
                transition: *transition,
            },
            GitRequest::Register { branch, workspace_id, head, switch } => RequestView::Register {
                branch: branch@,
                workspace_id: *workspace_id,
                head: *head,
                switch: *switch,
            },
            GitRequest::Record { record } => RequestView::Record {
                record: record@,
            },
            GitRequest::Publish { record } => RequestView::Publish {
                record: record@,
            },
        }
    }
}

impl Replicate for GitRequest {
    fn replicate(&self) -> (r: Self) {
        let r = match self {
            GitRequest::Execute { command, workspace_tree } => GitRequest::Execute {
                command: command.replicate(),
                workspace_tree: *workspace_tree,
            },
            GitRequest::Complete { transition, result } => GitRequest::Complete {
                transition: *transition,
                result: result.replicate(),
            },
            GitRequest::Abort { transition } => GitRequest::Abort {
                transition: *transition,
            },
            GitRequest::Register { branch, workspace_id, head, switch } => GitRequest::Register {
                branch: branch.clone(),
                workspace_id: *workspace_id,
                head: *head,
                switch: *switch,
            },
            GitRequest::Record { record } => GitRequest::Record {
                record: record.replicate(),
            },
            GitRequest::Publish { record } => GitRequest::Publish {
                record: record.replicate(),
            },
        };
        assert(r@ =~= self@);
        r
    }
}

impl Clone for GitRequest {
    fn clone(&self) -> (r: Self)
        ensures
            r@ == self@,
    {
        self.replicate()
    }
}

/// A request and the attempts that are left for it.
#[derive(Debug, PartialEq, Eq)]
pub struct GitTransaction {
    /// Repository workspace.
    pub workspace_id: WorkspaceId,
    /// Requested change.
    pub request: GitRequest,
    /// Attempts that may still be made.
    pub attempts_left: u8,
    /// Output to return once the offered state is published.
    pub offered: Option<GitCommandOutput>,
}

/// Abstract value of [`GitTransaction`].
#[verifier::ext_equal]
pub struct TransactionView {
    /// Repository workspace.
    pub workspace_id: WorkspaceId,
    /// Requested change.
    pub request: RequestView,
    /// Attempts that may still be made.
    pub attempts_left: u8,
    /// Output to return once the offered state is published.
    pub offered: Option<OutputView>,
}

impl View for GitTransaction {
    type V = TransactionView;

    open spec fn view(&self) -> TransactionView {
        TransactionView {
            workspace_id: self.workspace_id,
            request: self.request@,
            attempts_left: self.attempts_left,
            offered: (match self.offered { Some(inner) => Some(inner@), None => None }),
        }
    }
}

impl Replicate for GitTransaction {
    fn replicate(&self) -> (r: Self) {
        let r = GitTransaction {
            workspace_id: self.workspace_id,
            request: self.request.replicate(),
            attempts_left: self.attempts_left,
            offered: (match &self.offered { Some(inner) => Some(inner.replicate()), None => None }),
        };
        assert(r@ =~= self@);
        r
    }
}

impl Clone for GitTransaction {
    fn clone(&self) -> (r: Self)
        ensures
            r@ == self@,
    {
        self.replicate()
    }
}

/// What becomes of the output of a transaction.
#[allow(inconsistent_fields)]
#[derive(Debug, PartialEq, Eq)]
pub enum GitContinuation {
    /// Return the output.
    Deliver,
    /// Perform the filesystem work that the output asks for.
    Perform,
    /// Return the output, or the filesystem result where there is none.
    Conclude {
        /// Result of the filesystem work.
        result: GitFilesystemResult,
    },
    /// Return the result of the rollback.
    Aborted {
        /// Result of the rollback.
        result: GitFilesystemResult,
    },
}

/// Abstract value of [`GitContinuation`].
#[allow(inconsistent_fields)]
#[verifier::ext_equal]
pub enum ContinuationView {
    /// Return the output.
    Deliver,
    /// Perform the filesystem work that the output asks for.
    Perform,
    /// Return the output, or the filesystem result where there is none.
    Conclude {
        /// Result of the filesystem work.
        result: ResultView,
    },
    /// Return the result of the rollback.
    Aborted {
        /// Result of the rollback.
        result: ResultView,
    },
}

impl View for GitContinuation {
    type V = ContinuationView;

    open spec fn view(&self) -> ContinuationView {
        match self {
            GitContinuation::Deliver => ContinuationView::Deliver,
            GitContinuation::Perform => ContinuationView::Perform,
            GitContinuation::Conclude { result } => ContinuationView::Conclude {
                result: result@,
            },
            GitContinuation::Aborted { result } => ContinuationView::Aborted {
                result: result@,
            },
        }
    }
}

impl Replicate for GitContinuation {
    fn replicate(&self) -> (r: Self) {
        let r = match self {
            GitContinuation::Deliver => GitContinuation::Deliver,
            GitContinuation::Perform => GitContinuation::Perform,
            GitContinuation::Conclude { result } => GitContinuation::Conclude {
                result: result.replicate(),
            },
            GitContinuation::Aborted { result } => GitContinuation::Aborted {
                result: result.replicate(),
            },
        };
        assert(r@ =~= self@);
        r
    }
}

impl Clone for GitContinuation {
    fn clone(&self) -> (r: Self)
        ensures
            r@ == self@,
    {
        self.replicate()
    }
}

/// Where a run stands.
#[allow(inconsistent_fields)]
#[derive(Debug, PartialEq, Eq)]
pub enum GitRunPhase {
    /// Waiting for the state that owns the live tree.
    CheckTree {
        /// Command to run.
        command: GitCommand,
        /// Whether filesystem work is performed.
        perform: bool,
    },
    /// Waiting for the executor to confirm that it may act.
    Admit {
        /// Command to run.
        command: GitCommand,
    },
    /// Waiting for the state whose pending transition decides.
    Inspect {
        /// Command to run.
        command: GitCommand,
    },
    /// Waiting for confirmation before a join is committed.
    Continue {
        /// Pending join.
        transition: GitTransitionId,
        /// Paths that may remain tracked.
        tracked_paths: OrderedSet<String>,
    },
    /// Waiting for the rollback of a join.
    Rollback {
        /// Pending join.
        transition: GitTransitionId,
    },
    /// Waiting for confirmation before a join is cleared.
    RolledBack {
        /// Pending join.
        transition: GitTransitionId,
        /// Result of the rollback.
        result: GitFilesystemResult,
    },
    /// Publishing a change of the state.
    Transact {
        /// Change to publish.
        transaction: GitTransaction,
        /// What becomes of its output.
        next: GitContinuation,
    },
    /// Waiting for confirmation before filesystem work.
    Confirm {
        /// Output of the command.
        output: GitCommandOutput,
    },
    /// Waiting for the serialized form of an action.
    Encode {
        /// Action to perform.
        action: GitFilesystemAction,
    },
    /// Waiting for filesystem work.
    Execute {
        /// Action that is performed.
        action: GitFilesystemAction,
        /// Prepared transition of the action.
        transition: Option<GitTransitionId>,
    },
    /// Waiting for confirmation before the result is recorded.
    Executed {
        /// Action that was performed.
        action: GitFilesystemAction,
        /// Prepared transition of the action.
        transition: Option<GitTransitionId>,
        /// Result of the action.
        result: GitFilesystemResult,
    },
    /// Waiting for the state whose pending transition is resumed.
    Resume,
    /// Finished.
    Over,
}

/// Abstract value of [`GitRunPhase`].
#[allow(inconsistent_fields)]
#[verifier::ext_equal]
pub enum PhaseView {
    /// Waiting for the state that owns the live tree.
    CheckTree {
        /// Command to run.
        command: CommandView,
        /// Whether filesystem work is performed.
        perform: bool,
    },
    /// Waiting for the executor to confirm that it may act.
    Admit {
        /// Command to run.
        command: CommandView,
    },
    /// Waiting for the state whose pending transition decides.
    Inspect {
        /// Command to run.
        command: CommandView,
    },
    /// Waiting for confirmation before a join is committed.
    Continue {
        /// Pending join.
        transition: GitTransitionId,
        /// Paths that may remain tracked.
        tracked_paths: Set<Seq<char>>,
    },
    /// Waiting for the rollback of a join.
    Rollback {
        /// Pending join.
        transition: GitTransitionId,
    },
    /// Waiting for confirmation before a join is cleared.
    RolledBack {
        /// Pending join.
        transition: GitTransitionId,
        /// Result of the rollback.
        result: ResultView,
    },
    /// Publishing a change of the state.
    Transact {
        /// Change to publish.
        transaction: TransactionView,
        /// What becomes of its output.
        next: ContinuationView,
    },
    /// Waiting for confirmation before filesystem work.
    Confirm {
        /// Output of the command.
        output: OutputView,
    },
    /// Waiting for the serialized form of an action.
    Encode {
        /// Action to perform.
        action: ActionView,
    },
    /// Waiting for filesystem work.
    Execute {
        /// Action that is performed.
        action: ActionView,
        /// Prepared transition of the action.
        transition: Option<GitTransitionId>,
    },
    /// Waiting for confirmation before the result is recorded.
    Executed {
        /// Action that was performed.
        action: ActionView,
        /// Prepared transition of the action.
        transition: Option<GitTransitionId>,
        /// Result of the action.
        result: ResultView,
    },
    /// Waiting for the state whose pending transition is resumed.
    Resume,
    /// Finished.
    Over,
}

impl View for GitRunPhase {
    type V = PhaseView;

    open spec fn view(&self) -> PhaseView {
        match self {
            GitRunPhase::CheckTree { command, perform } => PhaseView::CheckTree {
                command: command@,
                perform: *perform,
            },
            GitRunPhase::Admit { command } => PhaseView::Admit {
                command: command@,
            },
            GitRunPhase::Inspect { command } => PhaseView::Inspect {
                command: command@,
            },
            GitRunPhase::Continue { transition, tracked_paths } => PhaseView::Continue {
                transition: *transition,
                tracked_paths: tracked_paths@,
            },
            GitRunPhase::Rollback { transition } => PhaseView::Rollback {
                transition: *transition,
            },
            GitRunPhase::RolledBack { transition, result } => PhaseView::RolledBack {
                transition: *transition,
                result: result@,
            },
            GitRunPhase::Transact { transaction, next } => PhaseView::Transact {
                transaction: transaction@,
                next: next@,
            },
            GitRunPhase::Confirm { output } => PhaseView::Confirm {
                output: output@,
            },
            GitRunPhase::Encode { action } => PhaseView::Encode {
                action: action@,
            },
            GitRunPhase::Execute { action, transition } => PhaseView::Execute {
                action: action@,
                transition: *transition,
            },
            GitRunPhase::Executed { action, transition, result } => PhaseView::Executed {
                action: action@,
                transition: *transition,
                result: result@,
            },
            GitRunPhase::Resume => PhaseView::Resume,
            GitRunPhase::Over => PhaseView::Over,
        }
    }
}

impl Replicate for GitRunPhase {
    fn replicate(&self) -> (r: Self) {
        let r = match self {
            GitRunPhase::CheckTree { command, perform } => GitRunPhase::CheckTree {
                command: command.replicate(),
                perform: *perform,
            },
            GitRunPhase::Admit { command } => GitRunPhase::Admit {
                command: command.replicate(),
            },
            GitRunPhase::Inspect { command } => GitRunPhase::Inspect {
                command: command.replicate(),
            },
            GitRunPhase::Continue { transition, tracked_paths } => GitRunPhase::Continue {
                transition: *transition,
                tracked_paths: tracked_paths.replicate(),
            },
            GitRunPhase::Rollback { transition } => GitRunPhase::Rollback {
                transition: *transition,
            },
            GitRunPhase::RolledBack { transition, result } => GitRunPhase::RolledBack {
                transition: *transition,
                result: result.replicate(),
            },
            GitRunPhase::Transact { transaction, next } => GitRunPhase::Transact {
                transaction: transaction.replicate(),
                next: next.replicate(),
            },
            GitRunPhase::Confirm { output } => GitRunPhase::Confirm {
                output: output.replicate(),
            },
            GitRunPhase::Encode { action } => GitRunPhase::Encode {
                action: action.replicate(),
            },
            GitRunPhase::Execute { action, transition } => GitRunPhase::Execute {
                action: action.replicate(),
                transition: *transition,
            },
            GitRunPhase::Executed { action, transition, result } => GitRunPhase::Executed {
                action: action.replicate(),
                transition: *transition,
                result: result.replicate(),
            },
            GitRunPhase::Resume => GitRunPhase::Resume,
            GitRunPhase::Over => GitRunPhase::Over,
        };
        assert(r@ =~= self@);
        r
    }
}

impl Clone for GitRunPhase {
    fn clone(&self) -> (r: Self)
        ensures
            r@ == self@,
    {
        self.replicate()
    }
}

/// One command and the filesystem work it needs, step by step.
#[derive(Debug, PartialEq, Eq)]
pub struct GitRun {
    /// Repository workspace.
    pub workspace_id: WorkspaceId,
    /// Exact live tree, unless the run resumes pending work.
    pub workspace_tree: Option<GitTreeRef>,
    /// Where the run stands.
    pub phase: GitRunPhase,
}

/// Abstract value of [`GitRun`].
#[verifier::ext_equal]
pub struct RunView {
    /// Repository workspace.
    pub workspace_id: WorkspaceId,
    /// Exact live tree, unless the run resumes pending work.
    pub workspace_tree: Option<GitTreeRef>,
    /// Where the run stands.
    pub phase: PhaseView,
}

impl View for GitRun {
    type V = RunView;

    open spec fn view(&self) -> RunView {
        RunView {
            workspace_id: self.workspace_id,
            workspace_tree: self.workspace_tree,
            phase: self.phase@,
        }
    }
}

impl Replicate for GitRun {
    fn replicate(&self) -> (r: Self) {
        let r = GitRun {
            workspace_id: self.workspace_id,
            workspace_tree: self.workspace_tree,
            phase: self.phase.replicate(),
        };
        assert(r@ =~= self@);
        r
    }
}

impl Clone for GitRun {
    fn clone(&self) -> (r: Self)
        ensures
            r@ == self@,
    {
        self.replicate()
    }
}

/// What happened outside the library.
#[allow(inconsistent_fields)]
#[derive(Debug, PartialEq, Eq)]
pub enum GitRunEvent {
    /// The store was read.
    Loaded {
        /// Persisted state, if any.
        state: Option<GitCompatState>,
        /// Identity that no transition has had.
        fresh: GitTransitionId,
    },
    /// The store answered an offered state.
    Swapped {
        /// Whether the offered state was published.
        published: bool,
    },
    /// The executor confirmed that it may act.
    Validated,
    /// An action was serialized.
    Encoded {
        /// Serialized action.
        bytes: Vec<u8>,
    },
    /// Filesystem work was done.
    Performed {
        /// Result of the work.
        result: GitFilesystemResult,
    },
}

/// Abstract value of [`GitRunEvent`].
#[allow(inconsistent_fields)]
#[verifier::ext_equal]
pub enum RunEventView {
    /// The store was read.
    Loaded {
        /// Persisted state, if any.
        state: Option<StateView>,
        /// Identity that no transition has had.
        fresh: GitTransitionId,
    },
    /// The store answered an offered state.
    Swapped {
        /// Whether the offered state was published.
        published: bool,
    },
    /// The executor confirmed that it may act.
    Validated,
    /// An action was serialized.
    Encoded {
        /// Serialized action.
        bytes: Seq<u8>,
    },
    /// Filesystem work was done.
    Performed {
        /// Result of the work.
        result: ResultView,
    },
}

impl View for GitRunEvent {
    type V = RunEventView;

    open spec fn view(&self) -> RunEventView {
        match self {
            GitRunEvent::Loaded { state, fresh } => RunEventView::Loaded {
                state: (match state { Some(inner) => Some(inner@), None => None }),
                fresh: *fresh,
            },
            GitRunEvent::Swapped { published } => RunEventView::Swapped {
                published: *published,
            },
            GitRunEvent::Validated => RunEventView::Validated,
            GitRunEvent::Encoded { bytes } => RunEventView::Encoded {
                bytes: bytes@,
            },
            GitRunEvent::Performed { result } => RunEventView::Performed {
                result: result@,
            },
        }
    }
}

impl Replicate for GitRunEvent {
    fn replicate(&self) -> (r: Self) {
        let r = match self {
            GitRunEvent::Loaded { state, fresh } => GitRunEvent::Loaded {
                state: match state { Some(inner) => Some(inner.replicate()), None => None },
                fresh: *fresh,
            },
            GitRunEvent::Swapped { published } => GitRunEvent::Swapped {
                published: *published,
            },
            GitRunEvent::Validated => GitRunEvent::Validated,
            GitRunEvent::Encoded { bytes } => GitRunEvent::Encoded {
                bytes: vstd::slice::slice_to_vec(bytes.as_slice()),
            },
            GitRunEvent::Performed { result } => GitRunEvent::Performed {
                result: result.replicate(),
            },
        };
        assert(r@ =~= self@);
        r
    }
}

impl Clone for GitRunEvent {
    fn clone(&self) -> (r: Self)
        ensures
            r@ == self@,
    {
        self.replicate()
    }
}

/// What must happen outside the library next.
#[allow(inconsistent_fields)]
#[derive(Debug, PartialEq, Eq)]
pub enum GitRunAction {
    /// Read the store.
    Load,
    /// Publish a state if the store still holds the expected revision.
    Swap {
        /// Expected revision.
        expected: u64,
        /// State to publish.
        replacement: GitCompatState,
    },
    /// Ask the executor to confirm that it may act.
    Validate,
    /// Serialize an action.
    Encode {
        /// Action to serialize.
        action: GitFilesystemAction,
    },
    /// Perform filesystem work.
    Execute {
        /// Stable identity of the work.
        operation_id: OperationId,
        /// Work to perform.
        action: GitFilesystemAction,
    },
    /// Nothing; the run is over.
    Done {
        /// Output, unless there was nothing to resume.
        output: Option<GitCommandOutput>,
    },
}

/// Abstract value of [`GitRunAction`].
#[allow(inconsistent_fields)]
#[verifier::ext_equal]
pub enum RunActionView {
    /// Read the store.
    Load,
    /// Publish a state if the store still holds the expected revision.
    Swap {
        /// Expected revision.
        expected: u64,
        /// State to publish.
        replacement: StateView,
    },
    /// Ask the executor to confirm that it may act.
    Validate,
    /// Serialize an action.
    Encode {
        /// Action to serialize.
        action: ActionView,
    },
    /// Perform filesystem work.
    Execute {
        /// Stable identity of the work.
        operation_id: OperationId,
        /// Work to perform.
        action: ActionView,
    },
    /// Nothing; the run is over.
    Done {
        /// Output, unless there was nothing to resume.
        output: Option<OutputView>,
    },
}

impl View for GitRunAction {
    type V = RunActionView;

    open spec fn view(&self) -> RunActionView {
        match self {
            GitRunAction::Load => RunActionView::Load,
            GitRunAction::Swap { expected, replacement } => RunActionView::Swap {
                expected: *expected,
                replacement: replacement@,
            },
            GitRunAction::Validate => RunActionView::Validate,
            GitRunAction::Encode { action } => RunActionView::Encode {
                action: action@,
            },
            GitRunAction::Execute { operation_id, action } => RunActionView::Execute {
                operation_id: *operation_id,
                action: action@,
            },
            GitRunAction::Done { output } => RunActionView::Done {
                output: (match output { Some(inner) => Some(inner@), None => None }),
            },
        }
    }
}

impl Replicate for GitRunAction {
    fn replicate(&self) -> (r: Self) {
        let r = match self {
            GitRunAction::Load => GitRunAction::Load,
            GitRunAction::Swap { expected, replacement } => GitRunAction::Swap {
                expected: *expected,
                replacement: replacement.replicate(),
            },
            GitRunAction::Validate => GitRunAction::Validate,
            GitRunAction::Encode { action } => GitRunAction::Encode {
                action: action.replicate(),
            },
            GitRunAction::Execute { operation_id, action } => GitRunAction::Execute {
                operation_id: *operation_id,
                action: action.replicate(),
            },
            GitRunAction::Done { output } => GitRunAction::Done {
                output: match output { Some(inner) => Some(inner.replicate()), None => None },
            },
        };
        assert(r@ =~= self@);
        r
    }
}

impl Clone for GitRunAction {
    fn clone(&self) -> (r: Self)
        ensures
            r@ == self@,
    {
        self.replicate()
    }
}

/// Compatibility failure.
#[derive(Debug)]
pub enum GitCompatError<E> {
    /// Durable adapter failed.
    Store(E),
    /// Persisted state is incompatible or internally inconsistent.
    InvalidState,
    /// The supplied live tree belongs to a workspace other than the selected branch.
    WorkspaceMismatch,
    /// Command arguments are invalid.
    InvalidCommand(String),
    /// Named branch, tag, or commit does not exist.
    UnknownObject(String),
    /// Named branch already exists.
    BranchExists(String),
    /// There is no explicit commit to name.
    UnbornHead,
    /// Nothing differs from explicit compatibility HEAD.
    NothingToCommit,
    /// Transport or object-database command is intentionally unavailable.
    Unsupported {
        /// Requested command name.
        command: String,
        /// Stable explanation of the unsupported capability.
        reason: String,
    },
    /// Optimistic state contention exceeded the bounded retry policy.
    Contended,
    /// Another sequencer transition must be completed or aborted first.
    TransitionPending(GitTransitionId),
    /// Completion or abort named a stale transition.
    StaleTransition,
    /// The completed filesystem action did not return its resulting generation.
    MissingResultGeneration,
}

/// Abstract value of [`GitCompatError`].
#[verifier::ext_equal]
pub enum CompatErrorView<E> {
    /// Durable adapter failed.
    Store(E),
    /// Persisted state is incompatible or internally inconsistent.
    InvalidState,
    /// The supplied live tree belongs to a workspace other than the selected branch.
    WorkspaceMismatch,
    /// Command arguments are invalid.
    InvalidCommand(Seq<char>),
    /// Named branch, tag, or commit does not exist.
    UnknownObject(Seq<char>),
    /// Named branch already exists.
    BranchExists(Seq<char>),
    /// There is no explicit commit to name.
    UnbornHead,
    /// Nothing differs from explicit compatibility HEAD.
    NothingToCommit,
    /// Transport or object-database command is intentionally unavailable.
    Unsupported {
        /// Requested command name.
        command: Seq<char>,
        /// Stable explanation of the unsupported capability.
        reason: Seq<char>,
    },
    /// Optimistic state contention exceeded the bounded retry policy.
    Contended,
    /// Another sequencer transition must be completed or aborted first.
    TransitionPending(GitTransitionId),
    /// Completion or abort named a stale transition.
    StaleTransition,
    /// The completed filesystem action did not return its resulting generation.
    MissingResultGeneration,
}

impl<E> View for GitCompatError<E> {
    type V = CompatErrorView<E>;

    open spec fn view(&self) -> CompatErrorView<E> {
        match self {
            GitCompatError::Store(error) => CompatErrorView::Store(*error),
            GitCompatError::InvalidState => CompatErrorView::InvalidState,
            GitCompatError::WorkspaceMismatch => CompatErrorView::WorkspaceMismatch,
            GitCompatError::InvalidCommand(message) => CompatErrorView::InvalidCommand(message@),
            GitCompatError::UnknownObject(name) => CompatErrorView::UnknownObject(name@),
            GitCompatError::BranchExists(name) => CompatErrorView::BranchExists(name@),
            GitCompatError::UnbornHead => CompatErrorView::UnbornHead,
            GitCompatError::NothingToCommit => CompatErrorView::NothingToCommit,
            GitCompatError::Unsupported { command, reason } => CompatErrorView::Unsupported {
                command: command@,
                reason: reason@,
            },
            GitCompatError::Contended => CompatErrorView::Contended,
            GitCompatError::TransitionPending(id) => CompatErrorView::TransitionPending(*id),
            GitCompatError::StaleTransition => CompatErrorView::StaleTransition,
            GitCompatError::MissingResultGeneration => CompatErrorView::MissingResultGeneration,
        }
    }
}

} // verus!
