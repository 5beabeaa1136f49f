//! Handles of a hosted filesystem, its workspaces and their generations.
//!
//! Every operation is first a message here. The transport sends it and hands the
//! reply back to the handle that asked.

use super::options::{HostedFsError, HostedS3AccessOptions};
use super::wire::{
    ApplyJoinRequest, ApplyJoinRequestView, ByteRange, Capabilities, CapabilitiesView,
    CreateWorkspaceRequest, CredentialRequest, CredentialRequestView, DiffRequest, DiffRequestView,
    ExportRequest, ExportRequestView, ForkWorkspaceRequest, ForkWorkspaceRequestView,
    GenerationRef, GenerationRefView, ListDirectoryRequest, ListDirectoryRequestView,
    OperationOptions, OperationOptionsView, OperationQuery, OperationQueryView, PathRequest,
    PathRequestView, PlanExtentsRequest, PlanExtentsRequestView, PlanJoinRequest,
    PlanJoinRequestView, ReadLinkRequest, ReadLinkRequestView, ReadRequest, ReadRequestView,
    RebaseRequest, RebaseRequestView, RetainGenerationRequest, RetainGenerationRequestView,
    SourceInvalidationReason, SourceResponse, SourceResponseView, WireProfile, WireSourceState,
    WireWorkspace, WireWorkspaceView, WorkspaceOperation, WorkspaceOperationView, WorkspaceRef,
    WorkspaceRefView,
};
use crate::foundation::{Digest, GenerationId, IdempotencyKey};
use crate::order::{same_bytes, Replicate};
use crate::text::text_is;
use vstd::prelude::*;

verus! {

/// Bytes of a workspace identity.
pub const WORKSPACE_ID_BYTES: usize = 16;

/// Bytes of a generation identity.
pub const GENERATION_ID_BYTES: usize = 32;

/// Filesystem semantics selected when a workspace is created.
#[derive(Clone, Copy, Debug, PartialEq, Eq, Structural)]
pub enum FilesystemProfile {
    /// Portable semantics.
    Portable,
    /// POSIX semantics.
    Posix,
    /// Windows semantics.
    Windows,
    /// Browser semantics.
    Browser,
}

/// Why a provider-backed source has to be scanned again.
#[derive(Clone, Copy, Debug, PartialEq, Eq, Structural)]
pub enum HostedSourceInvalidation {
    /// No snapshot exists yet.
    InitialSnapshotRequired,
    /// Events were lost.
    QueueOverflow,
    /// The native watcher demands a scan.
    NativeRescanRequired,
    /// The watcher failed.
    BackendError,
    /// A path cannot be represented.
    UnrepresentablePath,
    /// A rename is ambiguous.
    AmbiguousRename,
    /// The root was replaced.
    RootChanged,
}

/// Lifecycle state of a provider-backed source.
#[derive(Clone, Copy, Debug, PartialEq, Eq, Structural)]
pub enum HostedSourceState {
    /// The source is captured.
    Clean,
    /// Events await capture.
    PendingCapture,
    /// The source has to be scanned again.
    NeedsRescan(HostedSourceInvalidation),
    /// The source conflicts with authored state.
    Conflict,
    /// The source is sealed.
    Sealed,
}

/// Validated outcome of a source operation.
#[derive(Clone, Copy, Debug, PartialEq, Eq)]
pub struct HostedSourceResult {
    /// Lifecycle state.
    pub state: HostedSourceState,
    /// Captured generation.
    pub generation_id: Option<GenerationId>,
}

/// Marker selecting the transport-only constructor.
#[derive(Clone, Copy, Debug, PartialEq, Eq)]
pub struct HostedAuthority;

/// Marker selecting the transport-only constructor.
#[derive(Clone, Copy, Debug, PartialEq, Eq)]
pub struct HostedObjects;

/// Hosted Filesystem owner. Handles produced by another owner cannot be
/// substituted because each one retains the number of its owner.
#[derive(Debug, PartialEq, Eq)]
pub struct HostedFs {
    /// Number that only this owner and its clones have.
    pub owner: u64,
    /// Negotiated capabilities.
    pub capabilities: Capabilities,
}

/// Abstract value of [`HostedFs`].
#[verifier::ext_equal]
pub struct HostedFsView {
    /// Number that only this owner and its clones have.
    pub owner: u64,
    /// Negotiated capabilities.
    pub capabilities: CapabilitiesView,
}

impl View for HostedFs {
    type V = HostedFsView;

    open spec fn view(&self) -> HostedFsView {
        HostedFsView {
            owner: self.owner,
            capabilities: self.capabilities@,
        }
    }
}

impl Replicate for HostedFs {
    fn replicate(&self) -> (r: Self) {
        let r = HostedFs {
            owner: self.owner,
            capabilities: self.capabilities.replicate(),
        };
        assert(r@ =~= self@);
        r
    }
}

impl Clone for HostedFs {
    fn clone(&self) -> (r: Self)
        ensures
            r@ == self@,
    {
        self.replicate()
    }
}

/// One hosted named workspace with an exact last-observed head.
#[derive(Debug, PartialEq, Eq)]
pub struct HostedWorkspace {
    /// Owner.
    pub filesystem: HostedFs,
    /// Identity.
    pub reference: WorkspaceRef,
    /// Profile selected at creation.
    pub profile: WireProfile,
    /// Last-observed head.
    pub head: GenerationRef,
}

/// Abstract value of [`HostedWorkspace`].
#[verifier::ext_equal]
pub struct HostedWorkspaceView {
    /// Owner.
    pub filesystem: HostedFsView,
    /// Identity.
    pub reference: WorkspaceRefView,
    /// Profile selected at creation.
    pub profile: WireProfile,
    /// Last-observed head.
    pub head: GenerationRefView,
}

impl View for HostedWorkspace {
    type V = HostedWorkspaceView;

    open spec fn view(&self) -> HostedWorkspaceView {
        HostedWorkspaceView {
            filesystem: self.filesystem@,
            reference: self.reference@,
            profile: self.profile,
            head: self.head@,
        }
    }
}

impl Replicate for HostedWorkspace {
    fn replicate(&self) -> (r: Self) {
        let r = HostedWorkspace {
            filesystem: self.filesystem.replicate(),
            reference: self.reference.replicate(),
            profile: self.profile,
            head: self.head.replicate(),
        };
        assert(r@ =~= self@);
        r
    }
}

impl Clone for HostedWorkspace {
    fn clone(&self) -> (r: Self)
        ensures
            r@ == self@,
    {
        self.replicate()
    }
}

/// One exact immutable hosted generation.
#[derive(Debug, PartialEq, Eq)]
pub struct HostedGeneration {
    /// Workspace.
    pub workspace: HostedWorkspace,
    /// Identity.
    pub reference: GenerationRef,
}

/// Abstract value of [`HostedGeneration`].
#[verifier::ext_equal]
pub struct HostedGenerationView {
    /// Workspace.
    pub workspace: HostedWorkspaceView,
    /// Identity.
    pub reference: GenerationRefView,
}

impl View for HostedGeneration {
    type V = HostedGenerationView;

    open spec fn view(&self) -> HostedGenerationView {
        HostedGenerationView {
            workspace: self.workspace@,
            reference: self.reference@,
        }
    }
}

impl Replicate for HostedGeneration {
    fn replicate(&self) -> (r: Self) {
        let r = HostedGeneration {
            workspace: self.workspace.replicate(),
            reference: self.reference.replicate(),
        };
        assert(r@ =~= self@);
        r
    }
}

impl Clone for HostedGeneration {
    fn clone(&self) -> (r: Self)
        ensures
            r@ == self@,
    {
        self.replicate()
    }
}

/// The retry identity of a key.
pub open spec fn operation_of(key: IdempotencyKey) -> OperationOptionsView {
    OperationOptionsView { idempotency_key: key.bytes@ }
}

/// Names the retry identity of one mutation.
pub fn operation(idempotency_key: IdempotencyKey) -> (r: OperationOptions)
    ensures
        r@ == operation_of(idempotency_key),
{
    OperationOptions { idempotency_key: vstd::slice::slice_to_vec(idempotency_key.bytes.as_slice()) }
}

/// The profile that a service is asked for.
pub fn profile_to_wire(profile: FilesystemProfile) -> (r: WireProfile)
    ensures
        r == match profile {
            FilesystemProfile::Portable => WireProfile::Portable,
            FilesystemProfile::Posix => WireProfile::Posix,
            FilesystemProfile::Windows => WireProfile::Windows,
            FilesystemProfile::Browser => WireProfile::Browser,
        },
{
    match profile {
        FilesystemProfile::Portable => WireProfile::Portable,
        FilesystemProfile::Posix => WireProfile::Posix,
        FilesystemProfile::Windows => WireProfile::Windows,
        FilesystemProfile::Browser => WireProfile::Browser,
    }
}

/// Requires an identity of an exact length.
pub fn exact_len(value: &[u8], expected: usize, message: &'static str) -> (r: Result<
    (),
    HostedFsError,
>)
    ensures
        r == if value@.len() == expected {
            Ok::<(), HostedFsError>(())
        } else {
            Err(HostedFsError::InvalidResponse(message))
        },
{
    if value.len() == expected {
        Ok(())
    } else {
        Err(HostedFsError::InvalidResponse(message))
    }
}

/// First objection to a generation of a workspace.
pub open spec fn generation_problem(
    generation: GenerationRefView,
    workspace: WorkspaceRefView,
) -> Option<HostedFsError> {
    if generation.generation_id.len() != GENERATION_ID_BYTES {
        Some(HostedFsError::InvalidResponse("generation identity has the wrong length"))
    } else if generation.workspace is None {
        Some(HostedFsError::InvalidResponse("generation workspace is absent"))
    } else if generation.workspace->Some_0 != workspace {
        Some(HostedFsError::InvalidResponse("generation belongs to another workspace"))
    } else {
        None
    }
}

fn same_workspace(a: &WorkspaceRef, b: &WorkspaceRef) -> (r: bool)
    ensures
        r == (a@ == b@),
{
    let r = same_bytes(a.workspace_id.as_slice(), b.workspace_id.as_slice()) && text_is(
        a.name.as_str(),
        b.name.as_str(),
    );
    assert(r ==> a@ =~= b@);
    r
}

/// Requires a generation to be an exact identity in the given workspace.
pub fn validate_generation(generation: &GenerationRef, workspace: &WorkspaceRef) -> (r: Result<
    (),
    HostedFsError,
>)
    ensures
        r == match generation_problem(generation@, workspace@) {
            Some(problem) => Err::<(), HostedFsError>(problem),
            None => Ok(()),
        },
{
    if let Err(error) = exact_len(
        generation.generation_id.as_slice(),
        GENERATION_ID_BYTES,
        "generation identity has the wrong length",
    ) {
        return Err(error);
    }
    match &generation.workspace {
        None => Err(HostedFsError::InvalidResponse("generation workspace is absent")),
        Some(owner) => if same_workspace(owner, workspace) {
            Ok(())
        } else {
            Err(HostedFsError::InvalidResponse("generation belongs to another workspace"))
        },
    }
}

/// First objection to a workspace described by a service.
pub open spec fn workspace_problem(value: Option<WireWorkspaceView>) -> Option<HostedFsError> {
    if value is None {
        Some(HostedFsError::InvalidResponse("workspace is absent"))
    } else if value->Some_0.workspace is None {
        Some(HostedFsError::InvalidResponse("workspace reference is absent"))
    } else if value->Some_0.workspace->Some_0.workspace_id.len() != WORKSPACE_ID_BYTES {
        Some(HostedFsError::InvalidResponse("workspace identity has the wrong length"))
    } else if value->Some_0.head is None {
        Some(HostedFsError::InvalidResponse("workspace head is absent"))
    } else if generation_problem(
        value->Some_0.head->Some_0,
        value->Some_0.workspace->Some_0,
    ) is Some {
        generation_problem(value->Some_0.head->Some_0, value->Some_0.workspace->Some_0)
    } else if value->Some_0.profile is None {
        Some(HostedFsError::InvalidResponse("workspace profile is invalid"))
    } else {
        None
    }
}

/// Whether a count is a bound within a limit.
pub open spec fn within_limit(value: int, limit: int) -> bool {
    0 < value <= limit
}

impl HostedFsView {
    /// Whether a page of so many items may be asked for.
    pub open spec fn admits_page(self, value: u32) -> bool {
        within_limit(value as int, self.capabilities.maximum_page_items as int)
    }

    /// Whether a response of so many bytes may be asked for.
    pub open spec fn admits_response(self, value: u64) -> bool {
        within_limit(value as int, self.capabilities.maximum_response_bytes as int)
    }

    /// Whether a transaction of so many mutations may be sent.
    pub open spec fn admits_transaction(self, value: int) -> bool {
        within_limit(value, self.capabilities.maximum_transaction_mutations as int)
    }
}

/// Objection to the first bound of a list that exceeds a limit.
pub open spec fn first_excess(admitted: Seq<bool>, names: Seq<&'static str>) -> Option<HostedFsError>
    decreases admitted.len(),
{
    if admitted.len() == 0 || names.len() == 0 {
        None
    } else if !admitted[0] {
        Some(HostedFsError::LimitExceeded(names[0]))
    } else {
        first_excess(admitted.drop_first(), names.drop_first())
    }
}

impl HostedFs {
    /// Makes the owner that negotiated the given capabilities.
    pub fn new(owner: u64, capabilities: Capabilities) -> (r: Self)
        ensures
            r@ == (HostedFsView { owner, capabilities: capabilities@ }),
    {
        HostedFs { owner, capabilities }
    }

    /// Returns the authenticated server capabilities retained by this client.
    pub fn capabilities(&self) -> (r: &Capabilities)
        ensures
            r@ == self@.capabilities,
    {
        &self.capabilities
    }

    /// Requires a page size within the negotiated limit.
    pub fn require_page_bound(&self, value: u32, name: &'static str) -> (r: Result<
        (),
        HostedFsError,
    >)
        ensures
            r == if self@.admits_page(value) {
                Ok::<(), HostedFsError>(())
            } else {
                Err(HostedFsError::LimitExceeded(name))
            },
    {
        if value == 0 || value > self.capabilities.maximum_page_items {
            Err(HostedFsError::LimitExceeded(name))
        } else {
            Ok(())
        }
    }

    /// Requires a response size within the negotiated limit.
    pub fn require_response_bound(&self, value: u64, name: &'static str) -> (r: Result<
        (),
        HostedFsError,
    >)
        ensures
            r == if self@.admits_response(value) {
                Ok::<(), HostedFsError>(())
            } else {
                Err(HostedFsError::LimitExceeded(name))
            },
    {
        if value == 0 || value > self.capabilities.maximum_response_bytes {
            Err(HostedFsError::LimitExceeded(name))
        } else {
            Ok(())
        }
    }

    /// Requires a transaction size within the negotiated limit.
    pub fn require_transaction_bound(&self, value: usize) -> (r: Result<(), HostedFsError>)
        ensures
            r == if self@.admits_transaction(value as int) {
                Ok::<(), HostedFsError>(())
            } else {
                Err(HostedFsError::LimitExceeded("transaction mutations"))
            },
    {
        if value == 0 || value as u64 > self.capabilities.maximum_transaction_mutations as u64 {
            Err(HostedFsError::LimitExceeded("transaction mutations"))
        } else {
            Ok(())
        }
    }

    /// Requires a handle that this owner produced.
    pub fn require_owner(&self, workspace: &HostedWorkspace) -> (r: Result<(), HostedFsError>)
        ensures
            r == if self@.owner == workspace@.filesystem.owner {
                Ok::<(), HostedFsError>(())
            } else {
                Err(HostedFsError::InvalidOptions("workspace belongs to another hosted client"))
            },
    {
        if self.owner == workspace.filesystem.owner {
            Ok(())
        } else {
            Err(HostedFsError::InvalidOptions("workspace belongs to another hosted client"))
        }
    }

    /// Creates one named workspace with a caller-owned retry identity.
    pub fn create_workspace(
        &self,
        name: String,
        profile: FilesystemProfile,
        idempotency_key: IdempotencyKey,
    ) -> (r: CreateWorkspaceRequest)
        ensures
            r@.name == name@,
            r@.operation == operation_of(idempotency_key),
            r@.profile == match profile {
                FilesystemProfile::Portable => WireProfile::Portable,
                FilesystemProfile::Posix => WireProfile::Posix,
                FilesystemProfile::Windows => WireProfile::Windows,
                FilesystemProfile::Browser => WireProfile::Browser,
            },
    {
        CreateWorkspaceRequest {
            name,
            profile: profile_to_wire(profile),
            operation: operation(idempotency_key),
        }
    }

    fn query(&self, workspace: &HostedWorkspace, idempotency_key: IdempotencyKey) -> (r: Result<
        OperationQuery,
        HostedFsError,
    >)
        ensures
            if self@.owner != workspace@.filesystem.owner {
                r == Err::<OperationQuery, HostedFsError>(
                    HostedFsError::InvalidOptions("workspace belongs to another hosted client"),
                )
            } else {
                r is Ok && r->Ok_0@ == (OperationQueryView {
                    workspace: workspace@.reference,
                    operation_id: idempotency_key.bytes@,
                })
            },
    {
        if let Err(error) = self.require_owner(workspace) {
            return Err(error);
        }
        Ok(
            OperationQuery {
                workspace: workspace.reference.replicate(),
                operation_id: vstd::slice::slice_to_vec(idempotency_key.bytes.as_slice()),
            },
        )
    }

    /// Resolves a previously submitted mutation by its caller-owned identity.
    pub fn observe(&self, workspace: &HostedWorkspace, idempotency_key: IdempotencyKey) -> (r:
        Result<OperationQuery, HostedFsError>)
        ensures
            if self@.owner != workspace@.filesystem.owner {
                r == Err::<OperationQuery, HostedFsError>(
                    HostedFsError::InvalidOptions("workspace belongs to another hosted client"),
                )
            } else {
                r is Ok && r->Ok_0@ == (OperationQueryView {
                    workspace: workspace@.reference,
                    operation_id: idempotency_key.bytes@,
                })
            },
    {
        self.query(workspace, idempotency_key)
    }

    /// Requests cancellation of a submitted mutation.
    pub fn cancel(&self, workspace: &HostedWorkspace, idempotency_key: IdempotencyKey) -> (r:
        Result<OperationQuery, HostedFsError>)
        ensures
            if self@.owner != workspace@.filesystem.owner {
                r == Err::<OperationQuery, HostedFsError>(
                    HostedFsError::InvalidOptions("workspace belongs to another hosted client"),
                )
            } else {
                r is Ok && r->Ok_0@ == (OperationQueryView {
                    workspace: workspace@.reference,
                    operation_id: idempotency_key.bytes@,
                })
            },
    {
        self.query(workspace, idempotency_key)
    }

    /// Applies one server-authenticated immutable join plan.
    pub fn apply_join(&self, plan: Vec<u8>, idempotency_key: IdempotencyKey) -> (r:
        ApplyJoinRequest)
        ensures
            r@ == (ApplyJoinRequestView { plan: plan@, operation: operation_of(idempotency_key) }),
    {
        ApplyJoinRequest { plan, operation: operation(idempotency_key) }
    }

    /// Makes a handle from a workspace described by the service.
    pub fn workspace(&self, value: Option<WireWorkspace>) -> (r: Result<
        HostedWorkspace,
        HostedFsError,
    >)
        ensures
            ({
                let given = match value {
                    Some(inner) => Some(inner@),
                    None => None,
                };
                match workspace_problem(given) {
                    Some(problem) => r == Err::<HostedWorkspace, HostedFsError>(problem),
                    None => r is Ok && r->Ok_0@ == (HostedWorkspaceView {
                        filesystem: self@,
                        reference: given->Some_0.workspace->Some_0,
                        profile: given->Some_0.profile->Some_0,
                        head: given->Some_0.head->Some_0,
                    }),
                }
            }),
    {
        let value = match value {
            Some(value) => value,
            None => {
                return Err(HostedFsError::InvalidResponse("workspace is absent"));
            },
        };
        let reference = match value.workspace {
            Some(reference) => reference,
            None => {
                return Err(HostedFsError::InvalidResponse("workspace reference is absent"));
            },
        };
        if let Err(error) = exact_len(
            reference.workspace_id.as_slice(),
            WORKSPACE_ID_BYTES,
            "workspace identity has the wrong length",
        ) {
            return Err(error);
        }
        let head = match value.head {
            Some(head) => head,
            None => {
                return Err(HostedFsError::InvalidResponse("workspace head is absent"));
            },
        };
        if let Err(error) = validate_generation(&head, &reference) {
            return Err(error);
        }
        let profile = match value.profile {
            Some(profile) => profile,
            None => {
                return Err(HostedFsError::InvalidResponse("workspace profile is invalid"));
            },
        };
        Ok(HostedWorkspace { filesystem: self.replicate(), reference, profile, head })
    }
}

/// The invalidation that a known reason stands for.
pub open spec fn invalidation_of(reason: SourceInvalidationReason) -> Option<
    HostedSourceInvalidation,
> {
    match reason {
        SourceInvalidationReason::Unspecified => None,
        SourceInvalidationReason::InitialSnapshotRequired => Some(
            HostedSourceInvalidation::InitialSnapshotRequired,
        ),
        SourceInvalidationReason::QueueOverflow => Some(HostedSourceInvalidation::QueueOverflow),
        SourceInvalidationReason::NativeRescanRequired => Some(
            HostedSourceInvalidation::NativeRescanRequired,
        ),
        SourceInvalidationReason::BackendError => Some(HostedSourceInvalidation::BackendError),
        SourceInvalidationReason::UnrepresentablePath => Some(
            HostedSourceInvalidation::UnrepresentablePath,
        ),
        SourceInvalidationReason::AmbiguousRename => Some(
            HostedSourceInvalidation::AmbiguousRename,
        ),
        SourceInvalidationReason::RootChanged => Some(HostedSourceInvalidation::RootChanged),
    }
}

fn invalidation(reason: SourceInvalidationReason) -> (r: Option<HostedSourceInvalidation>)
    ensures
        r == invalidation_of(reason),
{
    match reason {
        SourceInvalidationReason::Unspecified => None,
        SourceInvalidationReason::InitialSnapshotRequired => Some(
            HostedSourceInvalidation::InitialSnapshotRequired,
        ),
        SourceInvalidationReason::QueueOverflow => Some(HostedSourceInvalidation::QueueOverflow),
        SourceInvalidationReason::NativeRescanRequired => Some(
            HostedSourceInvalidation::NativeRescanRequired,
        ),
        SourceInvalidationReason::BackendError => Some(HostedSourceInvalidation::BackendError),
        SourceInvalidationReason::UnrepresentablePath => Some(
            HostedSourceInvalidation::UnrepresentablePath,
        ),
        SourceInvalidationReason::AmbiguousRename => Some(
            HostedSourceInvalidation::AmbiguousRename,
        ),
        SourceInvalidationReason::RootChanged => Some(HostedSourceInvalidation::RootChanged),
    }
}

/// The state that a report stands for. Only a source that needs a scan has a
/// reason.
pub open spec fn source_state_of(
    state: Option<WireSourceState>,
    invalidation: Option<HostedSourceInvalidation>,
) -> Option<HostedSourceState> {
    match (state, invalidation) {
        (Some(WireSourceState::Clean), None) => Some(HostedSourceState::Clean),
        (Some(WireSourceState::PendingCapture), None) => Some(HostedSourceState::PendingCapture),
        (Some(WireSourceState::NeedsRescan), Some(reason)) => Some(
            HostedSourceState::NeedsRescan(reason),
        ),
        (Some(WireSourceState::Conflict), None) => Some(HostedSourceState::Conflict),
        (Some(WireSourceState::Sealed), None) => Some(HostedSourceState::Sealed),
        _ => None,
    }
}

/// Whether a state comes with a generation.
pub open spec fn carries_generation(state: HostedSourceState) -> bool {
    state is Clean || state is Sealed
}

/// First objection to a source reply of a workspace.
pub open spec fn source_problem(
    response: SourceResponseView,
    workspace: WorkspaceRefView,
) -> Option<HostedFsError> {
    if response.reason is None {
        Some(HostedFsError::InvalidResponse("source invalidation reason is invalid"))
    } else {
        match source_state_of(response.state, invalidation_of(response.reason->Some_0)) {
            None => Some(HostedFsError::InvalidResponse("source state is invalid")),
            Some(state) => if carries_generation(state) != response.generation is Some {
                Some(HostedFsError::InvalidResponse("source generation does not match its state"))
            } else if response.generation is Some {
                generation_problem(response.generation->Some_0, workspace)
            } else {
                None
            },
        }
    }
}

/// Whether a result is what a sound source reply says.
pub open spec fn source_reported(
    response: SourceResponseView,
    result: HostedSourceResult,
) -> bool {
    &&& Some(result.state) == source_state_of(
        response.state,
        invalidation_of(response.reason->Some_0),
    )
    &&& result.generation_id is Some == response.generation is Some
    &&& result.generation_id matches Some(id) ==> id.digest.bytes@
        == response.generation->Some_0.generation_id
}

/// Objection to a deployment that does not reconcile sources.
pub open spec fn unreconciled() -> HostedFsError {
    HostedFsError::InvalidOptions("hosted deployment does not support source reconciliation")
}

/// Reads a digest out of exactly as many bytes.
fn digest_of(bytes: &[u8]) -> (r: Digest)
    requires
        bytes@.len() == GENERATION_ID_BYTES,
    ensures
        r.bytes@ == bytes@,
{
    let mut digest: [u8; 32] = [0; 32];
    let mut i: usize = 0;
    while i < 32
        invariant
            i <= 32,
            bytes@.len() == 32,
            forall|k: int| 0 <= k < i ==> digest@[k] == bytes@[k],
        decreases 32 - i,
    {
        digest[i] = bytes[i];
        i = i + 1;
    }
    assert(digest@ =~= bytes@);
    Digest::from_bytes(digest)
}

impl HostedWorkspace {
    /// Stable opaque workspace identity.
    pub fn id(&self) -> (r: &[u8])
        ensures
            r@ == self@.reference.workspace_id,
    {
        self.reference.workspace_id.as_slice()
    }

    /// Canonical workspace name.
    pub fn name(&self) -> (r: &str)
        ensures
            r@ == self@.reference.name,
    {
        self.reference.name.as_str()
    }

    /// Exact profile selected at creation.
    pub fn profile(&self) -> (r: WireProfile)
        ensures
            r == self@.profile,
    {
        self.profile
    }

    /// Identity whose current head is asked for.
    pub fn head(&self) -> (r: WorkspaceRef)
        ensures
            r@ == self@.reference,
    {
        self.reference.replicate()
    }

    /// Requires a deployment that reconciles sources.
    pub fn require_source_reconciliation(&self) -> (r: Result<(), HostedFsError>)
        ensures
            r == if self@.filesystem.capabilities.source_reconciliation {
                Ok::<(), HostedFsError>(())
            } else {
                Err(unreconciled())
            },
    {
        if self.filesystem.capabilities.source_reconciliation {
            Ok(())
        } else {
            Err(
                HostedFsError::InvalidOptions(
                    "hosted deployment does not support source reconciliation",
                ),
            )
        }
    }

    /// Asks for the current provider-backed source lifecycle state.
    pub fn source_state(&self) -> (r: Result<WorkspaceRef, HostedFsError>)
        ensures
            if self@.filesystem.capabilities.source_reconciliation {
                r is Ok && r->Ok_0@ == self@.reference
            } else {
                r == Err::<WorkspaceRef, HostedFsError>(unreconciled())
            },
    {
        match self.require_source_reconciliation() {
            Ok(()) => Ok(self.reference.replicate()),
            Err(error) => Err(error),
        }
    }

    fn source_operation(&self, idempotency_key: IdempotencyKey) -> (r: Result<
        WorkspaceOperation,
        HostedFsError,
    >)
        ensures
            if self@.filesystem.capabilities.source_reconciliation {
                r is Ok && r->Ok_0@ == (WorkspaceOperationView {
                    workspace: self@.reference,
                    operation: operation_of(idempotency_key),
                })
            } else {
                r == Err::<WorkspaceOperation, HostedFsError>(unreconciled())
            },
    {
        match self.require_source_reconciliation() {
            Ok(()) => Ok(self.delete(idempotency_key)),
            Err(error) => Err(error),
        }
    }

    /// Reconciles pending provider events with exactly idempotent retry.
    pub fn reconcile_source(&self, idempotency_key: IdempotencyKey) -> (r: Result<
        WorkspaceOperation,
        HostedFsError,
    >)
        ensures
            if self@.filesystem.capabilities.source_reconciliation {
                r is Ok && r->Ok_0@ == (WorkspaceOperationView {
                    workspace: self@.reference,
                    operation: operation_of(idempotency_key),
                })
            } else {
                r == Err::<WorkspaceOperation, HostedFsError>(unreconciled())
            },
    {
        self.source_operation(idempotency_key)
    }

    /// Rebuilds provider state from an authoritative source scan.
    pub fn rescan_source(&self, idempotency_key: IdempotencyKey) -> (r: Result<
        WorkspaceOperation,
        HostedFsError,
    >)
        ensures
            if self@.filesystem.capabilities.source_reconciliation {
                r is Ok && r->Ok_0@ == (WorkspaceOperationView {
                    workspace: self@.reference,
                    operation: operation_of(idempotency_key),
                })
            } else {
                r == Err::<WorkspaceOperation, HostedFsError>(unreconciled())
            },
    {
        self.source_operation(idempotency_key)
    }

    /// Seals the provider-backed source.
    pub fn seal(&self, idempotency_key: IdempotencyKey) -> (r: Result<
        WorkspaceOperation,
        HostedFsError,
    >)
        ensures
            if self@.filesystem.capabilities.source_reconciliation {
                r is Ok && r->Ok_0@ == (WorkspaceOperationView {
                    workspace: self@.reference,
                    operation: operation_of(idempotency_key),
                })
            } else {
                r == Err::<WorkspaceOperation, HostedFsError>(unreconciled())
            },
    {
        self.source_operation(idempotency_key)
    }

    /// Takes the immutable generation out of the reply to a seal.
    pub fn sealed(&self, response: SourceResponse) -> (r: Result<HostedGeneration, HostedFsError>)
        ensures
            match source_problem(response@, self@.reference) {
                Some(problem) => r == Err::<HostedGeneration, HostedFsError>(problem),
                None => if response@.state != Some(WireSourceState::Sealed) {
                    r == Err::<HostedGeneration, HostedFsError>(
                        HostedFsError::InvalidResponse("seal did not return a sealed generation"),
                    )
                } else {
                    r is Ok && r->Ok_0@ == (HostedGenerationView {
                        workspace: self@,
                        reference: response@.generation->Some_0,
                    })
                },
            },
    {
        match self.source_result(&response) {
            Ok(result) => match result.state {
                HostedSourceState::Sealed => self.generation_handle(response.generation),
                _ => Err(HostedFsError::InvalidResponse("seal did not return a sealed generation")),
            },
            Err(error) => Err(error),
        }
    }

    /// Validates the reply to a source operation.
    pub fn source_result(&self, response: &SourceResponse) -> (r: Result<
        HostedSourceResult,
        HostedFsError,
    >)
        ensures
            match source_problem(response@, self@.reference) {
                Some(problem) => r == Err::<HostedSourceResult, HostedFsError>(problem),
                None => r is Ok && source_reported(response@, r->Ok_0),
            },
    {
        let reason = match response.reason {
            Some(reason) => invalidation(reason),
            None => {
                return Err(
                    HostedFsError::InvalidResponse("source invalidation reason is invalid"),
                );
            },
        };
        let state = match (response.state, reason) {
            (Some(WireSourceState::Clean), None) => HostedSourceState::Clean,
            (Some(WireSourceState::PendingCapture), None) => HostedSourceState::PendingCapture,
            (Some(WireSourceState::NeedsRescan), Some(reason)) => HostedSourceState::NeedsRescan(
                reason,
            ),
            (Some(WireSourceState::Conflict), None) => HostedSourceState::Conflict,
            (Some(WireSourceState::Sealed), None) => HostedSourceState::Sealed,
            _ => {
                return Err(HostedFsError::InvalidResponse("source state is invalid"));
            },
        };
        let carries = match state {
            HostedSourceState::Clean | HostedSourceState::Sealed => true,
            _ => false,
        };
        if carries != response.generation.is_some() {
            return Err(
                HostedFsError::InvalidResponse("source generation does not match its state"),
            );
        }
        let generation_id = match &response.generation {
            None => None,
            Some(generation) => {
                if let Err(error) = validate_generation(generation, &self.reference) {
                    return Err(error);
                }
                Some(GenerationId::new(digest_of(generation.generation_id.as_slice())))
            },
        };
        Ok(HostedSourceResult { state, generation_id })
    }

    /// Names one exact generation of this workspace.
    pub fn generation(&self, generation_id: Vec<u8>) -> (r: Result<GenerationRef, HostedFsError>)
        ensures
            if generation_id@.len() == GENERATION_ID_BYTES {
                r is Ok && r->Ok_0@ == (GenerationRefView {
                    workspace: Some(self@.reference),
                    generation_id: generation_id@,
                })
            } else {
                r == Err::<GenerationRef, HostedFsError>(
                    HostedFsError::InvalidResponse("generation identity has the wrong length"),
                )
            },
    {
        let selected = GenerationRef {
            workspace: Some(self.reference.replicate()),
            generation_id,
        };
        match validate_generation(&selected, &self.reference) {
            Ok(()) => Ok(selected),
            Err(error) => Err(error),
        }
    }

    /// Makes a handle from a generation named by the service.
    pub fn generation_handle(&self, value: Option<GenerationRef>) -> (r: Result<
        HostedGeneration,
        HostedFsError,
    >)
        ensures
            match value {
                None => r == Err::<HostedGeneration, HostedFsError>(
                    HostedFsError::InvalidResponse("generation is absent"),
                ),
                Some(reference) => match generation_problem(reference@, self@.reference) {
                    Some(problem) => r == Err::<HostedGeneration, HostedFsError>(problem),
                    None => r is Ok && r->Ok_0@ == (HostedGenerationView {
                        workspace: self@,
                        reference: reference@,
                    }),
                },
            },
    {
        let reference = match value {
            Some(reference) => reference,
            None => {
                return Err(HostedFsError::InvalidResponse("generation is absent"));
            },
        };
        match validate_generation(&reference, &self.reference) {
            Ok(()) => Ok(HostedGeneration { workspace: self.replicate(), reference }),
            Err(error) => Err(error),
        }
    }

    /// Deletes this workspace head with exactly idempotent retry.
    pub fn delete(&self, idempotency_key: IdempotencyKey) -> (r: WorkspaceOperation)
        ensures
            r@ == (WorkspaceOperationView {
                workspace: self@.reference,
                operation: operation_of(idempotency_key),
            }),
    {
        WorkspaceOperation {
            workspace: self.reference.replicate(),
            operation: operation(idempotency_key),
        }
    }

    /// Observation-safe rebases this fork using bounded history/change/conflict work.
    pub fn rebase(
        &self,
        maximum_generations: u32,
        maximum_changes: u32,
        maximum_conflicts: u32,
        idempotency_key: IdempotencyKey,
    ) -> (r: Result<RebaseRequest, HostedFsError>)
        ensures
            match first_excess(
                seq![
                    self@.filesystem.admits_page(maximum_generations),
                    self@.filesystem.admits_page(maximum_changes),
                    self@.filesystem.admits_page(maximum_conflicts),
                ],
                seq!["rebase generations", "rebase changes", "rebase conflicts"],
            ) {
                Some(problem) => r == Err::<RebaseRequest, HostedFsError>(problem),
                None => r is Ok && r->Ok_0@ == (RebaseRequestView {
                    workspace: self@.reference,
                    maximum_conflicts,
                    operation: operation_of(idempotency_key),
                    maximum_generations,
                    maximum_changes,
                }),
            },
    {
        proof {
            reveal_with_fuel(first_excess, 4);
        }
        if let Err(error) = self.filesystem.require_page_bound(
            maximum_generations,
            "rebase generations",
        ) {
            return Err(error);
        }
        if let Err(error) = self.filesystem.require_page_bound(maximum_changes, "rebase changes") {
            return Err(error);
        }
        if let Err(error) = self.filesystem.require_page_bound(
            maximum_conflicts,
            "rebase conflicts",
        ) {
            return Err(error);
        }
        Ok(
            RebaseRequest {
                workspace: self.reference.replicate(),
                maximum_conflicts,
                operation: operation(idempotency_key),
                maximum_generations,
                maximum_changes,
            },
        )
    }

    fn issue_credential(
        &self,
        generation: &HostedGeneration,
        writable: bool,
        expires_after_seconds: u64,
        idempotency_key: IdempotencyKey,
    ) -> (r: Result<CredentialRequest, HostedFsError>)
        ensures
            if self@.filesystem.owner != generation@.workspace.filesystem.owner {
                r == Err::<CredentialRequest, HostedFsError>(
                    HostedFsError::InvalidOptions("workspace belongs to another hosted client"),
                )
            } else {
                r is Ok && r->Ok_0@ == (CredentialRequestView {
                    workspace: self@.reference,
                    generation: generation@.reference,
                    writable,
                    expires_after_seconds,
                    operation: operation_of(idempotency_key),
                })
            },
    {
        if let Err(error) = self.filesystem.require_owner(&generation.workspace) {
            return Err(error);
        }
        Ok(
            CredentialRequest {
                workspace: self.reference.replicate(),
                generation: generation.reference.replicate(),
                writable,
                expires_after_seconds,
                operation: operation(idempotency_key),
            },
        )
    }

    /// Asks for a short-lived mount capability scoped to one exact generation.
    pub fn issue_mount_credential(
        &self,
        generation: &HostedGeneration,
        writable: bool,
        expires_after_seconds: u64,
        idempotency_key: IdempotencyKey,
    ) -> (r: Result<CredentialRequest, HostedFsError>)
        ensures
            if self@.filesystem.owner != generation@.workspace.filesystem.owner {
                r == Err::<CredentialRequest, HostedFsError>(
                    HostedFsError::InvalidOptions("workspace belongs to another hosted client"),
                )
            } else {
                r is Ok && r->Ok_0@ == (CredentialRequestView {
                    workspace: self@.reference,
                    generation: generation@.reference,
                    writable,
                    expires_after_seconds,
                    operation: operation_of(idempotency_key),
                })
            },
    {
        self.issue_credential(generation, writable, expires_after_seconds, idempotency_key)
    }

    /// Asks for short-lived S3 credentials scoped to one exact generation.
    pub fn issue_s3_credential(
        &self,
        generation: &HostedGeneration,
        writable: bool,
        expires_after_seconds: u64,
        idempotency_key: IdempotencyKey,
    ) -> (r: Result<CredentialRequest, HostedFsError>)
        ensures
            if self@.filesystem.owner != generation@.workspace.filesystem.owner {
                r == Err::<CredentialRequest, HostedFsError>(
                    HostedFsError::InvalidOptions("workspace belongs to another hosted client"),
                )
            } else {
                r is Ok && r->Ok_0@ == (CredentialRequestView {
                    workspace: self@.reference,
                    generation: generation@.reference,
                    writable,
                    expires_after_seconds,
                    operation: operation_of(idempotency_key),
                })
            },
    {
        self.issue_credential(generation, writable, expires_after_seconds, idempotency_key)
    }

    /// Requires a deployment that issues S3 credentials.
    pub fn require_s3(&self) -> (r: Result<(), HostedFsError>)
        ensures
            r == if self@.filesystem.capabilities.s3_credentials {
                Ok::<(), HostedFsError>(())
            } else {
                Err(
                    HostedFsError::InvalidOptions(
                        "hosted deployment does not support S3 credentials",
                    ),
                )
            },
    {
        if self.filesystem.capabilities.s3_credentials {
            Ok(())
        } else {
            Err(HostedFsError::InvalidOptions("hosted deployment does not support S3 credentials"))
        }
    }

    /// Asks for S3 access to one exact generation with explicit scope, lifetime and
    /// retry identity.
    pub fn s3_access_with_options(
        &self,
        generation: &HostedGeneration,
        options: HostedS3AccessOptions,
    ) -> (r: Result<CredentialRequest, HostedFsError>)
        ensures
            if !self@.filesystem.capabilities.s3_credentials {
                r == Err::<CredentialRequest, HostedFsError>(
                    HostedFsError::InvalidOptions(
                        "hosted deployment does not support S3 credentials",
                    ),
                )
            } else if self@.filesystem.owner != generation@.workspace.filesystem.owner {
                r == Err::<CredentialRequest, HostedFsError>(
                    HostedFsError::InvalidOptions("workspace belongs to another hosted client"),
                )
            } else {
                r is Ok && r->Ok_0@ == (CredentialRequestView {
                    workspace: self@.reference,
                    generation: generation@.reference,
                    writable: options.writable,
                    expires_after_seconds: options.expires_after_seconds,
                    operation: operation_of(options.idempotency_key),
                })
            },
    {
        if let Err(error) = self.require_s3() {
            return Err(error);
        }
        self.issue_s3_credential(
            generation,
            options.writable,
            options.expires_after_seconds,
            options.idempotency_key,
        )
    }
}

impl HostedGeneration {
    /// Exact 32-byte generation identity.
    pub fn id(&self) -> (r: &[u8])
        ensures
            r@ == self@.reference.generation_id,
    {
        self.reference.generation_id.as_slice()
    }

    /// Reads a bounded byte range without materializing unrelated extents.
    pub fn read_range(&self, path: String, offset: u64, length: u64, maximum_bytes: u64) -> (r:
        Result<ReadRequest, HostedFsError>)
        ensures
            if self@.workspace.filesystem.admits_response(maximum_bytes) {
                r is Ok && r->Ok_0@ == (ReadRequestView {
                    generation: self@.reference,
                    path: path@,
                    range: Some((ByteRange { offset, length })),
                    maximum_bytes,
                })
            } else {
                r == Err::<ReadRequest, HostedFsError>(HostedFsError::LimitExceeded("read bytes"))
            },
    {
        match self.workspace.filesystem.require_response_bound(maximum_bytes, "read bytes") {
            Err(error) => Err(error),
            Ok(()) => Ok(
                ReadRequest {
                    generation: self.reference.replicate(),
                    path,
                    range: Some(ByteRange { offset, length }),
                    maximum_bytes,
                },
            ),
        }
    }

    /// Reads one complete regular file up to an explicit maximum.
    pub fn read(&self, path: String, maximum_bytes: u64) -> (r: Result<ReadRequest, HostedFsError>)
        ensures
            if self@.workspace.filesystem.admits_response(maximum_bytes) {
                r is Ok && r->Ok_0@ == (ReadRequestView {
                    generation: self@.reference,
                    path: path@,
                    range: None,
                    maximum_bytes,
                })
            } else {
                r == Err::<ReadRequest, HostedFsError>(HostedFsError::LimitExceeded("read bytes"))
            },
    {
        match self.workspace.filesystem.require_response_bound(maximum_bytes, "read bytes") {
            Err(error) => Err(error),
            Ok(()) => Ok(
                ReadRequest {
                    generation: self.reference.replicate(),
                    path,
                    range: None,
                    maximum_bytes,
                },
            ),
        }
    }

    /// Asks for exact metadata of one path.
    pub fn stat(&self, path: String) -> (r: PathRequest)
        ensures
            r@ == (PathRequestView { generation: self@.reference, path: path@ }),
    {
        PathRequest { generation: self.reference.replicate(), path }
    }

    /// Lists one bounded directory page.
    pub fn list_directory(&self, path: String, after: Option<Vec<u8>>, maximum_items: u32) -> (r:
        Result<ListDirectoryRequest, HostedFsError>)
        ensures
            if self@.workspace.filesystem.admits_page(maximum_items) {
                r is Ok && r->Ok_0@ == (ListDirectoryRequestView {
                    generation: self@.reference,
                    path: path@,
                    maximum_items,
                    after: match after {
                        Some(name) => Some(name@),
                        None => None,
                    },
                })
            } else {
                r == Err::<ListDirectoryRequest, HostedFsError>(
                    HostedFsError::LimitExceeded("directory items"),
                )
            },
    {
        match self.workspace.filesystem.require_page_bound(maximum_items, "directory items") {
            Err(error) => Err(error),
            Ok(()) => Ok(
                ListDirectoryRequest {
                    generation: self.reference.replicate(),
                    path,
                    maximum_items,
                    after,
                },
            ),
        }
    }

    /// Reads a bounded symbolic-link target.
    pub fn read_symbolic_link(&self, path: String, maximum_bytes: u64) -> (r: Result<
        ReadLinkRequest,
        HostedFsError,
    >)
        ensures
            if self@.workspace.filesystem.admits_response(maximum_bytes) {
                r is Ok && r->Ok_0@ == (ReadLinkRequestView {
                    generation: self@.reference,
                    path: path@,
                    maximum_bytes,
                })
            } else {
                r == Err::<ReadLinkRequest, HostedFsError>(
                    HostedFsError::LimitExceeded("symbolic-link bytes"),
                )
            },
    {
        match self.workspace.filesystem.require_response_bound(
            maximum_bytes,
            "symbolic-link bytes",
        ) {
            Err(error) => Err(error),
            Ok(()) => Ok(
                ReadLinkRequest { generation: self.reference.replicate(), path, maximum_bytes },
            ),
        }
    }

    /// Plans only the sparse extents intersecting one requested range.
    pub fn plan_extents(&self, path: String, offset: u64, length: u64, maximum_extents: u32) -> (r:
        Result<PlanExtentsRequest, HostedFsError>)
        ensures
            if self@.workspace.filesystem.admits_page(maximum_extents) {
                r is Ok && r->Ok_0@ == (PlanExtentsRequestView {
                    generation: self@.reference,
                    path: path@,
                    range: ByteRange { offset, length },
                    maximum_extents,
                })
            } else {
                r == Err::<PlanExtentsRequest, HostedFsError>(
                    HostedFsError::LimitExceeded("extent items"),
                )
            },
    {
        match self.workspace.filesystem.require_page_bound(maximum_extents, "extent items") {
            Err(error) => Err(error),
            Ok(()) => Ok(
                PlanExtentsRequest {
                    generation: self.reference.replicate(),
                    path,
                    range: ByteRange { offset, length },
                    maximum_extents,
                },
            ),
        }
    }

    /// Computes a bounded semantic diff to another generation in this client.
    pub fn diff(&self, to: &HostedGeneration, maximum_changes: u32) -> (r: Result<
        DiffRequest,
        HostedFsError,
    >)
        ensures
            if self@.workspace.filesystem.owner != to@.workspace.filesystem.owner {
                r == Err::<DiffRequest, HostedFsError>(
                    HostedFsError::InvalidOptions("workspace belongs to another hosted client"),
                )
            } else if !self@.workspace.filesystem.admits_page(maximum_changes) {
                r == Err::<DiffRequest, HostedFsError>(
                    HostedFsError::LimitExceeded("diff changes"),
                )
            } else {
                r is Ok && r->Ok_0@ == (DiffRequestView {
                    from: self@.reference,
                    to: to@.reference,
                    maximum_changes,
                })
            },
    {
        if let Err(error) = self.workspace.filesystem.require_owner(&to.workspace) {
            return Err(error);
        }
        if let Err(error) = self.workspace.filesystem.require_page_bound(
            maximum_changes,
            "diff changes",
        ) {
            return Err(error);
        }
        Ok(
            DiffRequest {
                from: self.reference.replicate(),
                to: to.reference.replicate(),
                maximum_changes,
            },
        )
    }

    /// Plans a bounded merge/rebase/squash/cherry-pick into an exact target.
    pub fn plan_join(
        &self,
        target: &HostedGeneration,
        history: i32,
        maximum_generations: u32,
        maximum_changes: u32,
        maximum_conflicts: u32,
    ) -> (r: Result<PlanJoinRequest, HostedFsError>)
        ensures
            if self@.workspace.filesystem.owner != target@.workspace.filesystem.owner {
                r == Err::<PlanJoinRequest, HostedFsError>(
                    HostedFsError::InvalidOptions("workspace belongs to another hosted client"),
                )
            } else {
                match first_excess(
                    seq![
                        self@.workspace.filesystem.admits_page(maximum_generations),
                        self@.workspace.filesystem.admits_page(maximum_changes),
                        self@.workspace.filesystem.admits_page(maximum_conflicts),
                    ],
                    seq!["join generations", "join changes", "join conflicts"],
                ) {
                    Some(problem) => r == Err::<PlanJoinRequest, HostedFsError>(problem),
                    None => r is Ok && r->Ok_0@ == (PlanJoinRequestView {
                        source: self@.reference,
                        target: target@.reference,
                        maximum_changes,
                        maximum_conflicts,
                        maximum_generations,
                        history,
                    }),
                }
            },
    {
        proof {
            reveal_with_fuel(first_excess, 4);
        }
        if let Err(error) = self.workspace.filesystem.require_owner(&target.workspace) {
            return Err(error);
        }
        if let Err(error) = self.workspace.filesystem.require_page_bound(
            maximum_generations,
            "join generations",
        ) {
            return Err(error);
        }
        if let Err(error) = self.workspace.filesystem.require_page_bound(
            maximum_changes,
            "join changes",
        ) {
            return Err(error);
        }
        if let Err(error) = self.workspace.filesystem.require_page_bound(
            maximum_conflicts,
            "join conflicts",
        ) {
            return Err(error);
        }
        Ok(
            PlanJoinRequest {
                source: self.reference.replicate(),
                target: target.reference.replicate(),
                maximum_changes,
                maximum_conflicts,
                maximum_generations,
                history,
            },
        )
    }

    /// Streams one bounded canonical export without whole-generation buffering.
    pub fn export(&self, after: Vec<u8>, maximum_objects: u32, maximum_bytes: u64) -> (r: Result<
        ExportRequest,
        HostedFsError,
    >)
        ensures
            if !self@.workspace.filesystem.admits_page(maximum_objects) {
                r == Err::<ExportRequest, HostedFsError>(
                    HostedFsError::LimitExceeded("export objects"),
                )
            } else if !self@.workspace.filesystem.admits_response(maximum_bytes) {
                r == Err::<ExportRequest, HostedFsError>(
                    HostedFsError::LimitExceeded("export bytes"),
                )
            } else {
                r is Ok && r->Ok_0@ == (ExportRequestView {
                    generation: self@.reference,
                    after: after@,
                    maximum_objects,
                    maximum_bytes,
                })
            },
    {
        if let Err(error) = self.workspace.filesystem.require_page_bound(
            maximum_objects,
            "export objects",
        ) {
            return Err(error);
        }
        if let Err(error) = self.workspace.filesystem.require_response_bound(
            maximum_bytes,
            "export bytes",
        ) {
            return Err(error);
        }
        Ok(
            ExportRequest {
                generation: self.reference.replicate(),
                after,
                maximum_objects,
                maximum_bytes,
            },
        )
    }

    /// Forks this exact generation without copying its immutable closure.
    pub fn fork(&self, destination_name: String, idempotency_key: IdempotencyKey) -> (r:
        ForkWorkspaceRequest)
        ensures
            r@ == (ForkWorkspaceRequestView {
                source: self@.reference,
                destination_name: destination_name@,
                operation: operation_of(idempotency_key),
            }),
    {
        ForkWorkspaceRequest {
            source: self.reference.replicate(),
            destination_name,
            operation: operation(idempotency_key),
        }
    }

    fn retain(&self, identity: String, idempotency_key: IdempotencyKey) -> (r:
        RetainGenerationRequest)
        ensures
            r@ == (RetainGenerationRequestView {
                generation: self@.reference,
                identity: identity@,
                operation: operation_of(idempotency_key),
            }),
    {
        RetainGenerationRequest {
            generation: self.reference.replicate(),
            identity,
            operation: operation(idempotency_key),
        }
    }

    /// Retains this exact generation as a named checkpoint.
    pub fn checkpoint(&self, identity: String, idempotency_key: IdempotencyKey) -> (r:
        RetainGenerationRequest)
        ensures
            r@ == (RetainGenerationRequestView {
                generation: self@.reference,
                identity: identity@,
                operation: operation_of(idempotency_key),
            }),
    {
        self.retain(identity, idempotency_key)
    }

    /// Retains this exact generation as an opaque pin.
    pub fn pin(&self, identity: String, idempotency_key: IdempotencyKey) -> (r:
        RetainGenerationRequest)
        ensures
            r@ == (RetainGenerationRequestView {
                generation: self@.reference,
                identity: identity@,
                operation: operation_of(idempotency_key),
            }),
    {
        self.retain(identity, idempotency_key)
    }
}

/// Every generation that a workspace handle was made with, or that it names, belongs
/// to that workspace.
pub proof fn handles_keep_their_workspace(
    value: WireWorkspaceView,
    made: HostedWorkspaceView,
)
    requires
        workspace_problem(Some(value)) is None,
        made.reference == value.workspace->Some_0,
        made.head == value.head->Some_0,
    ensures
        made.reference.workspace_id.len() == WORKSPACE_ID_BYTES,
        generation_problem(made.head, made.reference) is None,
        made.head.workspace == Some(made.reference),
        made.head.generation_id.len() == GENERATION_ID_BYTES,
{
}

} // verus!
