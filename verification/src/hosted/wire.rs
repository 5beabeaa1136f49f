//! Messages exchanged with a hosted Filesystem service, as plain values.
//!
//! Numbers that name no known variant of an enumeration are held as `None`.

use crate::git::types::copy_all;
use crate::order::{replicate_all, views, Replicate};
use vstd::prelude::*;

verus! {

/// Filesystem profile selected by a service.
#[derive(Clone, Copy, Debug, PartialEq, Eq, Structural)]
pub enum WireProfile {
    /// No profile was selected.
    Unspecified,
    /// Portable semantics.
    Portable,
    /// POSIX semantics.
    Posix,
    /// Windows semantics.
    Windows,
    /// Browser semantics.
    Browser,
}

/// Lifecycle state that a service reports for a source.
#[derive(Clone, Copy, Debug, PartialEq, Eq, Structural)]
pub enum WireSourceState {
    /// No state was reported.
    Unspecified,
    /// The source is captured.
    Clean,
    /// Events await capture.
    PendingCapture,
    /// The source has to be scanned again.
    NeedsRescan,
    /// The source conflicts with authored state.
    Conflict,
    /// The source is sealed.
    Sealed,
}

/// Reason that a service reports for an invalidated source.
#[derive(Clone, Copy, Debug, PartialEq, Eq, Structural)]
pub enum SourceInvalidationReason {
    /// The source is not invalidated.
    Unspecified,
    /// No snapshot exists yet.
    InitialSnapshotRequired,
    /// Events were lost.
    QueueOverflow,
    /// The native watcher demands a scan.
    NativeRescanRequired,
    /// The watcher failed.
    BackendError,
    /// A path cannot be represented.
    UnrepresentablePath,
    /// A rename is ambiguous.
    AmbiguousRename,
    /// The root was replaced.
    RootChanged,
}

/// Byte range of one file.
#[derive(Clone, Copy, Debug, PartialEq, Eq, Structural)]
pub struct ByteRange {
    /// First byte.
    pub offset: u64,
    /// Number of bytes.
    pub length: u64,
}

/// Exact identity of one hosted workspace.
#[derive(Debug, PartialEq, Eq)]
pub struct WorkspaceRef {
    /// Opaque identity.
    pub workspace_id: Vec<u8>,
    /// Canonical name.
    pub name: String,
}

/// Abstract value of [`WorkspaceRef`].
#[verifier::ext_equal]
pub struct WorkspaceRefView {
    /// Opaque identity.
    pub workspace_id: Seq<u8>,
    /// Canonical name.
    pub name: Seq<char>,
}

impl View for WorkspaceRef {
    type V = WorkspaceRefView;

    open spec fn view(&self) -> WorkspaceRefView {
        WorkspaceRefView {
            workspace_id: self.workspace_id@,
            name: self.name@,
        }
    }
}

impl Replicate for WorkspaceRef {
    fn replicate(&self) -> (r: Self) {
        let r = WorkspaceRef {
            workspace_id: vstd::slice::slice_to_vec(self.workspace_id.as_slice()),
            name: self.name.clone(),
        };
        assert(r@ =~= self@);
        r
    }
}

impl Clone for WorkspaceRef {
    fn clone(&self) -> (r: Self)
        ensures
            r@ == self@,
    {
        self.replicate()
    }
}

/// Exact identity of one hosted generation.
#[derive(Debug, PartialEq, Eq)]
pub struct GenerationRef {
    /// Owning workspace.
    pub workspace: Option<WorkspaceRef>,
    /// Digest bytes.
    pub generation_id: Vec<u8>,
}

/// Abstract value of [`GenerationRef`].
#[verifier::ext_equal]
pub struct GenerationRefView {
    /// Owning workspace.
    pub workspace: Option<WorkspaceRefView>,
    /// Digest bytes.
    pub generation_id: Seq<u8>,
}

impl View for GenerationRef {
    type V = GenerationRefView;

    open spec fn view(&self) -> GenerationRefView {
        GenerationRefView {
            workspace: (match self.workspace { Some(inner) => Some(inner@), None => None }),
            generation_id: self.generation_id@,
        }
    }
}

impl Replicate for GenerationRef {
    fn replicate(&self) -> (r: Self) {
        let r = GenerationRef {
            workspace: (match &self.workspace { Some(inner) => Some(inner.replicate()), None => None }),
            generation_id: vstd::slice::slice_to_vec(self.generation_id.as_slice()),
        };
        assert(r@ =~= self@);
        r
    }
}

impl Clone for GenerationRef {
    fn clone(&self) -> (r: Self)
        ensures
            r@ == self@,
    {
        self.replicate()
    }
}

/// Workspace described by a service.
#[derive(Debug, PartialEq, Eq)]
pub struct WireWorkspace {
    /// Identity.
    pub workspace: Option<WorkspaceRef>,
    /// Profile selected at creation.
    pub profile: Option<WireProfile>,
    /// Current head.
    pub head: Option<GenerationRef>,
}

/// Abstract value of [`WireWorkspace`].
#[verifier::ext_equal]
pub struct WireWorkspaceView {
    /// Identity.
    pub workspace: Option<WorkspaceRefView>,
    /// Profile selected at creation.
    pub profile: Option<WireProfile>,
    /// Current head.
    pub head: Option<GenerationRefView>,
}

impl View for WireWorkspace {
    type V = WireWorkspaceView;

    open spec fn view(&self) -> WireWorkspaceView {
        WireWorkspaceView {
            workspace: (match self.workspace { Some(inner) => Some(inner@), None => None }),
            profile: self.profile,
            head: (match self.head { Some(inner) => Some(inner@), None => None }),
        }
    }
}

impl Replicate for WireWorkspace {
    fn replicate(&self) -> (r: Self) {
        let r = WireWorkspace {
            workspace: (match &self.workspace { Some(inner) => Some(inner.replicate()), None => None }),
            profile: self.profile,
            head: (match &self.head { Some(inner) => Some(inner.replicate()), None => None }),
        };
        assert(r@ =~= self@);
        r
    }
}

impl Clone for WireWorkspace {
    fn clone(&self) -> (r: Self)
        ensures
            r@ == self@,
    {
        self.replicate()
    }
}

/// Version and descriptor of a protocol.
#[derive(Debug, PartialEq, Eq)]
pub struct ProtocolIdentity {
    /// Protocol version.
    pub version: String,
    /// Digest of the protocol descriptor.
    pub descriptor_digest: String,
}

/// Abstract value of [`ProtocolIdentity`].
#[verifier::ext_equal]
pub struct ProtocolIdentityView {
    /// Protocol version.
    pub version: Seq<char>,
    /// Digest of the protocol descriptor.
    pub descriptor_digest: Seq<char>,
}

impl View for ProtocolIdentity {
    type V = ProtocolIdentityView;

    open spec fn view(&self) -> ProtocolIdentityView {
        ProtocolIdentityView {
            version: self.version@,
            descriptor_digest: self.descriptor_digest@,
        }
    }
}

impl Replicate for ProtocolIdentity {
    fn replicate(&self) -> (r: Self) {
        let r = ProtocolIdentity {
            version: self.version.clone(),
            descriptor_digest: self.descriptor_digest.clone(),
        };
        assert(r@ =~= self@);
        r
    }
}

impl Clone for ProtocolIdentity {
    fn clone(&self) -> (r: Self)
        ensures
            r@ == self@,
    {
        self.replicate()
    }
}

/// One versioned capability.
#[derive(Debug, PartialEq, Eq)]
pub struct Capability {
    /// Capability name.
    pub name: String,
    /// Capability version.
    pub version: String,
}

/// Abstract value of [`Capability`].
#[verifier::ext_equal]
pub struct CapabilityView {
    /// Capability name.
    pub name: Seq<char>,
    /// Capability version.
    pub version: Seq<char>,
}

impl View for Capability {
    type V = CapabilityView;

    open spec fn view(&self) -> CapabilityView {
        CapabilityView {
            name: self.name@,
            version: self.version@,
        }
    }
}

impl Replicate for Capability {
    fn replicate(&self) -> (r: Self) {
        let r = Capability {
            name: self.name.clone(),
            version: self.version.clone(),
        };
        assert(r@ =~= self@);
        r
    }
}

impl Clone for Capability {
    fn clone(&self) -> (r: Self)
        ensures
            r@ == self@,
    {
        self.replicate()
    }
}

/// What a client asks for in a handshake.
#[derive(Debug, PartialEq, Eq)]
pub struct HandshakeRequest {
    /// Protocol of the client.
    pub protocol: ProtocolIdentity,
    /// Capabilities that the client needs.
    pub required: Vec<Capability>,
}

/// Abstract value of [`HandshakeRequest`].
#[verifier::ext_equal]
pub struct HandshakeRequestView {
    /// Protocol of the client.
    pub protocol: ProtocolIdentityView,
    /// Capabilities that the client needs.
    pub required: Seq<CapabilityView>,
}

impl View for HandshakeRequest {
    type V = HandshakeRequestView;

    open spec fn view(&self) -> HandshakeRequestView {
        HandshakeRequestView {
            protocol: self.protocol@,
            required: views(self.required@),
        }
    }
}

impl Replicate for HandshakeRequest {
    fn replicate(&self) -> (r: Self) {
        let r = HandshakeRequest {
            protocol: self.protocol.replicate(),
            required: replicate_all(&self.required),
        };
        assert(r@ =~= self@);
        r
    }
}

impl Clone for HandshakeRequest {
    fn clone(&self) -> (r: Self)
        ensures
            r@ == self@,
    {
        self.replicate()
    }
}

/// Capabilities of one party.
#[derive(Debug, PartialEq, Eq)]
pub struct CapabilitySet {
    /// Every capability.
    pub capabilities: Vec<Capability>,
}

/// Abstract value of [`CapabilitySet`].
#[verifier::ext_equal]
pub struct CapabilitySetView {
    /// Every capability.
    pub capabilities: Seq<CapabilityView>,
}

impl View for CapabilitySet {
    type V = CapabilitySetView;

    open spec fn view(&self) -> CapabilitySetView {
        CapabilitySetView {
            capabilities: views(self.capabilities@),
        }
    }
}

impl Replicate for CapabilitySet {
    fn replicate(&self) -> (r: Self) {
        let r = CapabilitySet {
            capabilities: replicate_all(&self.capabilities),
        };
        assert(r@ =~= self@);
        r
    }
}

impl Clone for CapabilitySet {
    fn clone(&self) -> (r: Self)
        ensures
            r@ == self@,
    {
        self.replicate()
    }
}

/// Protocol part of a handshake reply.
#[derive(Debug, PartialEq, Eq)]
pub struct HarnessHandshake {
    /// Protocol of the service.
    pub protocol: Option<ProtocolIdentity>,
    /// Capabilities of the service.
    pub supported: Option<CapabilitySet>,
}

/// Abstract value of [`HarnessHandshake`].
#[verifier::ext_equal]
pub struct HarnessHandshakeView {
    /// Protocol of the service.
    pub protocol: Option<ProtocolIdentityView>,
    /// Capabilities of the service.
    pub supported: Option<CapabilitySetView>,
}

impl View for HarnessHandshake {
    type V = HarnessHandshakeView;

    open spec fn view(&self) -> HarnessHandshakeView {
        HarnessHandshakeView {
            protocol: (match self.protocol { Some(inner) => Some(inner@), None => None }),
            supported: (match self.supported { Some(inner) => Some(inner@), None => None }),
        }
    }
}

impl Replicate for HarnessHandshake {
    fn replicate(&self) -> (r: Self) {
        let r = HarnessHandshake {
            protocol: (match &self.protocol { Some(inner) => Some(inner.replicate()), None => None }),
            supported: (match &self.supported { Some(inner) => Some(inner.replicate()), None => None }),
        };
        assert(r@ =~= self@);
        r
    }
}

impl Clone for HarnessHandshake {
    fn clone(&self) -> (r: Self)
        ensures
            r@ == self@,
    {
        self.replicate()
    }
}

/// Limits and features of a hosted service.
#[derive(Debug, PartialEq, Eq)]
pub struct Capabilities {
    /// Version of the service contract.
    pub contract_version: String,
    /// Profiles that can be created.
    pub profiles: Vec<WireProfile>,
    /// Largest request.
    pub maximum_request_bytes: u64,
    /// Largest response payload.
    pub maximum_response_bytes: u64,
    /// Most mutations of one transaction.
    pub maximum_transaction_mutations: u32,
    /// Most items of one page.
    pub maximum_page_items: u32,
    /// Whether mount credentials are issued.
    pub native_mount_credentials: bool,
    /// Whether S3 credentials are issued.
    pub s3_credentials: bool,
    /// Whether sources are reconciled.
    pub source_reconciliation: bool,
}

/// Abstract value of [`Capabilities`].
#[verifier::ext_equal]
pub struct CapabilitiesView {
    /// Version of the service contract.
    pub contract_version: Seq<char>,
    /// Profiles that can be created.
    pub profiles: Seq<WireProfile>,
    /// Largest request.
    pub maximum_request_bytes: u64,
    /// Largest response payload.
    pub maximum_response_bytes: u64,
    /// Most mutations of one transaction.
    pub maximum_transaction_mutations: u32,
    /// Most items of one page.
    pub maximum_page_items: u32,
    /// Whether mount credentials are issued.
    pub native_mount_credentials: bool,
    /// Whether S3 credentials are issued.
    pub s3_credentials: bool,
    /// Whether sources are reconciled.
    pub source_reconciliation: bool,
}

impl View for Capabilities {
    type V = CapabilitiesView;

    open spec fn view(&self) -> CapabilitiesView {
        CapabilitiesView {
            contract_version: self.contract_version@,
            profiles: self.profiles@,
            maximum_request_bytes: self.maximum_request_bytes,
            maximum_response_bytes: self.maximum_response_bytes,
            maximum_transaction_mutations: self.maximum_transaction_mutations,
            maximum_page_items: self.maximum_page_items,
            native_mount_credentials: self.native_mount_credentials,
            s3_credentials: self.s3_credentials,
            source_reconciliation: self.source_reconciliation,
        }
    }
}

impl Replicate for Capabilities {
    fn replicate(&self) -> (r: Self) {
        let r = Capabilities {
            contract_version: self.contract_version.clone(),
            profiles: copy_all(self.profiles.as_slice()),
            maximum_request_bytes: self.maximum_request_bytes,
            maximum_response_bytes: self.maximum_response_bytes,
            maximum_transaction_mutations: self.maximum_transaction_mutations,
            maximum_page_items: self.maximum_page_items,
            native_mount_credentials: self.native_mount_credentials,
            s3_credentials: self.s3_credentials,
            source_reconciliation: self.source_reconciliation,
        };
        assert(r@ =~= self@);
        r
    }
}

impl Clone for Capabilities {
    fn clone(&self) -> (r: Self)
        ensures
            r@ == self@,
    {
        self.replicate()
    }
}

/// Reply to a handshake.
#[derive(Debug, PartialEq, Eq)]
pub struct HandshakeResponse {
    /// Protocol part.
    pub harness: Option<HarnessHandshake>,
    /// Filesystem part.
    pub capabilities: Option<Capabilities>,
}

/// Abstract value of [`HandshakeResponse`].
#[verifier::ext_equal]
pub struct HandshakeResponseView {
    /// Protocol part.
    pub harness: Option<HarnessHandshakeView>,
    /// Filesystem part.
    pub capabilities: Option<CapabilitiesView>,
}

impl View for HandshakeResponse {
    type V = HandshakeResponseView;

    open spec fn view(&self) -> HandshakeResponseView {
        HandshakeResponseView {
            harness: (match self.harness { Some(inner) => Some(inner@), None => None }),
            capabilities: (match self.capabilities { Some(inner) => Some(inner@), None => None }),
        }
    }
}

impl Replicate for HandshakeResponse {
    fn replicate(&self) -> (r: Self) {
        let r = HandshakeResponse {
            harness: (match &self.harness { Some(inner) => Some(inner.replicate()), None => None }),
            capabilities: (match &self.capabilities { Some(inner) => Some(inner.replicate()), None => None }),
        };
        assert(r@ =~= self@);
        r
    }
}

impl Clone for HandshakeResponse {
    fn clone(&self) -> (r: Self)
        ensures
            r@ == self@,
    {
        self.replicate()
    }
}

/// Temporary S3 credential.
#[derive(PartialEq, Eq)]
pub struct S3Credential {
    /// Bucket.
    pub bucket: String,
    /// Region.
    pub region: String,
    /// Access-key identifier.
    pub access_key_id: String,
    /// Secret access key.
    pub secret_access_key: String,
    /// Session token.
    pub session_token: String,
}

/// Abstract value of [`S3Credential`].
#[verifier::ext_equal]
pub struct S3CredentialView {
    /// Bucket.
    pub bucket: Seq<char>,
    /// Region.
    pub region: Seq<char>,
    /// Access-key identifier.
    pub access_key_id: Seq<char>,
    /// Secret access key.
    pub secret_access_key: Seq<char>,
    /// Session token.
    pub session_token: Seq<char>,
}

impl View for S3Credential {
    type V = S3CredentialView;

    open spec fn view(&self) -> S3CredentialView {
        S3CredentialView {
            bucket: self.bucket@,
            region: self.region@,
            access_key_id: self.access_key_id@,
            secret_access_key: self.secret_access_key@,
            session_token: self.session_token@,
        }
    }
}

impl Replicate for S3Credential {
    fn replicate(&self) -> (r: Self) {
        let r = S3Credential {
            bucket: self.bucket.clone(),
            region: self.region.clone(),
            access_key_id: self.access_key_id.clone(),
            secret_access_key: self.secret_access_key.clone(),
            session_token: self.session_token.clone(),
        };
        assert(r@ =~= self@);
        r
    }
}

impl Clone for S3Credential {
    fn clone(&self) -> (r: Self)
        ensures
            r@ == self@,
    {
        self.replicate()
    }
}

/// Credential issued by a service.
#[allow(inconsistent_fields)]
#[derive(PartialEq, Eq)]
pub enum Credential {
    /// Bearer token of a mount.
    BearerToken(String),
    /// S3 credential.
    S3(S3Credential),
}

/// Abstract value of [`Credential`].
#[allow(inconsistent_fields)]
#[verifier::ext_equal]
pub enum CredentialView {
    /// Bearer token of a mount.
    BearerToken(Seq<char>),
    /// S3 credential.
    S3(S3CredentialView),
}

impl View for Credential {
    type V = CredentialView;

    open spec fn view(&self) -> CredentialView {
        match self {
            Credential::BearerToken(value) => CredentialView::BearerToken(value@),
            Credential::S3(value) => CredentialView::S3(value@),
        }
    }
}

impl Replicate for Credential {
    fn replicate(&self) -> (r: Self) {
        let r = match self {
            Credential::BearerToken(value) => Credential::BearerToken(value.clone()),
            Credential::S3(value) => Credential::S3(value.replicate()),
        };
        assert(r@ =~= self@);
        r
    }
}

impl Clone for Credential {
    fn clone(&self) -> (r: Self)
        ensures
            r@ == self@,
    {
        self.replicate()
    }
}

/// Reply to a request for a credential.
#[derive(PartialEq, Eq)]
pub struct CredentialResponse {
    /// Endpoint that accepts the credential.
    pub endpoint: String,
    /// Expiry time.
    pub expires_at_unix_seconds: i64,
    /// The credential.
    pub credential: Option<Credential>,
}

/// Abstract value of [`CredentialResponse`].
#[verifier::ext_equal]
pub struct CredentialResponseView {
    /// Endpoint that accepts the credential.
    pub endpoint: Seq<char>,
    /// Expiry time.
    pub expires_at_unix_seconds: i64,
    /// The credential.
    pub credential: Option<CredentialView>,
}

impl View for CredentialResponse {
    type V = CredentialResponseView;

    open spec fn view(&self) -> CredentialResponseView {
        CredentialResponseView {
            endpoint: self.endpoint@,
            expires_at_unix_seconds: self.expires_at_unix_seconds,
            credential: (match self.credential { Some(inner) => Some(inner@), None => None }),
        }
    }
}

impl Replicate for CredentialResponse {
    fn replicate(&self) -> (r: Self) {
        let r = CredentialResponse {
            endpoint: self.endpoint.clone(),
            expires_at_unix_seconds: self.expires_at_unix_seconds,
            credential: (match &self.credential { Some(inner) => Some(inner.replicate()), None => None }),
        };
        assert(r@ =~= self@);
        r
    }
}

impl Clone for CredentialResponse {
    fn clone(&self) -> (r: Self)
        ensures
            r@ == self@,
    {
        self.replicate()
    }
}

/// Reply to a source operation.
#[derive(Debug, PartialEq, Eq)]
pub struct SourceResponse {
    /// Reported state.
    pub state: Option<WireSourceState>,
    /// Reported reason.
    pub reason: Option<SourceInvalidationReason>,
    /// Captured generation.
    pub generation: Option<GenerationRef>,
}

/// Abstract value of [`SourceResponse`].
#[verifier::ext_equal]
pub struct SourceResponseView {
    /// Reported state.
    pub state: Option<WireSourceState>,
    /// Reported reason.
    pub reason: Option<SourceInvalidationReason>,
    /// Captured generation.
    pub generation: Option<GenerationRefView>,
}

impl View for SourceResponse {
    type V = SourceResponseView;

    open spec fn view(&self) -> SourceResponseView {
        SourceResponseView {
            state: self.state,
            reason: self.reason,
            generation: (match self.generation { Some(inner) => Some(inner@), None => None }),
        }
    }
}

impl Replicate for SourceResponse {
    fn replicate(&self) -> (r: Self) {
        let r = SourceResponse {
            state: self.state,
            reason: self.reason,
            generation: (match &self.generation { Some(inner) => Some(inner.replicate()), None => None }),
        };
        assert(r@ =~= self@);
        r
    }
}

impl Clone for SourceResponse {
    fn clone(&self) -> (r: Self)
        ensures
            r@ == self@,
    {
        self.replicate()
    }
}

/// Retry identity of one mutation.
#[derive(Debug, PartialEq, Eq)]
pub struct OperationOptions {
    /// Identity bytes.
    pub idempotency_key: Vec<u8>,
}

/// Abstract value of [`OperationOptions`].
#[verifier::ext_equal]
pub struct OperationOptionsView {
    /// Identity bytes.
    pub idempotency_key: Seq<u8>,
}

impl View for OperationOptions {
    type V = OperationOptionsView;

    open spec fn view(&self) -> OperationOptionsView {
        OperationOptionsView {
            idempotency_key: self.idempotency_key@,
        }
    }
}

impl Replicate for OperationOptions {
    fn replicate(&self) -> (r: Self) {
        let r = OperationOptions {
            idempotency_key: vstd::slice::slice_to_vec(self.idempotency_key.as_slice()),
        };
        assert(r@ =~= self@);
        r
    }
}

impl Clone for OperationOptions {
    fn clone(&self) -> (r: Self)
        ensures
            r@ == self@,
    {
        self.replicate()
    }
}

/// Creates a workspace.
#[derive(Debug, PartialEq, Eq)]
pub struct CreateWorkspaceRequest {
    /// Workspace name.
    pub name: String,
    /// Profile.
    pub profile: WireProfile,
    /// Retry identity.
    pub operation: OperationOptions,
}

/// Abstract value of [`CreateWorkspaceRequest`].
#[verifier::ext_equal]
pub struct CreateWorkspaceRequestView {
    /// Workspace name.
    pub name: Seq<char>,
    /// Profile.
    pub profile: WireProfile,
    /// Retry identity.
    pub operation: OperationOptionsView,
}

impl View for CreateWorkspaceRequest {
    type V = CreateWorkspaceRequestView;

    open spec fn view(&self) -> CreateWorkspaceRequestView {
        CreateWorkspaceRequestView {
            name: self.name@,
            profile: self.profile,
            operation: self.operation@,
        }
    }
}

impl Replicate for CreateWorkspaceRequest {
    fn replicate(&self) -> (r: Self) {
        let r = CreateWorkspaceRequest {
            name: self.name.clone(),
            profile: self.profile,
            operation: self.operation.replicate(),
        };
        assert(r@ =~= self@);
        r
    }
}

impl Clone for CreateWorkspaceRequest {
    fn clone(&self) -> (r: Self)
        ensures
            r@ == self@,
    {
        self.replicate()
    }
}

/// Names one operation of a workspace.
#[derive(Debug, PartialEq, Eq)]
pub struct OperationQuery {
    /// Workspace.
    pub workspace: WorkspaceRef,
    /// Operation identity.
    pub operation_id: Vec<u8>,
}

/// Abstract value of [`OperationQuery`].
#[verifier::ext_equal]
pub struct OperationQueryView {
    /// Workspace.
    pub workspace: WorkspaceRefView,
    /// Operation identity.
    pub operation_id: Seq<u8>,
}

impl View for OperationQuery {
    type V = OperationQueryView;

    open spec fn view(&self) -> OperationQueryView {
        OperationQueryView {
            workspace: self.workspace@,
            operation_id: self.operation_id@,
        }
    }
}

impl Replicate for OperationQuery {
    fn replicate(&self) -> (r: Self) {
        let r = OperationQuery {
            workspace: self.workspace.replicate(),
            operation_id: vstd::slice::slice_to_vec(self.operation_id.as_slice()),
        };
        assert(r@ =~= self@);
        r
    }
}

impl Clone for OperationQuery {
    fn clone(&self) -> (r: Self)
        ensures
            r@ == self@,
    {
        self.replicate()
    }
}

/// Applies an encoded join plan.
#[derive(Debug, PartialEq, Eq)]
pub struct ApplyJoinRequest {
    /// Encoded plan.
    pub plan: Vec<u8>,
    /// Retry identity.
    pub operation: OperationOptions,
}

/// Abstract value of [`ApplyJoinRequest`].
#[verifier::ext_equal]
pub struct ApplyJoinRequestView {
    /// Encoded plan.
    pub plan: Seq<u8>,
    /// Retry identity.
    pub operation: OperationOptionsView,
}

impl View for ApplyJoinRequest {
    type V = ApplyJoinRequestView;

    open spec fn view(&self) -> ApplyJoinRequestView {
        ApplyJoinRequestView {
            plan: self.plan@,
            operation: self.operation@,
        }
    }
}

impl Replicate for ApplyJoinRequest {
    fn replicate(&self) -> (r: Self) {
        let r = ApplyJoinRequest {
            plan: vstd::slice::slice_to_vec(self.plan.as_slice()),
            operation: self.operation.replicate(),
        };
        assert(r@ =~= self@);
        r
    }
}

impl Clone for ApplyJoinRequest {
    fn clone(&self) -> (r: Self)
        ensures
            r@ == self@,
    {
        self.replicate()
    }
}

/// One mutation of a whole workspace.
#[derive(Debug, PartialEq, Eq)]
pub struct WorkspaceOperation {
    /// Workspace.
    pub workspace: WorkspaceRef,
    /// Retry identity.
    pub operation: OperationOptions,
}

/// Abstract value of [`WorkspaceOperation`].
#[verifier::ext_equal]
pub struct WorkspaceOperationView {
    /// Workspace.
    pub workspace: WorkspaceRefView,
    /// Retry identity.
    pub operation: OperationOptionsView,
}

impl View for WorkspaceOperation {
    type V = WorkspaceOperationView;

    open spec fn view(&self) -> WorkspaceOperationView {
        WorkspaceOperationView {
            workspace: self.workspace@,
            operation: self.operation@,
        }
    }
}

impl Replicate for WorkspaceOperation {
    fn replicate(&self) -> (r: Self) {
        let r = WorkspaceOperation {
            workspace: self.workspace.replicate(),
            operation: self.operation.replicate(),
        };
        assert(r@ =~= self@);
        r
    }
}

impl Clone for WorkspaceOperation {
    fn clone(&self) -> (r: Self)
        ensures
            r@ == self@,
    {
        self.replicate()
    }
}

/// Rebases a fork.
#[derive(Debug, PartialEq, Eq)]
pub struct RebaseRequest {
    /// Workspace.
    pub workspace: WorkspaceRef,
    /// Conflict bound.
    pub maximum_conflicts: u32,
    /// Retry identity.
    pub operation: OperationOptions,
    /// History bound.
    pub maximum_generations: u32,
    /// Change bound.
    pub maximum_changes: u32,
}

/// Abstract value of [`RebaseRequest`].
#[verifier::ext_equal]
pub struct RebaseRequestView {
    /// Workspace.
    pub workspace: WorkspaceRefView,
    /// Conflict bound.
    pub maximum_conflicts: u32,
    /// Retry identity.
    pub operation: OperationOptionsView,
    /// History bound.
    pub maximum_generations: u32,
    /// Change bound.
    pub maximum_changes: u32,
}

impl View for RebaseRequest {
    type V = RebaseRequestView;

    open spec fn view(&self) -> RebaseRequestView {
        RebaseRequestView {
            workspace: self.workspace@,
            maximum_conflicts: self.maximum_conflicts,
            operation: self.operation@,
            maximum_generations: self.maximum_generations,
            maximum_changes: self.maximum_changes,
        }
    }
}

impl Replicate for RebaseRequest {
    fn replicate(&self) -> (r: Self) {
        let r = RebaseRequest {
            workspace: self.workspace.replicate(),
            maximum_conflicts: self.maximum_conflicts,
            operation: self.operation.replicate(),
            maximum_generations: self.maximum_generations,
            maximum_changes: self.maximum_changes,
        };
        assert(r@ =~= self@);
        r
    }
}

impl Clone for RebaseRequest {
    fn clone(&self) -> (r: Self)
        ensures
            r@ == self@,
    {
        self.replicate()
    }
}

/// Asks for a credential scoped to one generation.
#[derive(Debug, PartialEq, Eq)]
pub struct CredentialRequest {
    /// Workspace.
    pub workspace: WorkspaceRef,
    /// Generation.
    pub generation: GenerationRef,
    /// Whether mutations are allowed.
    pub writable: bool,
    /// Lifetime.
    pub expires_after_seconds: u64,
    /// Retry identity.
    pub operation: OperationOptions,
}

/// Abstract value of [`CredentialRequest`].
#[verifier::ext_equal]
pub struct CredentialRequestView {
    /// Workspace.
    pub workspace: WorkspaceRefView,
    /// Generation.
    pub generation: GenerationRefView,
    /// Whether mutations are allowed.
    pub writable: bool,
    /// Lifetime.
    pub expires_after_seconds: u64,
    /// Retry identity.
    pub operation: OperationOptionsView,
}

impl View for CredentialRequest {
    type V = CredentialRequestView;

    open spec fn view(&self) -> CredentialRequestView {
        CredentialRequestView {
            workspace: self.workspace@,
            generation: self.generation@,
            writable: self.writable,
            expires_after_seconds: self.expires_after_seconds,
            operation: self.operation@,
        }
    }
}

impl Replicate for CredentialRequest {
    fn replicate(&self) -> (r: Self) {
        let r = CredentialRequest {
            workspace: self.workspace.replicate(),
            generation: self.generation.replicate(),
            writable: self.writable,
            expires_after_seconds: self.expires_after_seconds,
            operation: self.operation.replicate(),
        };
        assert(r@ =~= self@);
        r
    }
}

impl Clone for CredentialRequest {
    fn clone(&self) -> (r: Self)
        ensures
            r@ == self@,
    {
        self.replicate()
    }
}

/// Reads file contents.
#[derive(Debug, PartialEq, Eq)]
pub struct ReadRequest {
    /// Generation.
    pub generation: GenerationRef,
    /// File path.
    pub path: String,
    /// Range, or the whole file.
    pub range: Option<ByteRange>,
    /// Response bound.
    pub maximum_bytes: u64,
}

/// Abstract value of [`ReadRequest`].
#[verifier::ext_equal]
pub struct ReadRequestView {
    /// Generation.
    pub generation: GenerationRefView,
    /// File path.
    pub path: Seq<char>,
    /// Range, or the whole file.
    pub range: Option<ByteRange>,
    /// Response bound.
    pub maximum_bytes: u64,
}

impl View for ReadRequest {
    type V = ReadRequestView;

    open spec fn view(&self) -> ReadRequestView {
        ReadRequestView {
            generation: self.generation@,
            path: self.path@,
            range: self.range,
            maximum_bytes: self.maximum_bytes,
        }
    }
}

impl Replicate for ReadRequest {
    fn replicate(&self) -> (r: Self) {
        let r = ReadRequest {
            generation: self.generation.replicate(),
            path: self.path.clone(),
            range: self.range,
            maximum_bytes: self.maximum_bytes,
        };
        assert(r@ =~= self@);
        r
    }
}

impl Clone for ReadRequest {
    fn clone(&self) -> (r: Self)
        ensures
            r@ == self@,
    {
        self.replicate()
    }
}

/// Names one path of a generation.
#[derive(Debug, PartialEq, Eq)]
pub struct PathRequest {
    /// Generation.
    pub generation: GenerationRef,
    /// Path.
    pub path: String,
}

/// Abstract value of [`PathRequest`].
#[verifier::ext_equal]
pub struct PathRequestView {
    /// Generation.
    pub generation: GenerationRefView,
    /// Path.
    pub path: Seq<char>,
}

impl View for PathRequest {
    type V = PathRequestView;

    open spec fn view(&self) -> PathRequestView {
        PathRequestView {
            generation: self.generation@,
            path: self.path@,
        }
    }
}

impl Replicate for PathRequest {
    fn replicate(&self) -> (r: Self) {
        let r = PathRequest {
            generation: self.generation.replicate(),
            path: self.path.clone(),
        };
        assert(r@ =~= self@);
        r
    }
}

impl Clone for PathRequest {
    fn clone(&self) -> (r: Self)
        ensures
            r@ == self@,
    {
        self.replicate()
    }
}

/// Lists one directory page.
#[derive(Debug, PartialEq, Eq)]
pub struct ListDirectoryRequest {
    /// Generation.
    pub generation: GenerationRef,
    /// Directory path.
    pub path: String,
    /// Page bound.
    pub maximum_items: u32,
    /// Encoded name after which the page starts.
    pub after: Option<Vec<u8>>,
}

/// Abstract value of [`ListDirectoryRequest`].
#[verifier::ext_equal]
pub struct ListDirectoryRequestView {
    /// Generation.
    pub generation: GenerationRefView,
    /// Directory path.
    pub path: Seq<char>,
    /// Page bound.
    pub maximum_items: u32,
    /// Encoded name after which the page starts.
    pub after: Option<Seq<u8>>,
}

impl View for ListDirectoryRequest {
    type V = ListDirectoryRequestView;

    open spec fn view(&self) -> ListDirectoryRequestView {
        ListDirectoryRequestView {
            generation: self.generation@,
            path: self.path@,
            maximum_items: self.maximum_items,
            after: (match self.after { Some(inner) => Some(inner@), None => None }),
        }
    }
}

impl Replicate for ListDirectoryRequest {
    fn replicate(&self) -> (r: Self) {
        let r = ListDirectoryRequest {
            generation: self.generation.replicate(),
            path: self.path.clone(),
            maximum_items: self.maximum_items,
            after: (match &self.after { Some(inner) => Some(vstd::slice::slice_to_vec(inner.as_slice())), None => None }),
        };
        assert(r@ =~= self@);
        r
    }
}

impl Clone for ListDirectoryRequest {
    fn clone(&self) -> (r: Self)
        ensures
            r@ == self@,
    {
        self.replicate()
    }
}

/// Reads a symbolic-link target.
#[derive(Debug, PartialEq, Eq)]
pub struct ReadLinkRequest {
    /// Generation.
    pub generation: GenerationRef,
    /// Link path.
    pub path: String,
    /// Response bound.
    pub maximum_bytes: u64,
}

/// Abstract value of [`ReadLinkRequest`].
#[verifier::ext_equal]
pub struct ReadLinkRequestView {
    /// Generation.
    pub generation: GenerationRefView,
    /// Link path.
    pub path: Seq<char>,
    /// Response bound.
    pub maximum_bytes: u64,
}

impl View for ReadLinkRequest {
    type V = ReadLinkRequestView;

    open spec fn view(&self) -> ReadLinkRequestView {
        ReadLinkRequestView {
            generation: self.generation@,
            path: self.path@,
            maximum_bytes: self.maximum_bytes,
        }
    }
}

impl Replicate for ReadLinkRequest {
    fn replicate(&self) -> (r: Self) {
        let r = ReadLinkRequest {
            generation: self.generation.replicate(),
            path: self.path.clone(),
            maximum_bytes: self.maximum_bytes,
        };
        assert(r@ =~= self@);
        r
    }
}

impl Clone for ReadLinkRequest {
    fn clone(&self) -> (r: Self)
        ensures
            r@ == self@,
    {
        self.replicate()
    }
}

/// Plans the extents of one range.
#[derive(Debug, PartialEq, Eq)]
pub struct PlanExtentsRequest {
    /// Generation.
    pub generation: GenerationRef,
    /// File path.
    pub path: String,
    /// Range.
    pub range: ByteRange,
    /// Extent bound.
    pub maximum_extents: u32,
}

/// Abstract value of [`PlanExtentsRequest`].
#[verifier::ext_equal]
pub struct PlanExtentsRequestView {
    /// Generation.
    pub generation: GenerationRefView,
    /// File path.
    pub path: Seq<char>,
    /// Range.
    pub range: ByteRange,
    /// Extent bound.
    pub maximum_extents: u32,
}

impl View for PlanExtentsRequest {
    type V = PlanExtentsRequestView;

    open spec fn view(&self) -> PlanExtentsRequestView {
        PlanExtentsRequestView {
            generation: self.generation@,
            path: self.path@,
            range: self.range,
            maximum_extents: self.maximum_extents,
        }
    }
}

impl Replicate for PlanExtentsRequest {
    fn replicate(&self) -> (r: Self) {
        let r = PlanExtentsRequest {
            generation: self.generation.replicate(),
            path: self.path.clone(),
            range: self.range,
            maximum_extents: self.maximum_extents,
        };
        assert(r@ =~= self@);
        r
    }
}

impl Clone for PlanExtentsRequest {
    fn clone(&self) -> (r: Self)
        ensures
            r@ == self@,
    {
        self.replicate()
    }
}

/// Compares two generations.
#[derive(Debug, PartialEq, Eq)]
pub struct DiffRequest {
    /// Old generation.
    pub from: GenerationRef,
    /// New generation.
    pub to: GenerationRef,
    /// Change bound.
    pub maximum_changes: u32,
}

/// Abstract value of [`DiffRequest`].
#[verifier::ext_equal]
pub struct DiffRequestView {
    /// Old generation.
    pub from: GenerationRefView,
    /// New generation.
    pub to: GenerationRefView,
    /// Change bound.
    pub maximum_changes: u32,
}

impl View for DiffRequest {
    type V = DiffRequestView;

    open spec fn view(&self) -> DiffRequestView {
        DiffRequestView {
            from: self.from@,
            to: self.to@,
            maximum_changes: self.maximum_changes,
        }
    }
}

impl Replicate for DiffRequest {
    fn replicate(&self) -> (r: Self) {
        let r = DiffRequest {
            from: self.from.replicate(),
            to: self.to.replicate(),
            maximum_changes: self.maximum_changes,
        };
        assert(r@ =~= self@);
        r
    }
}

impl Clone for DiffRequest {
    fn clone(&self) -> (r: Self)
        ensures
            r@ == self@,
    {
        self.replicate()
    }
}

/// Plans a join into a target.
#[derive(Debug, PartialEq, Eq)]
pub struct PlanJoinRequest {
    /// Source generation.
    pub source: GenerationRef,
    /// Target generation.
    pub target: GenerationRef,
    /// Change bound.
    pub maximum_changes: u32,
    /// Conflict bound.
    pub maximum_conflicts: u32,
    /// History bound.
    pub maximum_generations: u32,
    /// Number of the join history.
    pub history: i32,
}

/// Abstract value of [`PlanJoinRequest`].
#[verifier::ext_equal]
pub struct PlanJoinRequestView {
    /// Source generation.
    pub source: GenerationRefView,
    /// Target generation.
    pub target: GenerationRefView,
    /// Change bound.
    pub maximum_changes: u32,
    /// Conflict bound.
    pub maximum_conflicts: u32,
    /// History bound.
    pub maximum_generations: u32,
    /// Number of the join history.
    pub history: i32,
}

impl View for PlanJoinRequest {
    type V = PlanJoinRequestView;

    open spec fn view(&self) -> PlanJoinRequestView {
        PlanJoinRequestView {
            source: self.source@,
            target: self.target@,
            maximum_changes: self.maximum_changes,
            maximum_conflicts: self.maximum_conflicts,
            maximum_generations: self.maximum_generations,
            history: self.history,
        }
    }
}

impl Replicate for PlanJoinRequest {
    fn replicate(&self) -> (r: Self) {
        let r = PlanJoinRequest {
            source: self.source.replicate(),
            target: self.target.replicate(),
            maximum_changes: self.maximum_changes,
            maximum_conflicts: self.maximum_conflicts,
            maximum_generations: self.maximum_generations,
            history: self.history,
        };
        assert(r@ =~= self@);
        r
    }
}

impl Clone for PlanJoinRequest {
    fn clone(&self) -> (r: Self)
        ensures
            r@ == self@,
    {
        self.replicate()
    }
}

/// Exports objects of a generation.
#[derive(Debug, PartialEq, Eq)]
pub struct ExportRequest {
    /// Generation.
    pub generation: GenerationRef,
    /// Cursor.
    pub after: Vec<u8>,
    /// Object bound.
    pub maximum_objects: u32,
    /// Response bound.
    pub maximum_bytes: u64,
}

/// Abstract value of [`ExportRequest`].
#[verifier::ext_equal]
pub struct ExportRequestView {
    /// Generation.
    pub generation: GenerationRefView,
    /// Cursor.
    pub after: Seq<u8>,
    /// Object bound.
    pub maximum_objects: u32,
    /// Response bound.
    pub maximum_bytes: u64,
}

impl View for ExportRequest {
    type V = ExportRequestView;

    open spec fn view(&self) -> ExportRequestView {
        ExportRequestView {
            generation: self.generation@,
            after: self.after@,
            maximum_objects: self.maximum_objects,
            maximum_bytes: self.maximum_bytes,
        }
    }
}

impl Replicate for ExportRequest {
    fn replicate(&self) -> (r: Self) {
        let r = ExportRequest {
            generation: self.generation.replicate(),
            after: vstd::slice::slice_to_vec(self.after.as_slice()),
            maximum_objects: self.maximum_objects,
            maximum_bytes: self.maximum_bytes,
        };
        assert(r@ =~= self@);
        r
    }
}

impl Clone for ExportRequest {
    fn clone(&self) -> (r: Self)
        ensures
            r@ == self@,
    {
        self.replicate()
    }
}

/// Forks a generation.
#[derive(Debug, PartialEq, Eq)]
pub struct ForkWorkspaceRequest {
    /// Source generation.
    pub source: GenerationRef,
    /// Name of the fork.
    pub destination_name: String,
    /// Retry identity.
    pub operation: OperationOptions,
}

/// Abstract value of [`ForkWorkspaceRequest`].
#[verifier::ext_equal]
pub struct ForkWorkspaceRequestView {
    /// Source generation.
    pub source: GenerationRefView,
    /// Name of the fork.
    pub destination_name: Seq<char>,
    /// Retry identity.
    pub operation: OperationOptionsView,
}

impl View for ForkWorkspaceRequest {
    type V = ForkWorkspaceRequestView;

    open spec fn view(&self) -> ForkWorkspaceRequestView {
        ForkWorkspaceRequestView {
            source: self.source@,
            destination_name: self.destination_name@,
            operation: self.operation@,
        }
    }
}

impl Replicate for ForkWorkspaceRequest {
    fn replicate(&self) -> (r: Self) {
        let r = ForkWorkspaceRequest {
            source: self.source.replicate(),
            destination_name: self.destination_name.clone(),
            operation: self.operation.replicate(),
        };
        assert(r@ =~= self@);
        r
    }
}

impl Clone for ForkWorkspaceRequest {
    fn clone(&self) -> (r: Self)
        ensures
            r@ == self@,
    {
        self.replicate()
    }
}

/// Retains a generation.
#[derive(Debug, PartialEq, Eq)]
pub struct RetainGenerationRequest {
    /// Generation.
    pub generation: GenerationRef,
    /// Name of the retention.
    pub identity: String,
    /// Retry identity.
    pub operation: OperationOptions,
}

/// Abstract value of [`RetainGenerationRequest`].
#[verifier::ext_equal]
pub struct RetainGenerationRequestView {
    /// Generation.
    pub generation: GenerationRefView,
    /// Name of the retention.
    pub identity: Seq<char>,
    /// Retry identity.
    pub operation: OperationOptionsView,
}

impl View for RetainGenerationRequest {
    type V = RetainGenerationRequestView;

    open spec fn view(&self) -> RetainGenerationRequestView {
        RetainGenerationRequestView {
            generation: self.generation@,
            identity: self.identity@,
            operation: self.operation@,
        }
    }
}

impl Replicate for RetainGenerationRequest {
    fn replicate(&self) -> (r: Self) {
        let r = RetainGenerationRequest {
            generation: self.generation.replicate(),
            identity: self.identity.clone(),
            operation: self.operation.replicate(),
        };
        assert(r@ =~= self@);
        r
    }
}

impl Clone for RetainGenerationRequest {
    fn clone(&self) -> (r: Self)
        ensures
            r@ == self@,
    {
        self.replicate()
    }
}

/// One mutation of a transaction.
#[allow(inconsistent_fields)]
#[derive(Debug, PartialEq, Eq)]
pub enum Mutation {
    /// Creates a directory and its parents.
    CreateDirectories {
        /// Path.
        path: String,
    },
    /// Creates a regular file.
    CreateFile {
        /// Path.
        path: String,
        /// File contents.
        contents: Vec<u8>,
        /// Encoded metadata.
        metadata: Option<Vec<u8>>,
    },
    /// Creates a directory.
    CreateDirectory {
        /// Path.
        path: String,
        /// Encoded metadata.
        metadata: Option<Vec<u8>>,
    },
    /// Creates a symbolic link.
    CreateSymbolicLink {
        /// Path.
        path: String,
        /// Link target.
        target: Vec<u8>,
        /// Encoded metadata.
        metadata: Option<Vec<u8>>,
    },
    /// Creates or replaces a regular file.
    PutFile {
        /// Path.
        path: String,
        /// File contents.
        contents: Vec<u8>,
    },
    /// Removes a path.
    Remove {
        /// Path.
        path: String,
    },
    /// Renames a path.
    Rename {
        /// Source path.
        source: String,
        /// Destination path.
        destination: String,
        /// Whether the destination may exist.
        replace: bool,
    },
    /// Links a file again.
    HardLink {
        /// Source path.
        source: String,
        /// Destination path.
        destination: String,
    },
    /// Copies a file by reference.
    CopyFile {
        /// Source path.
        source: String,
        /// Destination path.
        destination: String,
    },
    /// Writes one range.
    Write {
        /// Path.
        path: String,
        /// First byte.
        offset: u64,
        /// File contents.
        contents: Vec<u8>,
    },
    /// Changes the length of a file.
    Resize {
        /// Path.
        path: String,
        /// New length.
        logical_bytes: u64,
    },
    /// Turns a range into zeros.
    ZeroRange {
        /// Path.
        path: String,
        /// Range.
        range: ByteRange,
        /// Whether zeros are allocated.
        allocated: bool,
        /// Whether the file may grow.
        extend: bool,
    },
    /// Allocates a range.
    Preallocate {
        /// Path.
        path: String,
        /// Range.
        range: ByteRange,
        /// Whether the length stays.
        keep_size: bool,
    },
    /// Shares a range of another file.
    CloneRange {
        /// Source path.
        source: String,
        /// First source byte.
        source_offset: u64,
        /// Destination path.
        destination: String,
        /// First destination byte.
        destination_offset: u64,
        /// Number of bytes.
        length: u64,
    },
    /// Replaces metadata.
    SetMetadata {
        /// Path.
        path: String,
        /// Encoded metadata.
        metadata: Vec<u8>,
    },
}

/// Abstract value of [`Mutation`].
#[allow(inconsistent_fields)]
#[verifier::ext_equal]
pub enum MutationView {
    /// Creates a directory and its parents.
    CreateDirectories {
        /// Path.
        path: Seq<char>,
    },
    /// Creates a regular file.
    CreateFile {
        /// Path.
        path: Seq<char>,
        /// File contents.
        contents: Seq<u8>,
        /// Encoded metadata.
        metadata: Option<Seq<u8>>,
    },
    /// Creates a directory.
    CreateDirectory {
        /// Path.
        path: Seq<char>,
        /// Encoded metadata.
        metadata: Option<Seq<u8>>,
    },
    /// Creates a symbolic link.
    CreateSymbolicLink {
        /// Path.
        path: Seq<char>,
        /// Link target.
        target: Seq<u8>,
        /// Encoded metadata.
        metadata: Option<Seq<u8>>,
    },
    /// Creates or replaces a regular file.
    PutFile {
        /// Path.
        path: Seq<char>,
        /// File contents.
        contents: Seq<u8>,
    },
    /// Removes a path.
    Remove {
        /// Path.
        path: Seq<char>,
    },
    /// Renames a path.
    Rename {
        /// Source path.
        source: Seq<char>,
        /// Destination path.
        destination: Seq<char>,
        /// Whether the destination may exist.
        replace: bool,
    },
    /// Links a file again.
    HardLink {
        /// Source path.
        source: Seq<char>,
        /// Destination path.
        destination: Seq<char>,
    },
    /// Copies a file by reference.
    CopyFile {
        /// Source path.
        source: Seq<char>,
        /// Destination path.
        destination: Seq<char>,
    },
    /// Writes one range.
    Write {
        /// Path.
        path: Seq<char>,
        /// First byte.
        offset: u64,
        /// File contents.
        contents: Seq<u8>,
    },
    /// Changes the length of a file.
    Resize {
        /// Path.
        path: Seq<char>,
        /// New length.
        logical_bytes: u64,
    },
    /// Turns a range into zeros.
    ZeroRange {
        /// Path.
        path: Seq<char>,
        /// Range.
        range: ByteRange,
        /// Whether zeros are allocated.
        allocated: bool,
        /// Whether the file may grow.
        extend: bool,
    },
    /// Allocates a range.
    Preallocate {
        /// Path.
        path: Seq<char>,
        /// Range.
        range: ByteRange,
        /// Whether the length stays.
        keep_size: bool,
    },
    /// Shares a range of another file.
    CloneRange {
        /// Source path.
        source: Seq<char>,
        /// First source byte.
        source_offset: u64,
        /// Destination path.
        destination: Seq<char>,
        /// First destination byte.
        destination_offset: u64,
        /// Number of bytes.
        length: u64,
    },
    /// Replaces metadata.
    SetMetadata {
        /// Path.
        path: Seq<char>,
        /// Encoded metadata.
        metadata: Seq<u8>,
    },
}

impl View for Mutation {
    type V = MutationView;

    open spec fn view(&self) -> MutationView {
        match self {
            Mutation::CreateDirectories { path } => MutationView::CreateDirectories {
                path: path@,
            },
            Mutation::CreateFile { path, contents, metadata } => MutationView::CreateFile {
                path: path@,
                contents: contents@,
                metadata: (match metadata { Some(inner) => Some(inner@), None => None }),
            },
            Mutation::CreateDirectory { path, metadata } => MutationView::CreateDirectory {
                path: path@,
                metadata: (match metadata { Some(inner) => Some(inner@), None => None }),
            },
            Mutation::CreateSymbolicLink { path, target, metadata } => MutationView::CreateSymbolicLink {
                path: path@,
                target: target@,
                metadata: (match metadata { Some(inner) => Some(inner@), None => None }),
            },
            Mutation::PutFile { path, contents } => MutationView::PutFile {
                path: path@,
                contents: contents@,
            },
            Mutation::Remove { path } => MutationView::Remove {
                path: path@,
            },
            Mutation::Rename { source, destination, replace } => MutationView::Rename {
                source: source@,
                destination: destination@,
                replace: *replace,
            },
            Mutation::HardLink { source, destination } => MutationView::HardLink {
                source: source@,
                destination: destination@,
            },
            Mutation::CopyFile { source, destination } => MutationView::CopyFile {
                source: source@,
                destination: destination@,
            },
            Mutation::Write { path, offset, contents } => MutationView::Write {
                path: path@,
                offset: *offset,
                contents: contents@,
            },
            Mutation::Resize { path, logical_bytes } => MutationView::Resize {
                path: path@,
                logical_bytes: *logical_bytes,
            },
            Mutation::ZeroRange { path, range, allocated, extend } => MutationView::ZeroRange {
                path: path@,
                range: *range,
                allocated: *allocated,
                extend: *extend,
            },
            Mutation::Preallocate { path, range, keep_size } => MutationView::Preallocate {
                path: path@,
                range: *range,
                keep_size: *keep_size,
            },
            Mutation::CloneRange { source, source_offset, destination, destination_offset, length } => MutationView::CloneRange {
                source: source@,
                source_offset: *source_offset,
                destination: destination@,
                destination_offset: *destination_offset,
                length: *length,
            },
            Mutation::SetMetadata { path, metadata } => MutationView::SetMetadata {
                path: path@,
                metadata: metadata@,
            },
        }
    }
}

impl Replicate for Mutation {
    fn replicate(&self) -> (r: Self) {
        let r = match self {
            Mutation::CreateDirectories { path } => Mutation::CreateDirectories {
                path: path.clone(),
            },
            Mutation::CreateFile { path, contents, metadata } => Mutation::CreateFile {
                path: path.clone(),
                contents: vstd::slice::slice_to_vec(contents.as_slice()),
                metadata: match metadata { Some(inner) => Some(vstd::slice::slice_to_vec(inner.as_slice())), None => None },
            },
            Mutation::CreateDirectory { path, metadata } => Mutation::CreateDirectory {
                path: path.clone(),
                metadata: match metadata { Some(inner) => Some(vstd::slice::slice_to_vec(inner.as_slice())), None => None },
            },
            Mutation::CreateSymbolicLink { path, target, metadata } => Mutation::CreateSymbolicLink {
                path: path.clone(),
                target: vstd::slice::slice_to_vec(target.as_slice()),
                metadata: match metadata { Some(inner) => Some(vstd::slice::slice_to_vec(inner.as_slice())), None => None },
            },
            Mutation::PutFile { path, contents } => Mutation::PutFile {
                path: path.clone(),
                contents: vstd::slice::slice_to_vec(contents.as_slice()),
            },
            Mutation::Remove { path } => Mutation::Remove {
                path: path.clone(),
            },
            Mutation::Rename { source, destination, replace } => Mutation::Rename {
                source: source.clone(),
                destination: destination.clone(),
                replace: *replace,
            },
            Mutation::HardLink { source, destination } => Mutation::HardLink {
                source: source.clone(),
                destination: destination.clone(),
            },
            Mutation::CopyFile { source, destination } => Mutation::CopyFile {
                source: source.clone(),
                destination: destination.clone(),
            },
            Mutation::Write { path, offset, contents } => Mutation::Write {
                path: path.clone(),
                offset: *offset,
                contents: vstd::slice::slice_to_vec(contents.as_slice()),
            },
            Mutation::Resize { path, logical_bytes } => Mutation::Resize {
                path: path.clone(),
                logical_bytes: *logical_bytes,
            },
            Mutation::ZeroRange { path, range, allocated, extend } => Mutation::ZeroRange {
                path: path.clone(),
                range: *range,
                allocated: *allocated,
                extend: *extend,
            },
            Mutation::Preallocate { path, range, keep_size } => Mutation::Preallocate {
                path: path.clone(),
                range: *range,
                keep_size: *keep_size,
            },
            Mutation::CloneRange { source, source_offset, destination, destination_offset, length } => Mutation::CloneRange {
                source: source.clone(),
                source_offset: *source_offset,
                destination: destination.clone(),
                destination_offset: *destination_offset,
                length: *length,
            },
            Mutation::SetMetadata { path, metadata } => Mutation::SetMetadata {
                path: path.clone(),
                metadata: vstd::slice::slice_to_vec(metadata.as_slice()),
            },
        };
        assert(r@ =~= self@);
        r
    }
}

impl Clone for Mutation {
    fn clone(&self) -> (r: Self)
        ensures
            r@ == self@,
    {
        self.replicate()
    }
}

/// Publishes or replays a transaction.
#[derive(Debug, PartialEq, Eq)]
pub struct ApplyTransactionRequest {
    /// Generation that the transaction started from.
    pub base: GenerationRef,
    /// Every mutation in order.
    pub mutations: Vec<Mutation>,
    /// Retry identity.
    pub operation: OperationOptions,
    /// Conflict bound.
    pub maximum_conflicts: u32,
}

/// Abstract value of [`ApplyTransactionRequest`].
#[verifier::ext_equal]
pub struct ApplyTransactionRequestView {
    /// Generation that the transaction started from.
    pub base: GenerationRefView,
    /// Every mutation in order.
    pub mutations: Seq<MutationView>,
    /// Retry identity.
    pub operation: OperationOptionsView,
    /// Conflict bound.
    pub maximum_conflicts: u32,
}

impl View for ApplyTransactionRequest {
    type V = ApplyTransactionRequestView;

    open spec fn view(&self) -> ApplyTransactionRequestView {
        ApplyTransactionRequestView {
            base: self.base@,
            mutations: views(self.mutations@),
            operation: self.operation@,
            maximum_conflicts: self.maximum_conflicts,
        }
    }
}

impl Replicate for ApplyTransactionRequest {
    fn replicate(&self) -> (r: Self) {
        let r = ApplyTransactionRequest {
            base: self.base.replicate(),
            mutations: replicate_all(&self.mutations),
            operation: self.operation.replicate(),
            maximum_conflicts: self.maximum_conflicts,
        };
        assert(r@ =~= self@);
        r
    }
}

impl Clone for ApplyTransactionRequest {
    fn clone(&self) -> (r: Self)
        ensures
            r@ == self@,
    {
        self.replicate()
    }
}

} // verus!
