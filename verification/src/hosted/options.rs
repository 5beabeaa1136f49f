//! Connection options and the handshake with a hosted service.

use super::wire::{
    Capabilities, CapabilitiesView, Capability, CapabilitySet, CapabilityView, Credential,
    CredentialResponse, CredentialResponseView, CredentialView, HandshakeRequest,
    HandshakeRequestView, HandshakeResponse, HandshakeResponseView, ProtocolIdentity,
    ProtocolIdentityView,
};
use crate::foundation::IdempotencyKey;
use crate::order::views;
use crate::text::{chars_of, has_prefix, text_is, text_pair};
use std::time::Duration;
use vstd::prelude::*;

verus! {

/// Largest caller-supplied PEM trust bundle accepted by the hosted constructor.
pub const MAX_CA_CERTIFICATE_BYTES: usize = 65536;

/// Smallest response bound that admits a handshake reply.
pub const MINIMUM_HANDSHAKE_RESPONSE_BYTES: usize = 512;

/// Bytes around the contents of the largest byte-bearing reply: an eight-byte
/// cursor, a 33-byte object identity, a terminal flag, tags and lengths.
pub const MAX_BYTE_RESPONSE_ENVELOPE_BYTES: u64 = 58;

/// Request and response bound of fresh options.
pub const DEFAULT_MESSAGE_BYTES: usize = 16777216;

/// Lifetime of S3 credentials that nobody chose.
pub const DEFAULT_S3_LIFETIME_SECONDS: u64 = 900;

/// The span of time that `Duration::from_secs` makes of whole seconds.
pub uninterp spec fn seconds_long(seconds: u64) -> Duration;

/// `Duration::from_secs` makes a span of time from whole seconds.
pub assume_specification[ Duration::from_secs ](seconds: u64) -> (r: Duration)
    ensures
        r == seconds_long(seconds),
;

/// A local validation or malformed-server failure.
#[derive(Clone, Copy, Debug, PartialEq, Eq)]
pub enum HostedFsError {
    /// Hosted options are empty, unbounded, or use an unsupported endpoint.
    InvalidOptions(&'static str),
    /// A caller-supplied semantic bound exceeds the negotiated service limit.
    LimitExceeded(&'static str),
    /// A successful response omitted or substituted required identity state.
    InvalidResponse(&'static str),
}

impl HostedFsError {
    /// Spelling of an error.
    pub open spec fn spelling(self) -> Seq<char> {
        match self {
            HostedFsError::InvalidOptions(reason) => "invalid hosted filesystem options: "@
                + reason@,
            HostedFsError::LimitExceeded(name) => {
                "hosted filesystem request exceeds negotiated limit: "@ + name@
            },
            HostedFsError::InvalidResponse(reason) => {
                "hosted filesystem returned an invalid response: "@ + reason@
            },
        }
    }

    /// Spells the error for a reader.
    pub fn message(&self) -> (r: String)
        ensures
            r@ == self.spelling(),
    {
        match self {
            HostedFsError::InvalidOptions(reason) => text_pair(
                "invalid hosted filesystem options: ",
                reason,
            ),
            HostedFsError::LimitExceeded(name) => text_pair(
                "hosted filesystem request exceeds negotiated limit: ",
                name,
            ),
            HostedFsError::InvalidResponse(reason) => text_pair(
                "hosted filesystem returned an invalid response: ",
                reason,
            ),
        }
    }
}

/// Connection and client-side response bounds for a hosted filesystem.
#[derive(PartialEq, Eq)]
pub struct HostedFsOptions {
    /// HTTPS endpoint of the hosted Filesystem service.
    pub endpoint: String,
    /// Opaque account-scoped bearer credential.
    pub bearer_token: String,
    /// Optional PEM CA bundle added to, rather than replacing, ambient roots.
    pub ca_certificate_pem: Option<Vec<u8>>,
    /// Maximum accepted encoded response size.
    pub maximum_response_bytes: usize,
    /// Maximum encoded request size sent by this client.
    pub maximum_request_bytes: usize,
    /// Connection deadline.
    pub connect_timeout: Duration,
    /// Per-request transport deadline.
    pub request_timeout: Duration,
}

/// What may be shown of [`HostedFsOptions`].
#[derive(Debug, PartialEq, Eq)]
pub struct ShownOptions {
    /// HTTPS endpoint of the hosted Filesystem service.
    pub endpoint: String,
    /// Stands for the credential.
    pub bearer_token: &'static str,
    /// Length of the CA bundle.
    pub ca_certificate_bytes: Option<usize>,
    /// Maximum accepted encoded response size.
    pub maximum_response_bytes: usize,
    /// Maximum encoded request size sent by this client.
    pub maximum_request_bytes: usize,
    /// Connection deadline.
    pub connect_timeout: Duration,
    /// Per-request transport deadline.
    pub request_timeout: Duration,
}

/// Whether an endpoint uses HTTPS.
pub open spec fn uses_https(endpoint: Seq<char>) -> bool {
    "https://"@.is_prefix_of(endpoint)
}

/// Whether a character ends the authority of an endpoint.
pub open spec fn ends_authority(c: char) -> bool {
    c == '/' || c == '?' || c == '#'
}

/// Whether the authority that a text begins with is only digits.
pub open spec fn digits_end_authority(text: Seq<char>) -> bool
    decreases text.len(),
{
    text.len() == 0 || ends_authority(text[0]) || ('0' <= text[0] <= '9' && digits_end_authority(
        text.skip(1),
    ))
}

/// Whether an endpoint begins with a host and goes on with its port alone.
pub open spec fn on_host(endpoint: Seq<char>, host: Seq<char>) -> bool {
    host.is_prefix_of(endpoint) && digits_end_authority(endpoint.skip(host.len() as int))
}

/// Whether an endpoint uses HTTPS, or plain HTTP on this machine.
pub open spec fn endpoint_allowed(endpoint: Seq<char>) -> bool {
    ||| uses_https(endpoint)
    ||| on_host(endpoint, "http://127.0.0.1:"@)
    ||| on_host(endpoint, "http://[::1]:"@)
    ||| on_host(endpoint, "http://localhost:"@)
}

impl HostedFsOptions {
    /// First objection to the options.
    pub open spec fn problem(self) -> Option<HostedFsError> {
        if self.maximum_request_bytes == 0 || self.maximum_response_bytes
            < MINIMUM_HANDSHAKE_RESPONSE_BYTES {
            Some(
                HostedFsError::InvalidOptions(
                    "request bound must be nonzero and response bound must admit the handshake",
                ),
            )
        } else if self.bearer_token@.len() == 0 {
            Some(HostedFsError::InvalidOptions("bearer credential must be nonempty"))
        } else if self.ca_certificate_pem is Some && !(1
            <= self.ca_certificate_pem->Some_0@.len() <= MAX_CA_CERTIFICATE_BYTES) {
            Some(HostedFsError::InvalidOptions("CA certificate must contain 1 to 65536 bytes"))
        } else if !endpoint_allowed(self.endpoint@) {
            Some(HostedFsError::InvalidOptions("endpoint must use HTTPS or loopback HTTP"))
        } else {
            None
        }
    }

    /// Creates bounded hosted options with conservative transport defaults.
    pub fn new(endpoint: String, bearer_token: String) -> (r: Self)
        ensures
            r.endpoint == endpoint,
            r.bearer_token == bearer_token,
            r.ca_certificate_pem is None,
            r.maximum_response_bytes == 16 * 1024 * 1024,
            r.maximum_request_bytes == 16 * 1024 * 1024,
            r.connect_timeout == seconds_long(10),
            r.request_timeout == seconds_long(30),
    {
        HostedFsOptions {
            endpoint,
            bearer_token,
            ca_certificate_pem: None,
            maximum_response_bytes: DEFAULT_MESSAGE_BYTES,
            maximum_request_bytes: DEFAULT_MESSAGE_BYTES,
            connect_timeout: Duration::from_secs(10),
            request_timeout: Duration::from_secs(30),
        }
    }

    /// Adds a caller-supplied private CA while retaining ambient roots.
    pub fn with_ca_certificate(self, certificate_pem: Vec<u8>) -> (r: Self)
        ensures
            r == (HostedFsOptions { ca_certificate_pem: Some(certificate_pem), ..self }),
    {
        HostedFsOptions {
            endpoint: self.endpoint,
            bearer_token: self.bearer_token,
            ca_certificate_pem: Some(certificate_pem),
            maximum_response_bytes: self.maximum_response_bytes,
            maximum_request_bytes: self.maximum_request_bytes,
            connect_timeout: self.connect_timeout,
            request_timeout: self.request_timeout,
        }
    }

    /// The options without the credential and the certificate bytes.
    pub fn shown(&self) -> (r: ShownOptions)
        ensures
            r.endpoint@ == self.endpoint@,
            r.bearer_token@ == "[REDACTED]"@,
            r.ca_certificate_bytes is Some == self.ca_certificate_pem is Some,
            r.ca_certificate_bytes matches Some(length) ==> length
                == self.ca_certificate_pem->Some_0@.len(),
            r.maximum_response_bytes == self.maximum_response_bytes,
            r.maximum_request_bytes == self.maximum_request_bytes,
            r.connect_timeout == self.connect_timeout,
            r.request_timeout == self.request_timeout,
    {
        ShownOptions {
            endpoint: self.endpoint.clone(),
            bearer_token: "[REDACTED]",
            ca_certificate_bytes: match &self.ca_certificate_pem {
                Some(certificate) => Some(certificate.len()),
                None => None,
            },
            maximum_response_bytes: self.maximum_response_bytes,
            maximum_request_bytes: self.maximum_request_bytes,
            connect_timeout: self.connect_timeout,
            request_timeout: self.request_timeout,
        }
    }

    /// Text of the authorization header of every request.
    pub fn authorization(&self) -> (r: String)
        ensures
            r@ == "Bearer "@ + self.bearer_token@,
    {
        text_pair("Bearer ", self.bearer_token.as_str())
    }
}

/// Tells whether an endpoint uses HTTPS.
pub fn is_https(endpoint: &str) -> (r: bool)
    ensures
        r == uses_https(endpoint@),
{
    has_prefix(chars_of(endpoint).as_slice(), chars_of("https://").as_slice())
}

/// Tells whether an endpoint begins with a host and goes on with its port alone.
fn is_on_host(endpoint: &[char], host: &[char]) -> (r: bool)
    ensures
        r == on_host(endpoint@, host@),
{
    if !has_prefix(endpoint, host) {
        return false;
    }
    let mut i: usize = host.len();
    while i < endpoint.len()
        invariant
            host@.len() <= i <= endpoint@.len(),
            host@.is_prefix_of(endpoint@),
            digits_end_authority(endpoint@.skip(host@.len() as int)) == digits_end_authority(
                endpoint@.skip(i as int),
            ),
        decreases endpoint@.len() - i,
    {
        let c = endpoint[i];
        assert(endpoint@.skip(i as int)[0] == c);
        assert(endpoint@.skip(i as int).skip(1) =~= endpoint@.skip(i + 1));
        if c == '/' || c == '?' || c == '#' {
            return true;
        }
        if !('0' <= c && c <= '9') {
            return false;
        }
        i = i + 1;
    }
    true
}

/// Rejects empty, unbounded, or unsupported hosted connection options before
/// any transport or credential is touched.
pub fn validate_hosted_options(options: &HostedFsOptions) -> (r: Result<(), HostedFsError>)
    ensures
        match options.problem() {
            Some(problem) => r == Err::<(), HostedFsError>(problem),
            None => r is Ok,
        },
{
    if options.maximum_request_bytes == 0 || options.maximum_response_bytes
        < MINIMUM_HANDSHAKE_RESPONSE_BYTES {
        return Err(
            HostedFsError::InvalidOptions(
                "request bound must be nonzero and response bound must admit the handshake",
            ),
        );
    }
    if options.bearer_token.as_str().is_empty() {
        return Err(HostedFsError::InvalidOptions("bearer credential must be nonempty"));
    }
    if let Some(certificate) = &options.ca_certificate_pem {
        if certificate.len() == 0 || certificate.len() > MAX_CA_CERTIFICATE_BYTES {
            return Err(
                HostedFsError::InvalidOptions("CA certificate must contain 1 to 65536 bytes"),
            );
        }
    }
    let endpoint = chars_of(options.endpoint.as_str());
    let allowed = has_prefix(endpoint.as_slice(), chars_of("https://").as_slice())
        || is_on_host(endpoint.as_slice(), chars_of("http://127.0.0.1:").as_slice())
        || is_on_host(endpoint.as_slice(), chars_of("http://[::1]:").as_slice())
        || is_on_host(endpoint.as_slice(), chars_of("http://localhost:").as_slice());
    if !allowed {
        return Err(HostedFsError::InvalidOptions("endpoint must use HTTPS or loopback HTTP"));
    }
    Ok(())
}

/// Takes the certificate that secures the transport, which only HTTPS can use.
pub fn transport_certificate(options: &HostedFsOptions) -> (r: Result<
    Option<&Vec<u8>>,
    HostedFsError,
>)
    ensures
        match options.ca_certificate_pem {
            None => r == Ok::<Option<&Vec<u8>>, HostedFsError>(None),
            Some(certificate) => if uses_https(options.endpoint@) {
                r is Ok && r->Ok_0 == Some(&certificate)
            } else {
                r == Err::<Option<&Vec<u8>>, HostedFsError>(
                    HostedFsError::InvalidOptions("CA certificate requires an HTTPS endpoint"),
                )
            },
        },
{
    match &options.ca_certificate_pem {
        None => Ok(None),
        Some(certificate) => if is_https(options.endpoint.as_str()) {
            Ok(Some(certificate))
        } else {
            Err(HostedFsError::InvalidOptions("CA certificate requires an HTTPS endpoint"))
        },
    }
}

/// The capability that a filesystem client needs.
pub open spec fn filesystem_capability() -> CapabilityView {
    CapabilityView { name: "filesystem"@, version: "1"@ }
}

/// The handshake that a client with the given protocol descriptor sends.
pub fn handshake_request(descriptor_digest: String) -> (r: HandshakeRequest)
    ensures
        r@ == (HandshakeRequestView {
            protocol: ProtocolIdentityView {
                version: "1"@,
                descriptor_digest: descriptor_digest@,
            },
            required: seq![filesystem_capability()],
        }),
{
    let mut required: Vec<Capability> = Vec::new();
    required.push(Capability { name: "filesystem".to_owned(), version: "1".to_owned() });
    let r = HandshakeRequest {
        protocol: ProtocolIdentity { version: "1".to_owned(), descriptor_digest },
        required,
    };
    assert(views(r.required@) =~= seq![filesystem_capability()]);
    r
}

/// First objection to a handshake reply.
pub open spec fn handshake_problem(
    response: HandshakeResponseView,
    descriptor_digest: Seq<char>,
) -> Option<HostedFsError> {
    if response.harness is None {
        Some(HostedFsError::InvalidResponse("handshake response is absent"))
    } else if response.harness->Some_0.protocol is None {
        Some(HostedFsError::InvalidResponse("handshake protocol is absent"))
    } else if response.harness->Some_0.protocol->Some_0.version != "1"@ {
        Some(HostedFsError::InvalidResponse("filesystem protocol version is unsupported"))
    } else if response.harness->Some_0.protocol->Some_0.descriptor_digest != descriptor_digest {
        Some(HostedFsError::InvalidResponse("filesystem descriptor digest does not match"))
    } else if response.harness->Some_0.supported is None {
        Some(HostedFsError::InvalidResponse("supported capabilities are absent"))
    } else if !response.harness->Some_0.supported->Some_0.capabilities.contains(
        filesystem_capability(),
    ) {
        Some(HostedFsError::InvalidResponse("filesystem capability version is unsupported"))
    } else if response.capabilities is None {
        Some(HostedFsError::InvalidResponse("filesystem capabilities are absent"))
    } else if response.capabilities->Some_0.contract_version != "1"@ {
        Some(HostedFsError::InvalidResponse("filesystem contract version is unsupported"))
    } else if !bounded(response.capabilities->Some_0) {
        Some(HostedFsError::InvalidResponse("filesystem capabilities contain an unbounded limit"))
    } else {
        None
    }
}

/// Whether every limit of a service is a bound.
pub open spec fn bounded(capabilities: CapabilitiesView) -> bool {
    &&& capabilities.maximum_request_bytes > 0
    &&& capabilities.maximum_response_bytes > 0
    &&& capabilities.maximum_transaction_mutations > 0
    &&& capabilities.maximum_page_items > 0
}

fn supports_filesystem(supported: &CapabilitySet) -> (r: bool)
    ensures
        r == supported@.capabilities.contains(filesystem_capability()),
{
    let ghost all = supported@.capabilities;
    let mut i: usize = 0;
    while i < supported.capabilities.len()
        invariant
            i <= supported.capabilities@.len(),
            all == supported@.capabilities,
            forall|j: int| 0 <= j < i ==> all[j] != filesystem_capability(),
        decreases supported.capabilities@.len() - i,
    {
        let capability = &supported.capabilities[i];
        assert(all[i as int] == capability@);
        if text_is(capability.name.as_str(), "filesystem") && text_is(
            capability.version.as_str(),
            "1",
        ) {
            assert(all[i as int] =~= filesystem_capability());
            return true;
        }
        i = i + 1;
    }
    false
}

/// Checks a handshake reply and returns the capabilities of the service.
pub fn validate_handshake(response: HandshakeResponse, descriptor_digest: &str) -> (r: Result<
    Capabilities,
    HostedFsError,
>)
    ensures
        match handshake_problem(response@, descriptor_digest@) {
            Some(problem) => r == Err::<Capabilities, HostedFsError>(problem),
            None => r is Ok && Some(r->Ok_0@) == response@.capabilities,
        },
{
    let handshake = match &response.harness {
        Some(handshake) => handshake,
        None => {
            return Err(HostedFsError::InvalidResponse("handshake response is absent"));
        },
    };
    let protocol = match &handshake.protocol {
        Some(protocol) => protocol,
        None => {
            return Err(HostedFsError::InvalidResponse("handshake protocol is absent"));
        },
    };
    if !text_is(protocol.version.as_str(), "1") {
        return Err(HostedFsError::InvalidResponse("filesystem protocol version is unsupported"));
    }
    if !text_is(protocol.descriptor_digest.as_str(), descriptor_digest) {
        return Err(HostedFsError::InvalidResponse("filesystem descriptor digest does not match"));
    }
    let supported = match &handshake.supported {
        Some(supported) => supported,
        None => {
            return Err(HostedFsError::InvalidResponse("supported capabilities are absent"));
        },
    };
    if !supports_filesystem(supported) {
        return Err(HostedFsError::InvalidResponse("filesystem capability version is unsupported"));
    }
    let capabilities = match response.capabilities {
        Some(capabilities) => capabilities,
        None => {
            return Err(HostedFsError::InvalidResponse("filesystem capabilities are absent"));
        },
    };
    if !text_is(capabilities.contract_version.as_str(), "1") {
        return Err(HostedFsError::InvalidResponse("filesystem contract version is unsupported"));
    }
    if capabilities.maximum_request_bytes == 0 || capabilities.maximum_response_bytes == 0
        || capabilities.maximum_transaction_mutations == 0 || capabilities.maximum_page_items == 0 {
        return Err(
            HostedFsError::InvalidResponse("filesystem capabilities contain an unbounded limit"),
        );
    }
    Ok(capabilities)
}

/// The smaller of two limits.
pub open spec fn smaller(a: u64, b: int) -> int {
    if a <= b {
        a as int
    } else {
        b
    }
}

/// Whether limits are those that a service and a client agree on.
///
/// The advertised response limit is payload, while the client bounds complete
/// messages, so the payload has to fit below the largest envelope.
pub open spec fn negotiates(
    offered: CapabilitiesView,
    options: HostedFsOptions,
    agreed: CapabilitiesView,
) -> bool {
    &&& agreed.maximum_request_bytes == smaller(
        offered.maximum_request_bytes,
        options.maximum_request_bytes as int,
    )
    &&& agreed.maximum_response_bytes == smaller(
        offered.maximum_response_bytes,
        options.maximum_response_bytes - MAX_BYTE_RESPONSE_ENVELOPE_BYTES,
    )
    &&& agreed == (CapabilitiesView {
        maximum_request_bytes: agreed.maximum_request_bytes,
        maximum_response_bytes: agreed.maximum_response_bytes,
        ..offered
    })
}

/// Narrows the limits of a service to those of the client.
pub fn negotiate(capabilities: Capabilities, options: &HostedFsOptions) -> (r: Capabilities)
    requires
        options.problem() is None,
    ensures
        negotiates(capabilities@, *options, r@),
{
    let mut r = capabilities;
    let request = options.maximum_request_bytes as u64;
    if request < r.maximum_request_bytes {
        r.maximum_request_bytes = request;
    }
    let response = options.maximum_response_bytes as u64 - MAX_BYTE_RESPONSE_ENVELOPE_BYTES;
    if response < r.maximum_response_bytes {
        r.maximum_response_bytes = response;
    }
    r
}

/// Limits agreed on with a service stay bounds, and no more than either party set.
pub proof fn agreed_limits_are_bounds(
    offered: CapabilitiesView,
    options: HostedFsOptions,
    agreed: CapabilitiesView,
)
    requires
        options.problem() is None,
        bounded(offered),
        negotiates(offered, options, agreed),
    ensures
        bounded(agreed),
        agreed.maximum_request_bytes <= offered.maximum_request_bytes,
        agreed.maximum_request_bytes <= options.maximum_request_bytes,
        agreed.maximum_response_bytes <= offered.maximum_response_bytes,
        agreed.maximum_response_bytes + MAX_BYTE_RESPONSE_ENVELOPE_BYTES
            <= options.maximum_response_bytes,
{
}

/// Validated short-lived S3 access scoped to one hosted workspace generation.
#[derive(PartialEq, Eq)]
pub struct HostedS3Access {
    /// S3-compatible service endpoint selected by the deployment.
    pub endpoint: String,
    /// Unix timestamp after which these credentials must not be used.
    pub expires_at_unix_seconds: i64,
    /// Deployment-selected bucket.
    pub bucket: String,
    /// Deployment-selected region.
    pub region: String,
    /// Temporary access-key identifier.
    pub access_key_id: String,
    /// Temporary secret access key.
    pub secret_access_key: String,
    /// Temporary session token.
    pub session_token: String,
}

/// What may be shown of [`HostedS3Access`].
#[derive(Debug, PartialEq, Eq)]
pub struct ShownS3Access {
    /// S3-compatible service endpoint selected by the deployment.
    pub endpoint: String,
    /// Unix timestamp after which these credentials must not be used.
    pub expires_at_unix_seconds: i64,
    /// Deployment-selected bucket.
    pub bucket: String,
    /// Deployment-selected region.
    pub region: String,
    /// Stands for the access-key identifier.
    pub access_key_id: &'static str,
    /// Stands for the secret access key.
    pub secret_access_key: &'static str,
    /// Stands for the session token.
    pub session_token: &'static str,
}

impl HostedS3Access {
    /// The access without its credentials.
    pub fn shown(&self) -> (r: ShownS3Access)
        ensures
            r.endpoint@ == self.endpoint@,
            r.expires_at_unix_seconds == self.expires_at_unix_seconds,
            r.bucket@ == self.bucket@,
            r.region@ == self.region@,
            r.access_key_id@ == "[REDACTED]"@,
            r.secret_access_key@ == "[REDACTED]"@,
            r.session_token@ == "[REDACTED]"@,
    {
        ShownS3Access {
            endpoint: self.endpoint.clone(),
            expires_at_unix_seconds: self.expires_at_unix_seconds,
            bucket: self.bucket.clone(),
            region: self.region.clone(),
            access_key_id: "[REDACTED]",
            secret_access_key: "[REDACTED]",
            session_token: "[REDACTED]",
        }
    }
}

/// Explicit controls for S3 access.
#[derive(Clone, Copy, Debug, PartialEq, Eq)]
pub struct HostedS3AccessOptions {
    /// Whether the scoped credentials may author mutations.
    pub writable: bool,
    /// Requested credential lifetime. The service applies its negotiated bound.
    pub expires_after_seconds: u64,
    /// Stable retry identity for ambiguous credential-issuance outcomes.
    pub idempotency_key: IdempotencyKey,
}

impl HostedS3AccessOptions {
    /// Read-only access with the default lifetime under a fresh retry identity.
    pub fn read_only(idempotency_key: IdempotencyKey) -> (r: Self)
        ensures
            r == (HostedS3AccessOptions {
                writable: false,
                expires_after_seconds: 900,
                idempotency_key,
            }),
    {
        HostedS3AccessOptions {
            writable: false,
            expires_after_seconds: DEFAULT_S3_LIFETIME_SECONDS,
            idempotency_key,
        }
    }
}

/// First objection to a reply that should carry S3 credentials.
pub open spec fn s3_problem(response: CredentialResponseView) -> Option<HostedFsError> {
    match response.credential {
        Some(CredentialView::S3(credential)) => if response.endpoint.len() == 0
            || response.expires_at_unix_seconds <= 0 || credential.bucket.len() == 0
            || credential.region.len() == 0 || credential.access_key_id.len() == 0
            || credential.secret_access_key.len() == 0 {
            Some(HostedFsError::InvalidResponse("S3 credential response is incomplete"))
        } else {
            None
        },
        _ => Some(
            HostedFsError::InvalidResponse("S3 credential response has the wrong credential kind"),
        ),
    }
}

/// Takes S3 access out of a reply.
pub fn hosted_s3_access(response: CredentialResponse) -> (r: Result<HostedS3Access, HostedFsError>)
    ensures
        match s3_problem(response@) {
            Some(problem) => r == Err::<HostedS3Access, HostedFsError>(problem),
            None => r matches Ok(access) && {
                let credential = response@.credential->Some_0->S3_0;
                &&& access.endpoint@ == response@.endpoint
                &&& access.expires_at_unix_seconds == response.expires_at_unix_seconds
                &&& access.bucket@ == credential.bucket
                &&& access.region@ == credential.region
                &&& access.access_key_id@ == credential.access_key_id
                &&& access.secret_access_key@ == credential.secret_access_key
                &&& access.session_token@ == credential.session_token
            },
        },
{
    let credential = match response.credential {
        Some(Credential::S3(credential)) => credential,
        _ => {
            return Err(
                HostedFsError::InvalidResponse(
                    "S3 credential response has the wrong credential kind",
                ),
            );
        },
    };
    if response.endpoint.as_str().is_empty() || response.expires_at_unix_seconds <= 0
        || credential.bucket.as_str().is_empty() || credential.region.as_str().is_empty()
        || credential.access_key_id.as_str().is_empty() || credential.secret_access_key.as_str().is_empty() {
        return Err(HostedFsError::InvalidResponse("S3 credential response is incomplete"));
    }
    Ok(
        HostedS3Access {
            endpoint: response.endpoint,
            expires_at_unix_seconds: response.expires_at_unix_seconds,
            bucket: credential.bucket,
            region: credential.region,
            access_key_id: credential.access_key_id,
            secret_access_key: credential.secret_access_key,
            session_token: credential.session_token,
        },
    )
}

} // verus!
