//! What a client accepts of a service and of its own options.

use super::handles::{
    generation_problem, invalidation_of, source_problem, source_state_of, HostedSourceInvalidation,
    HostedSourceState,
};
use super::options::{
    digits_end_authority, endpoint_allowed, handshake_problem, negotiates, s3_problem,
    HostedFsOptions,
};
use super::transaction::HostedTransactionView;
use super::wire::{
    CapabilitiesView, CapabilityView, CredentialResponseView, CredentialView, GenerationRefView,
    HandshakeResponseView, S3CredentialView, SourceInvalidationReason, SourceResponseView,
    WireSourceState, WorkspaceRefView,
};
use vstd::prelude::*;
use vstd::string::*;

verus! {

/// Whether a text has digits alone up to an index, and there its end or the beginning of a
/// path, a query or a fragment.
pub open spec fn port_ends(text: Seq<char>, end: int) -> bool {
    &&& 0 <= end <= text.len()
    &&& end == text.len() || text[end] == '/' || text[end] == '?' || text[end] == '#'
    &&& forall|i: int| 0 <= i < end ==> '0' <= #[trigger] text[i] <= '9'
}

proof fn lemma_port(text: Seq<char>)
    ensures
        digits_end_authority(text) == exists|end: int| #[trigger] port_ends(text, end),
    decreases text.len(),
{
    if text.len() == 0 {
        assert(port_ends(text, 0));
    } else {
        let rest = text.skip(1);
        lemma_port(rest);
        if digits_end_authority(text) {
            if text[0] == '/' || text[0] == '?' || text[0] == '#' {
                assert(port_ends(text, 0));
            } else {
                let end = choose|end: int| #[trigger] port_ends(rest, end);
                assert(port_ends(text, end + 1)) by {
                    assert forall|i: int| 0 <= i < end + 1 implies '0' <= #[trigger] text[i]
                        <= '9' by {
                        if i > 0 {
                            assert(rest[i - 1] == text[i]);
                        }
                    }
                    if end < rest.len() {
                        assert(rest[end] == text[end + 1]);
                    }
                }
            }
        }
        if exists|end: int| #[trigger] port_ends(text, end) {
            let end = choose|end: int| #[trigger] port_ends(text, end);
            if end > 0 {
                assert('0' <= text[0] <= '9');
                assert(port_ends(rest, end - 1)) by {
                    assert forall|i: int| 0 <= i < end - 1 implies '0' <= #[trigger] rest[i]
                        <= '9' by {
                        assert(rest[i] == text[i + 1]);
                    }
                    if end < text.len() {
                        assert(rest[end - 1] == text[end]);
                    }
                }
            }
        }
    }
}

/// An endpoint is allowed under HTTPS, whatever it goes on with, and under plain HTTP on
/// this machine where it goes on with a port; never where something else stands in the
/// place of the port.
pub proof fn endpoints_are_secure_or_local(rest: Seq<char>)
    ensures
        endpoint_allowed("https://"@ + rest),
        (exists|end: int| #[trigger] port_ends(rest, end)) ==> endpoint_allowed(
            "http://127.0.0.1:"@ + rest,
        ) && endpoint_allowed("http://[::1]:"@ + rest) && endpoint_allowed(
            "http://localhost:"@ + rest,
        ),
        !(exists|end: int| #[trigger] port_ends(rest, end)) ==> !endpoint_allowed(
            "http://127.0.0.1:"@ + rest,
        ) && !endpoint_allowed("http://[::1]:"@ + rest) && !endpoint_allowed(
            "http://localhost:"@ + rest,
        ),
{
    reveal_strlit("https://");
    reveal_strlit("http://127.0.0.1:");
    reveal_strlit("http://[::1]:");
    reveal_strlit("http://localhost:");
    lemma_port(rest);
    let secure = "https://"@;
    let four = "http://127.0.0.1:"@;
    let six = "http://[::1]:"@;
    let named = "http://localhost:"@;
    assert((secure + rest).subrange(0, secure.len() as int) =~= secure);
    assert((four + rest).subrange(0, four.len() as int) =~= four);
    assert((six + rest).subrange(0, six.len() as int) =~= six);
    assert((named + rest).subrange(0, named.len() as int) =~= named);
    assert((four + rest).skip(four.len() as int) =~= rest);
    assert((six + rest).skip(six.len() as int) =~= rest);
    assert((named + rest).skip(named.len() as int) =~= rest);
    lemma_other_front(four, rest, secure, 4);
    lemma_other_front(four, rest, six, 7);
    lemma_other_front(four, rest, named, 7);
    lemma_other_front(six, rest, secure, 4);
    lemma_other_front(six, rest, four, 7);
    lemma_other_front(six, rest, named, 7);
    lemma_other_front(named, rest, secure, 4);
    lemma_other_front(named, rest, four, 7);
    lemma_other_front(named, rest, six, 7);
}

proof fn lemma_other_front(front: Seq<char>, rest: Seq<char>, other: Seq<char>, at: int)
    requires
        0 <= at < front.len(),
        at < other.len(),
        front[at] != other[at],
    ensures
        !other.is_prefix_of(front + rest),
{
    if other.is_prefix_of(front + rest) {
        assert((front + rest).subrange(0, other.len() as int)[at] == (front + rest)[at]);
    }
}

/// Options are accepted exactly where requests are bounded, responses admit the handshake,
/// there is a credential, a certificate is of an admitted size, and the endpoint is
/// allowed.
pub proof fn options_are_accepted_where_bounded(options: HostedFsOptions)
    ensures
        (options.problem() is None) == ({
            &&& options.maximum_request_bytes > 0
            &&& options.maximum_response_bytes >= super::options::MINIMUM_HANDSHAKE_RESPONSE_BYTES
            &&& options.bearer_token@.len() > 0
            &&& options.ca_certificate_pem matches Some(certificate) ==> 1 <= certificate@.len()
                <= super::options::MAX_CA_CERTIFICATE_BYTES
            &&& endpoint_allowed(options.endpoint@)
        }),
{
}

/// A handshake is accepted exactly where the service speaks the protocol of the client,
/// offers the filesystem, and bounds everything that it offers.
pub proof fn handshakes_are_accepted_where_agreed(
    response: HandshakeResponseView,
    descriptor_digest: Seq<char>,
)
    ensures
        (handshake_problem(response, descriptor_digest) is None) == ({
            &&& response.harness matches Some(harness) && (harness.protocol matches Some(protocol)
                && protocol.version == "1"@ && protocol.descriptor_digest == descriptor_digest)
                && (harness.supported matches Some(supported) && exists|i: int|
                0 <= i < supported.capabilities.len() && #[trigger] supported.capabilities[i] == (
                CapabilityView { name: "filesystem"@, version: "1"@ }))
            &&& response.capabilities matches Some(offered) && offered.contract_version == "1"@
                && offered.maximum_request_bytes > 0 && offered.maximum_response_bytes > 0
                && offered.maximum_transaction_mutations > 0 && offered.maximum_page_items > 0
        }),
{
    if let Some(harness) = response.harness {
        if let Some(supported) = harness.supported {
            let wanted = CapabilityView { name: "filesystem"@, version: "1"@ };
            if supported.capabilities.contains(wanted) {
                let i = supported.capabilities.index_of(wanted);
                assert(supported.capabilities[i] == wanted);
            }
        }
    }
}

/// What is agreed on is the smaller of what the service offers and what the client admits,
/// below the largest envelope for responses; everything else stays as offered.
pub proof fn agreements_take_the_smaller_limits(
    offered: CapabilitiesView,
    options: HostedFsOptions,
    agreed: CapabilitiesView,
)
    requires
        negotiates(offered, options, agreed),
    ensures
        agreed.maximum_request_bytes == offered.maximum_request_bytes
            || agreed.maximum_request_bytes == options.maximum_request_bytes,
        agreed.maximum_request_bytes <= offered.maximum_request_bytes
            && agreed.maximum_request_bytes <= options.maximum_request_bytes,
        agreed.maximum_response_bytes == offered.maximum_response_bytes
            || agreed.maximum_response_bytes + super::options::MAX_BYTE_RESPONSE_ENVELOPE_BYTES
            == options.maximum_response_bytes,
        agreed.maximum_response_bytes <= offered.maximum_response_bytes
            && agreed.maximum_response_bytes + super::options::MAX_BYTE_RESPONSE_ENVELOPE_BYTES
            <= options.maximum_response_bytes,
        agreed.maximum_page_items == offered.maximum_page_items,
        agreed.maximum_transaction_mutations == offered.maximum_transaction_mutations,
        agreed.s3_credentials == offered.s3_credentials,
        agreed.native_mount_credentials == offered.native_mount_credentials,
        agreed.source_reconciliation == offered.source_reconciliation,
{
}

/// A reply carries S3 access exactly where its credential is one and no part of it but the
/// session token is empty or expired.
pub proof fn complete_credentials_are_taken(
    response: CredentialResponseView,
    credential: S3CredentialView,
)
    ensures
        !(response.credential matches Some(CredentialView::S3(_))) ==> s3_problem(response) is Some,
        response.credential == Some(CredentialView::S3(credential)) ==> (s3_problem(response)
            is None) == (response.endpoint.len() > 0 && response.expires_at_unix_seconds > 0
            && credential.bucket.len() > 0 && credential.region.len() > 0
            && credential.access_key_id.len() > 0 && credential.secret_access_key.len() > 0),
{
}

/// A generation is one of a workspace exactly where its identity has its length and it
/// names that workspace.
pub proof fn generations_belong_to_their_workspace(
    generation: GenerationRefView,
    workspace: WorkspaceRefView,
)
    ensures
        (generation_problem(generation, workspace) is None) == (generation.generation_id.len() == 32
            && generation.workspace == Some(workspace)),
{
}

/// What a source reply says: a source that is clean, waits for a capture, is in conflict or
/// is sealed has no reason, one that needs a scan has one, and no two reasons are taken for
/// each other. A generation comes exactly with a source that is clean or sealed, and is one
/// of the workspace.
pub proof fn source_replies_are_consistent(
    response: SourceResponseView,
    workspace: WorkspaceRefView,
    a: SourceInvalidationReason,
    b: SourceInvalidationReason,
    reason: HostedSourceInvalidation,
)
    ensures
        invalidation_of(a) is None == (a == SourceInvalidationReason::Unspecified),
        invalidation_of(a) is Some && invalidation_of(a) == invalidation_of(b) ==> a == b,
        source_state_of(Some(WireSourceState::Clean), None) == Some(HostedSourceState::Clean),
        source_state_of(Some(WireSourceState::PendingCapture), None) == Some(
            HostedSourceState::PendingCapture,
        ),
        source_state_of(Some(WireSourceState::Conflict), None) == Some(HostedSourceState::Conflict),
        source_state_of(Some(WireSourceState::Sealed), None) == Some(HostedSourceState::Sealed),
        source_state_of(Some(WireSourceState::NeedsRescan), Some(reason)) == Some(
            HostedSourceState::NeedsRescan(reason),
        ),
        source_state_of(Some(WireSourceState::NeedsRescan), None) is None,
        source_state_of(Some(WireSourceState::Clean), Some(reason)) is None,
        source_state_of(Some(WireSourceState::Sealed), Some(reason)) is None,
        source_state_of(None, None) is None,
        source_problem(response, workspace) is None ==> ({
            let state = source_state_of(response.state, invalidation_of(response.reason->0));
            &&& response.reason is Some && state is Some
            &&& response.generation is Some == (state == Some(HostedSourceState::Clean) || state
                == Some(HostedSourceState::Sealed))
            &&& response.generation matches Some(generation) ==> generation.workspace == Some(
                workspace,
            ) && generation.generation_id.len() == 32
        }),
{
}

/// A transaction is sent exactly where its mutations and the conflicts that it asks for are
/// some and no more than negotiated, and carries its mutations in order.
pub proof fn transactions_are_sent_within_limits(
    transaction: HostedTransactionView,
    maximum_conflicts: u32,
)
    ensures
        (transaction.problem(maximum_conflicts) is None) == ({
            let limits = transaction.workspace.filesystem.capabilities;
            &&& 0 < transaction.mutations.len() <= limits.maximum_transaction_mutations
            &&& 0 < maximum_conflicts <= limits.maximum_page_items
        }),
        transaction.message(maximum_conflicts).mutations == transaction.mutations,
        transaction.message(maximum_conflicts).base == transaction.base,
        transaction.message(maximum_conflicts).maximum_conflicts == maximum_conflicts,
{
}

} // verus!
