//! Stable identities shared by every layer.

use crate::order::{same_bytes, OrderKey, Replicate};
use vstd::prelude::*;

verus! {

/// A 32-byte content digest.
#[derive(Clone, Copy, Debug, Eq, PartialOrd, Ord, Hash)]
pub struct Digest {
    /// Canonical bytes.
    pub bytes: [u8; 32],
}

impl PartialEq for Digest {
    fn eq(&self, other: &Self) -> (r: bool) {
        broadcast use vstd::array::group_array_axioms;

        let r = same_bytes(self.bytes.as_slice(), other.bytes.as_slice());
        assert(r ==> self.bytes =~= other.bytes);
        r
    }
}

impl vstd::std_specs::cmp::PartialEqSpecImpl for Digest {
    open spec fn obeys_eq_spec() -> bool {
        true
    }

    open spec fn eq_spec(&self, other: &Self) -> bool {
        *self == *other
    }
}

impl View for Digest {
    type V = Digest;

    open spec fn view(&self) -> Digest {
        *self
    }
}

impl Replicate for Digest {
    fn replicate(&self) -> (r: Self) {
        *self
    }
}

impl OrderKey for Digest {
    open spec fn order_bytes(key: Digest) -> Seq<u8> {
        key.bytes@
    }

    proof fn order_bytes_injective(a: Digest, b: Digest) {
        broadcast use vstd::array::group_array_axioms;

        assert(a.bytes =~= b.bytes);
    }

    fn key_bytes(&self) -> (r: &[u8]) {
        self.bytes.as_slice()
    }
}

impl Digest {
    /// Restores an identity from its canonical bytes.
    pub fn from_bytes(bytes: [u8; 32]) -> (r: Self)
        ensures
            r.bytes == bytes,
    {
        Digest { bytes }
    }

    /// Returns the canonical bytes.
    pub fn into_bytes(self) -> (r: [u8; 32])
        ensures
            r == self.bytes,
    {
        self.bytes
    }

    /// Borrows the canonical bytes.
    pub fn as_bytes(&self) -> (r: &[u8; 32])
        ensures
            *r == self.bytes,
    {
        &self.bytes
    }
}

/// Stable identity of one file within a volume.
#[derive(Clone, Copy, Debug, Eq, PartialOrd, Ord, Hash)]
pub struct FileId {
    /// Canonical bytes.
    pub bytes: [u8; 16],
}

impl PartialEq for FileId {
    fn eq(&self, other: &Self) -> (r: bool) {
        broadcast use vstd::array::group_array_axioms;

        let r = same_bytes(self.bytes.as_slice(), other.bytes.as_slice());
        assert(r ==> self.bytes =~= other.bytes);
        r
    }
}

impl vstd::std_specs::cmp::PartialEqSpecImpl for FileId {
    open spec fn obeys_eq_spec() -> bool {
        true
    }

    open spec fn eq_spec(&self, other: &Self) -> bool {
        *self == *other
    }
}

impl View for FileId {
    type V = FileId;

    open spec fn view(&self) -> FileId {
        *self
    }
}

impl Replicate for FileId {
    fn replicate(&self) -> (r: Self) {
        *self
    }
}

impl OrderKey for FileId {
    open spec fn order_bytes(key: FileId) -> Seq<u8> {
        key.bytes@
    }

    proof fn order_bytes_injective(a: FileId, b: FileId) {
        broadcast use vstd::array::group_array_axioms;

        assert(a.bytes =~= b.bytes);
    }

    fn key_bytes(&self) -> (r: &[u8]) {
        self.bytes.as_slice()
    }
}

impl FileId {
    /// Restores an identity from its canonical bytes.
    pub fn from_bytes(bytes: [u8; 16]) -> (r: Self)
        ensures
            r.bytes == bytes,
    {
        FileId { bytes }
    }

    /// Returns the canonical bytes.
    pub fn into_bytes(self) -> (r: [u8; 16])
        ensures
            r == self.bytes,
    {
        self.bytes
    }

    /// Borrows the canonical bytes.
    pub fn as_bytes(&self) -> (r: &[u8; 16])
        ensures
            *r == self.bytes,
    {
        &self.bytes
    }
}

/// Stable identity of one volume.
#[derive(Clone, Copy, Debug, Eq, PartialOrd, Ord, Hash)]
pub struct VolumeId {
    /// Canonical bytes.
    pub bytes: [u8; 16],
}

impl PartialEq for VolumeId {
    fn eq(&self, other: &Self) -> (r: bool) {
        broadcast use vstd::array::group_array_axioms;

        let r = same_bytes(self.bytes.as_slice(), other.bytes.as_slice());
        assert(r ==> self.bytes =~= other.bytes);
        r
    }
}

impl vstd::std_specs::cmp::PartialEqSpecImpl for VolumeId {
    open spec fn obeys_eq_spec() -> bool {
        true
    }

    open spec fn eq_spec(&self, other: &Self) -> bool {
        *self == *other
    }
}

impl View for VolumeId {
    type V = VolumeId;

    open spec fn view(&self) -> VolumeId {
        *self
    }
}

impl Replicate for VolumeId {
    fn replicate(&self) -> (r: Self) {
        *self
    }
}

impl OrderKey for VolumeId {
    open spec fn order_bytes(key: VolumeId) -> Seq<u8> {
        key.bytes@
    }

    proof fn order_bytes_injective(a: VolumeId, b: VolumeId) {
        broadcast use vstd::array::group_array_axioms;

        assert(a.bytes =~= b.bytes);
    }

    fn key_bytes(&self) -> (r: &[u8]) {
        self.bytes.as_slice()
    }
}

impl VolumeId {
    /// Restores an identity from its canonical bytes.
    pub fn from_bytes(bytes: [u8; 16]) -> (r: Self)
        ensures
            r.bytes == bytes,
    {
        VolumeId { bytes }
    }

    /// Returns the canonical bytes.
    pub fn into_bytes(self) -> (r: [u8; 16])
        ensures
            r == self.bytes,
    {
        self.bytes
    }

    /// Borrows the canonical bytes.
    pub fn as_bytes(&self) -> (r: &[u8; 16])
        ensures
            *r == self.bytes,
    {
        &self.bytes
    }
}

/// Stable identity of one workspace.
#[derive(Clone, Copy, Debug, Eq, PartialOrd, Ord, Hash)]
pub struct WorkspaceId {
    /// Canonical bytes.
    pub bytes: [u8; 16],
}

impl PartialEq for WorkspaceId {
    fn eq(&self, other: &Self) -> (r: bool) {
        broadcast use vstd::array::group_array_axioms;

        let r = same_bytes(self.bytes.as_slice(), other.bytes.as_slice());
        assert(r ==> self.bytes =~= other.bytes);
        r
    }
}

impl vstd::std_specs::cmp::PartialEqSpecImpl for WorkspaceId {
    open spec fn obeys_eq_spec() -> bool {
        true
    }

    open spec fn eq_spec(&self, other: &Self) -> bool {
        *self == *other
    }
}

impl View for WorkspaceId {
    type V = WorkspaceId;

    open spec fn view(&self) -> WorkspaceId {
        *self
    }
}

impl Replicate for WorkspaceId {
    fn replicate(&self) -> (r: Self) {
        *self
    }
}

impl OrderKey for WorkspaceId {
    open spec fn order_bytes(key: WorkspaceId) -> Seq<u8> {
        key.bytes@
    }

    proof fn order_bytes_injective(a: WorkspaceId, b: WorkspaceId) {
        broadcast use vstd::array::group_array_axioms;

        assert(a.bytes =~= b.bytes);
    }

    fn key_bytes(&self) -> (r: &[u8]) {
        self.bytes.as_slice()
    }
}

impl WorkspaceId {
    /// Restores an identity from its canonical bytes.
    pub fn from_bytes(bytes: [u8; 16]) -> (r: Self)
        ensures
            r.bytes == bytes,
    {
        WorkspaceId { bytes }
    }

    /// Returns the canonical bytes.
    pub fn into_bytes(self) -> (r: [u8; 16])
        ensures
            r == self.bytes,
    {
        self.bytes
    }

    /// Borrows the canonical bytes.
    pub fn as_bytes(&self) -> (r: &[u8; 16])
        ensures
            *r == self.bytes,
    {
        &self.bytes
    }
}

/// Stable identity of one retryable operation.
#[derive(Clone, Copy, Debug, Eq, PartialOrd, Ord, Hash)]
pub struct OperationId {
    /// Canonical bytes.
    pub bytes: [u8; 16],
}

impl PartialEq for OperationId {
    fn eq(&self, other: &Self) -> (r: bool) {
        broadcast use vstd::array::group_array_axioms;

        let r = same_bytes(self.bytes.as_slice(), other.bytes.as_slice());
        assert(r ==> self.bytes =~= other.bytes);
        r
    }
}

impl vstd::std_specs::cmp::PartialEqSpecImpl for OperationId {
    open spec fn obeys_eq_spec() -> bool {
        true
    }

    open spec fn eq_spec(&self, other: &Self) -> bool {
        *self == *other
    }
}

impl View for OperationId {
    type V = OperationId;

    open spec fn view(&self) -> OperationId {
        *self
    }
}

impl Replicate for OperationId {
    fn replicate(&self) -> (r: Self) {
        *self
    }
}

impl OrderKey for OperationId {
    open spec fn order_bytes(key: OperationId) -> Seq<u8> {
        key.bytes@
    }

    proof fn order_bytes_injective(a: OperationId, b: OperationId) {
        broadcast use vstd::array::group_array_axioms;

        assert(a.bytes =~= b.bytes);
    }

    fn key_bytes(&self) -> (r: &[u8]) {
        self.bytes.as_slice()
    }
}

impl OperationId {
    /// Restores an identity from its canonical bytes.
    pub fn from_bytes(bytes: [u8; 16]) -> (r: Self)
        ensures
            r.bytes == bytes,
    {
        OperationId { bytes }
    }

    /// Returns the canonical bytes.
    pub fn into_bytes(self) -> (r: [u8; 16])
        ensures
            r == self.bytes,
    {
        self.bytes
    }

    /// Borrows the canonical bytes.
    pub fn as_bytes(&self) -> (r: &[u8; 16])
        ensures
            *r == self.bytes,
    {
        &self.bytes
    }
}

/// Caller-owned retry identity of one mutation.
#[derive(Clone, Copy, Debug, Eq, PartialOrd, Ord, Hash)]
pub struct IdempotencyKey {
    /// Canonical bytes.
    pub bytes: [u8; 16],
}

impl PartialEq for IdempotencyKey {
    fn eq(&self, other: &Self) -> (r: bool) {
        broadcast use vstd::array::group_array_axioms;

        let r = same_bytes(self.bytes.as_slice(), other.bytes.as_slice());
        assert(r ==> self.bytes =~= other.bytes);
        r
    }
}

impl vstd::std_specs::cmp::PartialEqSpecImpl for IdempotencyKey {
    open spec fn obeys_eq_spec() -> bool {
        true
    }

    open spec fn eq_spec(&self, other: &Self) -> bool {
        *self == *other
    }
}

impl View for IdempotencyKey {
    type V = IdempotencyKey;

    open spec fn view(&self) -> IdempotencyKey {
        *self
    }
}

impl Replicate for IdempotencyKey {
    fn replicate(&self) -> (r: Self) {
        *self
    }
}

impl OrderKey for IdempotencyKey {
    open spec fn order_bytes(key: IdempotencyKey) -> Seq<u8> {
        key.bytes@
    }

    proof fn order_bytes_injective(a: IdempotencyKey, b: IdempotencyKey) {
        broadcast use vstd::array::group_array_axioms;

        assert(a.bytes =~= b.bytes);
    }

    fn key_bytes(&self) -> (r: &[u8]) {
        self.bytes.as_slice()
    }
}

impl IdempotencyKey {
    /// Restores an identity from its canonical bytes.
    pub fn from_bytes(bytes: [u8; 16]) -> (r: Self)
        ensures
            r.bytes == bytes,
    {
        IdempotencyKey { bytes }
    }

    /// Returns the canonical bytes.
    pub fn into_bytes(self) -> (r: [u8; 16])
        ensures
            r == self.bytes,
    {
        self.bytes
    }

    /// Borrows the canonical bytes.
    pub fn as_bytes(&self) -> (r: &[u8; 16])
        ensures
            *r == self.bytes,
    {
        &self.bytes
    }
}

/// Identity of one immutable generation.
#[derive(Clone, Copy, Debug, Eq, PartialOrd, Ord, Hash)]
pub struct GenerationId {
    /// Digest of the generation root.
    pub digest: Digest,
}

impl PartialEq for GenerationId {
    fn eq(&self, other: &Self) -> (r: bool) {
        self.digest == other.digest
    }
}

impl vstd::std_specs::cmp::PartialEqSpecImpl for GenerationId {
    open spec fn obeys_eq_spec() -> bool {
        true
    }

    open spec fn eq_spec(&self, other: &Self) -> bool {
        *self == *other
    }
}

impl GenerationId {
    /// Names the generation with the given root digest.
    pub fn new(digest: Digest) -> (r: Self)
        ensures
            r.digest == digest,
    {
        GenerationId { digest }
    }

    /// Returns the root digest.
    pub fn digest(&self) -> (r: Digest)
        ensures
            r == self.digest,
    {
        self.digest
    }
}

} // verus!
