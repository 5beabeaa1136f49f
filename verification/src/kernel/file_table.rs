//! Canonical path-independent file records and authenticated file-table pages.

use super::codec::{
    page_at, page_bytes, page_fits, page_reads_back, page_refuses_less, page_refuses_more,
    page_shape, page_writes_back, read_page, read_shape, refused_more, run_reads_back, stands_for,
    take_at, u32_at, u32_reads_back, u32_writes_back, u64_at, u64_reads_back, u64_writes_back,
    u8_at, write_entries, CanonicalDecodeError, CanonicalItem, DecodeErrorView, DecodeLimits,
    DecodedPageShape, Decoder, Encoder, Field, Format, Page, PageFormat, PageView,
};
use super::name::{file_kind_of, file_kind_tag, FileKind};
use crate::foundation::{Digest, FileId};
use crate::order::{
    bytes_lt, lemma_bytes_lt_irreflexive, lemma_bytes_lt_transitive, position, views, Position,
    Replicate,
};
use crate::storage::{object_id, object_named, ObjectId, ObjectKind, ObjectView};
use crate::text::{decimal, decimal_text, text_pair};
use vstd::bytes::*;
use vstd::prelude::*;
use vstd::string::*;

verus! {

/// Maximum regular-file bytes stored directly in a file-table leaf record.
pub const MAXIMUM_INLINE_FILE_BYTES: usize = 64;

/// Allocation-free canonical payload for one tiny regular file.
#[derive(Debug, PartialEq, Eq)]
pub struct InlineFileData {
    length: u8,
    bytes: [u8; 64],
}

impl View for InlineFileData {
    type V = Seq<u8>;

    closed spec fn view(&self) -> Seq<u8> {
        self.bytes@.take(self.length as int)
    }
}

/// Tiny regular-file admission failures.
#[derive(Clone, Copy, Debug, PartialEq, Eq, Structural)]
pub enum InlineFileDataError {
    /// Payload exceeds the canonical inline threshold.
    TooLarge,
}

impl Copy for InlineFileData {

}

impl Clone for InlineFileData {
    fn clone(&self) -> (r: Self)
        ensures
            r == *self,
    {
        *self
    }
}

/// Payloads of the same bytes are the same value: unused capacity never shows.
pub proof fn inline_data_is_canonical(a: InlineFileData, b: InlineFileData)
    requires
        a.canonical(),
        b.canonical(),
    ensures
        (a == b) == (a@ == b@),
{
    broadcast use vstd::array::group_array_axioms;

    if a@ == b@ {
        assert(a@.len() == a.length && b@.len() == b.length);
        assert forall|i: int| 0 <= i < 64 implies a.bytes@[i] == b.bytes@[i] by {
            if i < a.length {
                assert(a@[i] == a.bytes@[i] && b@[i] == b.bytes@[i]);
            }
        }
        assert(a.bytes@ =~= b.bytes@);
        assert(a.bytes =~= b.bytes);
    }
}

/// A byte of a payload that reads as zero past its end.
pub open spec fn padded(bytes: Seq<u8>, i: int) -> u8 {
    if 0 <= i < bytes.len() {
        bytes[i]
    } else {
        0
    }
}

/// A payload with one range replaced and its length set; new bytes are zero.
pub open spec fn replaced(
    bytes: Seq<u8>,
    offset: nat,
    replacement: Seq<u8>,
    logical_bytes: nat,
) -> Seq<u8> {
    Seq::new(
        logical_bytes,
        |i: int|
            if offset <= i < offset + replacement.len() {
                replacement[i - offset]
            } else {
                padded(bytes, i)
            },
    )
}

impl InlineFileData {
    /// Whether the payload fits and unused capacity is zero.
    #[verifier::type_invariant]
    pub closed spec fn canonical(self) -> bool {
        &&& self.length <= 64
        &&& forall|i: int| self.length <= i < 64 ==> self.bytes@[i] == 0
    }

    /// Copies one admitted tiny-file payload into its canonical representation.
    pub fn new(bytes: &[u8]) -> (r: Result<Self, InlineFileDataError>)
        ensures
            r is Ok == (bytes@.len() <= MAXIMUM_INLINE_FILE_BYTES),
            r matches Ok(data) ==> data@ == bytes@ && data.canonical(),
    {
        if bytes.len() > MAXIMUM_INLINE_FILE_BYTES {
            return Err(InlineFileDataError::TooLarge);
        }
        let mut stored: [u8; 64] = [0u8; 64];
        let mut i: usize = 0;
        while i < bytes.len()
            invariant
                i <= bytes@.len() <= 64,
                stored@.take(i as int) =~= bytes@.take(i as int),
                forall|j: int| i <= j < 64 ==> stored@[j] == 0,
            decreases bytes@.len() - i,
        {
            stored[i] = bytes[i];
            i = i + 1;
        }
        let r = InlineFileData { length: bytes.len() as u8, bytes: stored };
        assert(bytes@.take(i as int) =~= bytes@);
        Ok(r)
    }

    /// Returns the exact semantic file bytes without allocation.
    pub fn as_bytes(&self) -> (r: &[u8])
        ensures
            r@ == self@,
            r@.len() <= MAXIMUM_INLINE_FILE_BYTES,
    {
        proof {
            use_type_invariant(self);
        }
        let r = vstd::slice::slice_subrange(self.bytes.as_slice(), 0, self.length as usize);
        assert(r@ =~= self@);
        r
    }

    /// Replaces one range and sets the length.
    pub fn replace_range(self, offset: usize, replacement: &[u8], logical_bytes: usize) -> (r: Result<
        Self,
        InlineFileDataError,
    >)
        ensures
            r is Ok == (offset + replacement@.len() <= logical_bytes && logical_bytes
                <= MAXIMUM_INLINE_FILE_BYTES),
            r matches Ok(data) ==> data@ == replaced(
                self@,
                offset as nat,
                replacement@,
                logical_bytes as nat,
            ),
    {
        proof {
            use_type_invariant(&self);
        }
        if replacement.len() > usize::MAX - offset {
            return Err(InlineFileDataError::TooLarge);
        }
        let end: usize = offset + replacement.len();
        if end > logical_bytes || logical_bytes > MAXIMUM_INLINE_FILE_BYTES {
            return Err(InlineFileDataError::TooLarge);
        }
        let mut stored: [u8; 64] = [0u8; 64];
        let mut i: usize = 0;
        while i < logical_bytes
            invariant
                i <= logical_bytes <= 64,
                end == offset + replacement@.len(),
                forall|j: int|
                    0 <= j < i ==> stored@[j] == (if offset <= j < end {
                        replacement@[j - offset]
                    } else {
                        self.bytes@[j]
                    }),
                forall|j: int| i <= j < 64 ==> stored@[j] == 0,
            decreases logical_bytes - i,
        {
            if offset <= i && i < end {
                stored[i] = replacement[i - offset];
            } else {
                stored[i] = self.bytes[i];
            }
            i = i + 1;
        }
        let r = InlineFileData { length: logical_bytes as u8, bytes: stored };
        assert(r@ =~= replaced(self@, offset as nat, replacement@, logical_bytes as nat));
        Ok(r)
    }

    /// Shortens the payload.
    pub fn truncate(self, logical_bytes: usize) -> (r: Result<Self, InlineFileDataError>)
        ensures
            r is Ok == (logical_bytes <= self@.len()),
            r matches Ok(data) ==> data@ == self@.take(logical_bytes as int),
    {
        proof {
            use_type_invariant(&self);
        }
        if logical_bytes > self.length as usize {
            return Err(InlineFileDataError::TooLarge);
        }
        let mut stored: [u8; 64] = [0u8; 64];
        let mut i: usize = 0;
        while i < logical_bytes
            invariant
                i <= logical_bytes <= 64,
                forall|j: int| 0 <= j < i ==> stored@[j] == self.bytes@[j],
                forall|j: int| i <= j < 64 ==> stored@[j] == 0,
            decreases logical_bytes - i,
        {
            stored[i] = self.bytes[i];
            i = i + 1;
        }
        let r = InlineFileData { length: logical_bytes as u8, bytes: stored };
        assert(r@ =~= self@.take(logical_bytes as int));
        Ok(r)
    }
}

/// Kind-specific immutable file payload.
#[derive(Clone, Copy, Debug, PartialEq, Eq)]
pub enum FilePayload {
    /// Tiny regular-file bytes embedded in the authenticated file-table leaf.
    InlineRegular(InlineFileData),
    /// Regular file size and sparse extent-tree root.
    Regular {
        /// Exact logical bytes, including holes.
        logical_bytes: u64,
        /// Authenticated sparse extent tree.
        extents: ObjectId,
    },
    /// Directory namespace-tree root.
    Directory {
        /// Authenticated directory tree.
        entries: ObjectId,
    },
    /// Symbolic-link target stored as an authenticated blob.
    SymbolicLink {
        /// Exact target representation bytes.
        target_bytes: u64,
        /// Authenticated blob-index root.
        target: ObjectId,
    },
    /// FIFO, socket, or mount-boundary entry with no payload.
    Empty,
    /// POSIX character or block device identity.
    Device {
        /// Device major number.
        major: u32,
        /// Device minor number.
        minor: u32,
    },
    /// Opaque Windows reparse payload.
    ReparsePoint {
        /// Exact payload bytes.
        payload_bytes: u64,
        /// Authenticated blob-index root.
        payload: ObjectId,
    },
}

/// Abstract value of [`FilePayload`].
#[verifier::ext_equal]
pub enum PayloadView {
    /// Tiny regular-file bytes.
    InlineRegular(Seq<u8>),
    /// Regular file size and sparse extent-tree root.
    Regular {
        /// Exact logical bytes, including holes.
        logical_bytes: u64,
        /// Authenticated sparse extent tree.
        extents: ObjectView,
    },
    /// Directory namespace-tree root.
    Directory {
        /// Authenticated directory tree.
        entries: ObjectView,
    },
    /// Symbolic-link target.
    SymbolicLink {
        /// Exact target representation bytes.
        target_bytes: u64,
        /// Authenticated blob-index root.
        target: ObjectView,
    },
    /// No payload.
    Empty,
    /// Device identity.
    Device {
        /// Device major number.
        major: u32,
        /// Device minor number.
        minor: u32,
    },
    /// Opaque Windows reparse payload.
    ReparsePoint {
        /// Exact payload bytes.
        payload_bytes: u64,
        /// Authenticated blob-index root.
        payload: ObjectView,
    },
}

impl View for FilePayload {
    type V = PayloadView;

    open spec fn view(&self) -> PayloadView {
        match *self {
            FilePayload::InlineRegular(data) => PayloadView::InlineRegular(data@),
            FilePayload::Regular { logical_bytes, extents } => PayloadView::Regular {
                logical_bytes,
                extents: extents@,
            },
            FilePayload::Directory { entries } => PayloadView::Directory { entries: entries@ },
            FilePayload::SymbolicLink { target_bytes, target } => PayloadView::SymbolicLink {
                target_bytes,
                target: target@,
            },
            FilePayload::Empty => PayloadView::Empty,
            FilePayload::Device { major, minor } => PayloadView::Device { major, minor },
            FilePayload::ReparsePoint { payload_bytes, payload } => PayloadView::ReparsePoint {
                payload_bytes,
                payload: payload@,
            },
        }
    }
}

/// One path-independent immutable file record.
#[derive(Clone, Copy, Debug, PartialEq, Eq)]
pub struct FileRecord {
    /// Stable identity reused by every hard link.
    pub file_id: FileId,
    /// Complete filesystem kind.
    pub kind: FileKind,
    /// Exact number of namespace bindings in this generation.
    pub link_count: u64,
    /// Canonical metadata object.
    pub metadata: ObjectId,
    /// Kind-specific content identity.
    pub payload: FilePayload,
}

/// Abstract value of [`FileRecord`].
#[verifier::ext_equal]
pub struct RecordView {
    /// Stable identity reused by every hard link.
    pub file_id: Seq<u8>,
    /// Complete filesystem kind.
    pub kind: FileKind,
    /// Exact number of namespace bindings in this generation.
    pub link_count: u64,
    /// Canonical metadata object.
    pub metadata: ObjectView,
    /// Kind-specific content identity.
    pub payload: PayloadView,
}

impl View for FileRecord {
    type V = RecordView;

    open spec fn view(&self) -> RecordView {
        RecordView {
            file_id: self.file_id.bytes@,
            kind: self.kind,
            link_count: self.link_count,
            metadata: self.metadata@,
            payload: self.payload@,
        }
    }
}

impl Replicate for FileRecord {
    fn replicate(&self) -> (r: Self) {
        *self
    }
}

/// File-table semantic failures.
#[derive(Clone, Copy, Debug, PartialEq, Eq, Structural)]
pub enum FileTableError {
    /// File identities must be strictly ordered and unique.
    NotStrictlyOrdered,
    /// Record kind, links, metadata, or payload is inconsistent.
    InvalidRecord,
    /// Internal page is empty, unordered, or points at the wrong object class.
    InvalidInternalPage,
    /// Page exceeds its admitted item bound.
    TooManyItems,
}

/// Stable description of a failure.
pub open spec fn table_reason(error: FileTableError) -> Seq<char> {
    match error {
        FileTableError::NotStrictlyOrdered => "file records are not strictly ordered"@,
        FileTableError::InvalidRecord => "file record is inconsistent"@,
        FileTableError::InvalidInternalPage => "file-table internal page is invalid"@,
        FileTableError::TooManyItems => "file-table page exceeds its item bound"@,
    }
}

/// A table failure as a decoding failure.
pub open spec fn table_failure(error: FileTableError) -> DecodeErrorView {
    DecodeErrorView::Invariant(table_reason(error))
}

fn broken(error: FileTableError) -> (r: CanonicalDecodeError)
    ensures
        r@ == table_failure(error),
{
    CanonicalDecodeError::Invariant(
        match error {
            FileTableError::NotStrictlyOrdered => "file records are not strictly ordered".to_owned(),
            FileTableError::InvalidRecord => "file record is inconsistent".to_owned(),
            FileTableError::InvalidInternalPage => "file-table internal page is invalid".to_owned(),
            FileTableError::TooManyItems => "file-table page exceeds its item bound".to_owned(),
        },
    )
}

/// Whether kind and payload of a file agree.
pub open spec fn payload_matches(kind: FileKind, payload: PayloadView) -> bool {
    match payload {
        PayloadView::InlineRegular(_) => kind == FileKind::Regular,
        PayloadView::Regular { extents, .. } => kind == FileKind::Regular && extents.kind
            == ObjectKind::ExtentPage,
        PayloadView::Directory { entries } => kind == FileKind::Directory && entries.kind
            == ObjectKind::TreePage,
        PayloadView::SymbolicLink { target, .. } => kind == FileKind::SymbolicLink && target.kind
            == ObjectKind::Blob,
        PayloadView::Empty => kind == FileKind::Fifo || kind == FileKind::Socket || kind
            == FileKind::MountBoundary,
        PayloadView::Device { .. } => kind == FileKind::CharacterDevice || kind
            == FileKind::BlockDevice,
        PayloadView::ReparsePoint { payload: target, .. } => kind == FileKind::ReparsePoint
            && target.kind == ObjectKind::Blob,
    }
}

/// Whether a record is consistent: linked, with metadata, and of one kind.
pub open spec fn record_valid(record: RecordView) -> bool {
    record.link_count > 0 && record.metadata.kind == ObjectKind::Metadata && payload_matches(
        record.kind,
        record.payload,
    )
}

impl FileRecord {
    /// Checks a record.
    pub fn validate(self) -> (r: Result<(), FileTableError>)
        ensures
            r == (if record_valid(self@) {
                Ok::<(), FileTableError>(())
            } else {
                Err::<(), FileTableError>(FileTableError::InvalidRecord)
            }),
    {
        if self.link_count == 0 || self.metadata.kind != ObjectKind::Metadata {
            return Err(FileTableError::InvalidRecord);
        }
        let valid = match self.payload {
            FilePayload::InlineRegular(_) => self.kind == FileKind::Regular,
            FilePayload::Regular { extents, .. } => self.kind == FileKind::Regular && extents.kind
                == ObjectKind::ExtentPage,
            FilePayload::Directory { entries } => self.kind == FileKind::Directory && entries.kind
                == ObjectKind::TreePage,
            FilePayload::SymbolicLink { target, .. } => self.kind == FileKind::SymbolicLink
                && target.kind == ObjectKind::Blob,
            FilePayload::Empty => self.kind == FileKind::Fifo || self.kind == FileKind::Socket
                || self.kind == FileKind::MountBoundary,
            FilePayload::Device { .. } => self.kind == FileKind::CharacterDevice || self.kind
                == FileKind::BlockDevice,
            FilePayload::ReparsePoint { payload, .. } => self.kind == FileKind::ReparsePoint
                && payload.kind == ObjectKind::Blob,
        };
        if valid {
            Ok(())
        } else {
            Err(FileTableError::InvalidRecord)
        }
    }
}

/// One lower-bound file-table child.
#[derive(Clone, Copy, Debug, PartialEq, Eq)]
pub struct FileTableChild {
    /// Exact first file identity represented by the child.
    pub first_file_id: FileId,
    /// Authenticated child page.
    pub page: ObjectId,
}

/// Abstract value of [`FileTableChild`].
#[verifier::ext_equal]
pub struct TableChildView {
    /// Exact first file identity represented by the child.
    pub first_file_id: Seq<u8>,
    /// Authenticated child page.
    pub page: ObjectView,
}

impl View for FileTableChild {
    type V = TableChildView;

    open spec fn view(&self) -> TableChildView {
        TableChildView { first_file_id: self.first_file_id.bytes@, page: self.page@ }
    }
}

impl Replicate for FileTableChild {
    fn replicate(&self) -> (r: Self) {
        *self
    }
}

/// Canonical bytes of a payload.
pub open spec fn payload_bytes(payload: PayloadView) -> Seq<u8> {
    match payload {
        PayloadView::InlineRegular(data) => seq![7u8, data.len() as u8] + data,
        PayloadView::Regular { logical_bytes, extents } => seq![1u8] + spec_u64_to_le_bytes(
            logical_bytes,
        ) + extents.digest,
        PayloadView::Directory { entries } => seq![2u8] + entries.digest,
        PayloadView::SymbolicLink { target_bytes, target } => seq![3u8] + spec_u64_to_le_bytes(
            target_bytes,
        ) + target.digest,
        PayloadView::Empty => seq![4u8],
        PayloadView::Device { major, minor } => seq![5u8] + spec_u32_to_le_bytes(major)
            + spec_u32_to_le_bytes(minor),
        PayloadView::ReparsePoint { payload_bytes, payload } => seq![6u8] + spec_u64_to_le_bytes(
            payload_bytes,
        ) + payload.digest,
    }
}

/// A length and a digest at a position.
pub open spec fn sized_digest_at(bytes: Seq<u8>, at: int) -> Field<(u64, Seq<u8>)> {
    match u64_at(bytes, at) {
        Err(error) => Err(error),
        Ok((size, at)) => match take_at(bytes, at, 32) {
            Err(error) => Err(error),
            Ok((digest, end)) => Ok(((size, digest), end)),
        },
    }
}

/// The payload at a position.
pub open spec fn payload_at(bytes: Seq<u8>, at: int) -> Field<PayloadView> {
    match u8_at(bytes, at) {
        Err(error) => Err(error),
        Ok((tag, at)) => if tag == 1 {
            match sized_digest_at(bytes, at) {
                Err(error) => Err(error),
                Ok(((logical_bytes, digest), end)) => Ok(
                    (
                        PayloadView::Regular {
                            logical_bytes,
                            extents: ObjectView { kind: ObjectKind::ExtentPage, digest },
                        },
                        end,
                    ),
                ),
            }
        } else if tag == 2 {
            match take_at(bytes, at, 32) {
                Err(error) => Err(error),
                Ok((digest, end)) => Ok(
                    (
                        PayloadView::Directory {
                            entries: ObjectView { kind: ObjectKind::TreePage, digest },
                        },
                        end,
                    ),
                ),
            }
        } else if tag == 3 {
            match sized_digest_at(bytes, at) {
                Err(error) => Err(error),
                Ok(((target_bytes, digest), end)) => Ok(
                    (
                        PayloadView::SymbolicLink {
                            target_bytes,
                            target: ObjectView { kind: ObjectKind::Blob, digest },
                        },
                        end,
                    ),
                ),
            }
        } else if tag == 4 {
            Ok((PayloadView::Empty, at))
        } else if tag == 5 {
            match u32_at(bytes, at) {
                Err(error) => Err(error),
                Ok((major, at)) => match u32_at(bytes, at) {
                    Err(error) => Err(error),
                    Ok((minor, end)) => Ok((PayloadView::Device { major, minor }, end)),
                },
            }
        } else if tag == 6 {
            match sized_digest_at(bytes, at) {
                Err(error) => Err(error),
                Ok(((payload_bytes, digest), end)) => Ok(
                    (
                        PayloadView::ReparsePoint {
                            payload_bytes,
                            payload: ObjectView { kind: ObjectKind::Blob, digest },
                        },
                        end,
                    ),
                ),
            }
        } else if tag == 7 {
            match u8_at(bytes, at) {
                Err(error) => Err(error),
                Ok((length, at)) => if length > MAXIMUM_INLINE_FILE_BYTES {
                    Err(DecodeErrorView::FieldTooLarge { observed: length as u32, maximum: 64 })
                } else {
                    match take_at(bytes, at, length as int) {
                        Err(error) => Err(error),
                        Ok((data, end)) => Ok((PayloadView::InlineRegular(data), end)),
                    }
                },
            }
        } else {
            Err(DecodeErrorView::UnknownTag { field: "file_payload"@, tag })
        },
    }
}

/// Whether a payload can be written and read back.
pub open spec fn payload_sound(payload: PayloadView) -> bool {
    match payload {
        PayloadView::InlineRegular(data) => data.len() <= MAXIMUM_INLINE_FILE_BYTES,
        PayloadView::Regular { extents, .. } => extents.digest.len() == 32 && extents.kind
            == ObjectKind::ExtentPage,
        PayloadView::Directory { entries } => entries.digest.len() == 32 && entries.kind
            == ObjectKind::TreePage,
        PayloadView::SymbolicLink { target, .. } => target.digest.len() == 32 && target.kind
            == ObjectKind::Blob,
        PayloadView::Empty => true,
        PayloadView::Device { .. } => true,
        PayloadView::ReparsePoint { payload, .. } => payload.digest.len() == 32 && payload.kind
            == ObjectKind::Blob,
    }
}

proof fn sized_digest_reads_back(size: u64, digest: Seq<u8>, before: Seq<u8>, after: Seq<u8>)
    requires
        digest.len() == 32,
        before.len() + 40 + after.len() <= usize::MAX,
    ensures
        sized_digest_at(
            before + (spec_u64_to_le_bytes(size) + digest) + after,
            before.len() as int,
        ) == Ok::<((u64, Seq<u8>), int), DecodeErrorView>(
            ((size, digest), before.len() as int + 40),
        ),
{
    lemma_auto_spec_u64_to_from_le_bytes();
    let number = spec_u64_to_le_bytes(size);
    let whole = before + (number + digest) + after;
    u64_reads_back(size, before, digest + after);
    assert(whole =~= before + number + (digest + after));
    run_reads_back(digest, before + number, after);
    assert(whole =~= (before + number) + digest + after);
}

proof fn sized_digest_writes_back(bytes: Seq<u8>, at: int)
    requires
        0 <= at,
        sized_digest_at(bytes, at) is Ok,
    ensures
        ({
            let ((size, digest), end) = sized_digest_at(bytes, at)->Ok_0;
            &&& digest.len() == 32
            &&& end == at + 40 <= bytes.len()
            &&& spec_u64_to_le_bytes(size) + digest == bytes.subrange(at, end)
        }),
{
    u64_writes_back(bytes, at);
    let ((size, digest), end) = sized_digest_at(bytes, at)->Ok_0;
    assert(spec_u64_to_le_bytes(size) + digest =~= bytes.subrange(at, end));
}

proof fn payload_reads_back(payload: PayloadView, before: Seq<u8>, after: Seq<u8>)
    requires
        payload_sound(payload),
        before.len() + payload_bytes(payload).len() + after.len() <= usize::MAX,
    ensures
        payload_at(before + payload_bytes(payload) + after, before.len() as int) == Ok::<
            (PayloadView, int),
            DecodeErrorView,
        >((payload, (before.len() + payload_bytes(payload).len()) as int)),
{
    lemma_auto_spec_u64_to_from_le_bytes();
    lemma_auto_spec_u32_to_from_le_bytes();
    let whole = before + payload_bytes(payload) + after;
    let tag = payload_bytes(payload)[0];
    let front = before + seq![tag];
    assert(whole[before.len() as int] == tag);
    match payload {
        PayloadView::InlineRegular(data) => {
            let head = before + seq![7u8, data.len() as u8];
            assert(whole[before.len() as int + 1] == data.len() as u8);
            run_reads_back(data, head, after);
            assert(whole =~= head + data + after);
        },
        PayloadView::Regular { logical_bytes, extents } => {
            sized_digest_reads_back(logical_bytes, extents.digest, front, after);
            assert(whole =~= front + (spec_u64_to_le_bytes(logical_bytes) + extents.digest) + after);
        },
        PayloadView::Directory { entries } => {
            run_reads_back(entries.digest, front, after);
            assert(whole =~= front + entries.digest + after);
        },
        PayloadView::SymbolicLink { target_bytes, target } => {
            sized_digest_reads_back(target_bytes, target.digest, front, after);
            assert(whole =~= front + (spec_u64_to_le_bytes(target_bytes) + target.digest) + after);
        },
        PayloadView::Empty => {},
        PayloadView::Device { major, minor } => {
            let high = spec_u32_to_le_bytes(major);
            let low = spec_u32_to_le_bytes(minor);
            u32_reads_back(major, front, low + after);
            assert(whole =~= front + high + (low + after));
            u32_reads_back(minor, front + high, after);
            assert(whole =~= (front + high) + low + after);
        },
        PayloadView::ReparsePoint { payload_bytes: size, payload: target } => {
            sized_digest_reads_back(size, target.digest, front, after);
            assert(whole =~= front + (spec_u64_to_le_bytes(size) + target.digest) + after);
        },
    }
}

proof fn payload_writes_back(bytes: Seq<u8>, at: int)
    requires
        0 <= at,
        payload_at(bytes, at) is Ok,
    ensures
        ({
            let (payload, end) = payload_at(bytes, at)->Ok_0;
            &&& at <= end <= bytes.len()
            &&& payload_sound(payload)
            &&& payload_bytes(payload) == bytes.subrange(at, end)
        }),
{
    let (payload, end) = payload_at(bytes, at)->Ok_0;
    let tag = bytes[at];
    let rest = bytes.subrange(at + 1, end);
    if tag == 1 || tag == 3 || tag == 6 {
        sized_digest_writes_back(bytes, at + 1);
        let ((size, digest), _) = sized_digest_at(bytes, at + 1)->Ok_0;
        assert(payload_bytes(payload) =~= seq![tag] + (spec_u64_to_le_bytes(size) + digest));
    } else if tag == 5 {
        u32_writes_back(bytes, at + 1);
        u32_writes_back(bytes, at + 5);
        let (major, _) = u32_at(bytes, at + 1)->Ok_0;
        let (minor, _) = u32_at(bytes, at + 5)->Ok_0;
        assert(rest =~= spec_u32_to_le_bytes(major) + spec_u32_to_le_bytes(minor));
        assert(payload_bytes(payload) =~= seq![tag] + rest);
    } else if tag == 7 {
        let length = bytes[at + 1];
        let data = bytes.subrange(at + 2, end);
        assert(rest =~= seq![length] + data);
        assert(payload == PayloadView::InlineRegular(data));
        assert(data.len() == length);
        assert(payload_bytes(payload) =~= seq![tag] + rest);
    } else {
        assert(payload_bytes(payload) =~= seq![tag] + rest);
    }
    assert(bytes.subrange(at, end) =~= seq![tag] + rest);
}

impl CanonicalItem for FileRecord {
    open spec fn item_fits(value: RecordView, limits: DecodeLimits) -> bool {
        &&& record_valid(value)
        &&& value.file_id.len() == 16
        &&& value.metadata.digest.len() == 32
        &&& payload_sound(value.payload)
    }

    open spec fn item_writable(value: RecordView) -> bool {
        true
    }

    open spec fn item_bytes(value: RecordView) -> Seq<u8> {
        value.file_id + seq![file_kind_tag(value.kind)] + spec_u64_to_le_bytes(value.link_count)
            + value.metadata.digest + payload_bytes(value.payload)
    }

    open spec fn item_at(bytes: Seq<u8>, at: int, limits: DecodeLimits) -> Field<RecordView> {
        match take_at(bytes, at, 16) {
            Err(error) => Err(error),
            Ok((file_id, at)) => match u8_at(bytes, at) {
                Err(error) => Err(error),
                Ok((tag, at)) => match file_kind_of(tag) {
                    None => Err(
                        DecodeErrorView::Invariant("unknown file kind "@ + decimal(tag as nat)),
                    ),
                    Some(kind) => match u64_at(bytes, at) {
                        Err(error) => Err(error),
                        Ok((link_count, at)) => match take_at(bytes, at, 32) {
                            Err(error) => Err(error),
                            Ok((digest, at)) => match payload_at(bytes, at) {
                                Err(error) => Err(error),
                                Ok((payload, end)) => {
                                    let record = RecordView {
                                        file_id,
                                        kind,
                                        link_count,
                                        metadata: ObjectView { kind: ObjectKind::Metadata, digest },
                                        payload,
                                    };
                                    if record_valid(record) {
                                        Ok((record, end))
                                    } else {
                                        Err(table_failure(FileTableError::InvalidRecord))
                                    }
                                },
                            },
                        },
                    },
                },
            },
        }
    }

    open spec fn skip_at(bytes: Seq<u8>, at: int, limits: DecodeLimits) -> Field<nat> {
        match take_at(bytes, at, 16) {
            Err(error) => Err(error),
            Ok((_, at)) => match u8_at(bytes, at) {
                Err(error) => Err(error),
                Ok((_, at)) => match u64_at(bytes, at) {
                    Err(error) => Err(error),
                    Ok((_, at)) => match take_at(bytes, at, 32) {
                        Err(error) => Err(error),
                        Ok((_, at)) => match payload_at(bytes, at) {
                            Err(error) => Err(error),
                            Ok((_, end)) => Ok((0, end)),
                        },
                    },
                },
            },
        }
    }

    open spec fn nested(value: RecordView) -> nat {
        0
    }

    proof fn item_reads_back(
        value: RecordView,
        before: Seq<u8>,
        after: Seq<u8>,
        limits: DecodeLimits,
    ) {
        lemma_auto_spec_u64_to_from_le_bytes();
        let id = value.file_id;
        let tag = seq![file_kind_tag(value.kind)];
        let links = spec_u64_to_le_bytes(value.link_count);
        let digest = value.metadata.digest;
        let payload = payload_bytes(value.payload);
        let whole = before + Self::item_bytes(value) + after;
        run_reads_back(id, before, tag + links + digest + payload + after);
        assert(whole =~= before + id + (tag + links + digest + payload + after));
        let a = before + id;
        assert(whole[a.len() as int] == file_kind_tag(value.kind));
        let b = a + tag;
        u64_reads_back(value.link_count, b, digest + payload + after);
        assert(whole =~= b + links + (digest + payload + after));
        let c = b + links;
        run_reads_back(digest, c, payload + after);
        assert(whole =~= c + digest + (payload + after));
        payload_reads_back(value.payload, c + digest, after);
        assert(whole =~= (c + digest) + payload + after);
    }

    proof fn item_writes_back(bytes: Seq<u8>, at: int, limits: DecodeLimits) {
        u64_writes_back(bytes, at + 17);
        payload_writes_back(bytes, at + 57);
        let (value, end) = Self::item_at(bytes, at, limits)->Ok_0;
        assert(Self::item_bytes(value) =~= bytes.subrange(at, end));
    }

    proof fn skip_stays_within(bytes: Seq<u8>, at: int, limits: DecodeLimits) {
        payload_writes_back(bytes, at + 57);
    }

    fn write_item(&self, encoder: &mut Encoder) -> (r: Result<(), CanonicalDecodeError>) {
        let ghost start = encoder@;
        encoder.fixed(self.file_id.bytes.as_slice());
        encoder.u8(self.kind.tag());
        encoder.u64(self.link_count);
        encoder.fixed(self.metadata.digest.bytes.as_slice());
        write_payload(encoder, &self.payload);
        assert(encoder@ =~= start + Self::item_bytes(self@));
        Ok(())
    }

    fn read_item(decoder: &mut Decoder<'_>, limits: DecodeLimits) -> (r: Result<
        Self,
        CanonicalDecodeError,
    >) {
        let file_id = match decoder.fixed16() {
            Ok(bytes) => FileId::from_bytes(bytes),
            Err(error) => {
                return Err(error);
            },
        };
        let tag = match decoder.u8() {
            Ok(tag) => tag,
            Err(error) => {
                return Err(error);
            },
        };
        let kind = match FileKind::from_tag(tag) {
            Some(kind) => kind,
            None => {
                let number = decimal_text(tag as u64);
                return Err(
                    CanonicalDecodeError::Invariant(
                        text_pair("unknown file kind ", number.as_str()),
                    ),
                );
            },
        };
        let link_count = match decoder.u64() {
            Ok(count) => count,
            Err(error) => {
                return Err(error);
            },
        };
        let metadata = match decoder.fixed32() {
            Ok(digest) => ObjectId {
                kind: ObjectKind::Metadata,
                digest: Digest::from_bytes(digest),
            },
            Err(error) => {
                return Err(error);
            },
        };
        let payload = match read_payload(decoder) {
            Ok(payload) => payload,
            Err(error) => {
                return Err(error);
            },
        };
        let record = FileRecord { file_id, kind, link_count, metadata, payload };
        match record.validate() {
            Ok(()) => Ok(record),
            Err(error) => Err(broken(error)),
        }
    }

    fn skip_item(decoder: &mut Decoder<'_>, limits: DecodeLimits) -> (r: Result<
        usize,
        CanonicalDecodeError,
    >) {
        if let Err(error) = decoder.take_exact(16) {
            return Err(error);
        }
        if let Err(error) = decoder.u8() {
            return Err(error);
        }
        if let Err(error) = decoder.u64() {
            return Err(error);
        }
        if let Err(error) = decoder.take_exact(32) {
            return Err(error);
        }
        match read_payload(decoder) {
            Ok(_) => Ok(0),
            Err(error) => Err(error),
        }
    }
}

fn write_payload(encoder: &mut Encoder, payload: &FilePayload)
    ensures
        final(encoder)@ == old(encoder)@ + payload_bytes(payload@),
{
    let ghost start = encoder@;
    match *payload {
        FilePayload::InlineRegular(data) => {
            let bytes = data.as_bytes();
            encoder.u8(7);
            encoder.u8(bytes.len() as u8);
            encoder.fixed(bytes);
        },
        FilePayload::Regular { logical_bytes, extents } => {
            encoder.u8(1);
            encoder.u64(logical_bytes);
            encoder.fixed(extents.digest.bytes.as_slice());
        },
        FilePayload::Directory { entries } => {
            encoder.u8(2);
            encoder.fixed(entries.digest.bytes.as_slice());
        },
        FilePayload::SymbolicLink { target_bytes, target } => {
            encoder.u8(3);
            encoder.u64(target_bytes);
            encoder.fixed(target.digest.bytes.as_slice());
        },
        FilePayload::Empty => encoder.u8(4),
        FilePayload::Device { major, minor } => {
            encoder.u8(5);
            encoder.u32(major);
            encoder.u32(minor);
        },
        FilePayload::ReparsePoint { payload_bytes, payload } => {
            encoder.u8(6);
            encoder.u64(payload_bytes);
            encoder.fixed(payload.digest.bytes.as_slice());
        },
    }
    assert(encoder@ =~= start + payload_bytes(payload@));
}

fn read_sized_digest(decoder: &mut Decoder<'_>) -> (r: Result<(u64, Digest), CanonicalDecodeError>)
    requires
        old(decoder).wf(),
    ensures
        final(decoder).bytes@ == old(decoder).bytes@,
        final(decoder).wf(),
        match sized_digest_at(old(decoder).bytes@, old(decoder).cursor as int) {
            Ok(((size, digest), end)) => r matches Ok(found) && found.0 == size && found.1.bytes@
                == digest && final(decoder).cursor == end,
            Err(e) => r matches Err(error) && error@ == e,
        },
{
    match decoder.u64() {
        Ok(size) => match decoder.fixed32() {
            Ok(digest) => Ok((size, Digest::from_bytes(digest))),
            Err(error) => Err(error),
        },
        Err(error) => Err(error),
    }
}

fn read_payload(decoder: &mut Decoder<'_>) -> (r: Result<FilePayload, CanonicalDecodeError>)
    requires
        old(decoder).wf(),
    ensures
        final(decoder).bytes@ == old(decoder).bytes@,
        final(decoder).wf(),
        match payload_at(old(decoder).bytes@, old(decoder).cursor as int) {
            Ok((payload, end)) => r matches Ok(found) && found@ == payload && final(decoder).cursor
                == end,
            Err(e) => r matches Err(error) && error@ == e,
        },
{
    let tag = match decoder.u8() {
        Ok(tag) => tag,
        Err(error) => {
            return Err(error);
        },
    };
    match tag {
        1 => match read_sized_digest(decoder) {
            Ok((logical_bytes, digest)) => Ok(
                FilePayload::Regular {
                    logical_bytes,
                    extents: ObjectId { kind: ObjectKind::ExtentPage, digest },
                },
            ),
            Err(error) => Err(error),
        },
        2 => match decoder.fixed32() {
            Ok(digest) => Ok(
                FilePayload::Directory {
                    entries: ObjectId {
                        kind: ObjectKind::TreePage,
                        digest: Digest::from_bytes(digest),
                    },
                },
            ),
            Err(error) => Err(error),
        },
        3 => match read_sized_digest(decoder) {
            Ok((target_bytes, digest)) => Ok(
                FilePayload::SymbolicLink {
                    target_bytes,
                    target: ObjectId { kind: ObjectKind::Blob, digest },
                },
            ),
            Err(error) => Err(error),
        },
        4 => Ok(FilePayload::Empty),
        5 => match decoder.u32() {
            Ok(major) => match decoder.u32() {
                Ok(minor) => Ok(FilePayload::Device { major, minor }),
                Err(error) => Err(error),
            },
            Err(error) => Err(error),
        },
        6 => match read_sized_digest(decoder) {
            Ok((payload_bytes, digest)) => Ok(
                FilePayload::ReparsePoint {
                    payload_bytes,
                    payload: ObjectId { kind: ObjectKind::Blob, digest },
                },
            ),
            Err(error) => Err(error),
        },
        7 => {
            let length = match decoder.u8() {
                Ok(length) => length,
                Err(error) => {
                    return Err(error);
                },
            };
            if length as usize > MAXIMUM_INLINE_FILE_BYTES {
                return Err(
                    CanonicalDecodeError::FieldTooLarge { observed: length as u32, maximum: 64 },
                );
            }
            match decoder.take_exact(length as usize) {
                Ok(bytes) => match InlineFileData::new(bytes) {
                    Ok(data) => Ok(FilePayload::InlineRegular(data)),
                    Err(_) => Err(CanonicalDecodeError::LengthOverflow),
                },
                Err(error) => Err(error),
            }
        },
        tag => Err(CanonicalDecodeError::UnknownTag { field: "file_payload", tag }),
    }
}

impl CanonicalItem for FileTableChild {
    open spec fn item_fits(value: TableChildView, limits: DecodeLimits) -> bool {
        &&& value.first_file_id.len() == 16
        &&& value.page.kind == ObjectKind::FileTablePage
        &&& value.page.digest.len() == 32
    }

    open spec fn item_writable(value: TableChildView) -> bool {
        true
    }

    open spec fn item_bytes(value: TableChildView) -> Seq<u8> {
        value.first_file_id + value.page.digest
    }

    open spec fn item_at(bytes: Seq<u8>, at: int, limits: DecodeLimits) -> Field<TableChildView> {
        match take_at(bytes, at, 16) {
            Err(error) => Err(error),
            Ok((first_file_id, at)) => match take_at(bytes, at, 32) {
                Err(error) => Err(error),
                Ok((digest, end)) => Ok(
                    (
                        TableChildView {
                            first_file_id,
                            page: ObjectView { kind: ObjectKind::FileTablePage, digest },
                        },
                        end,
                    ),
                ),
            },
        }
    }

    open spec fn skip_at(bytes: Seq<u8>, at: int, limits: DecodeLimits) -> Field<nat> {
        match Self::item_at(bytes, at, limits) {
            Err(error) => Err(error),
            Ok((_, end)) => Ok((0, end)),
        }
    }

    open spec fn nested(value: TableChildView) -> nat {
        0
    }

    proof fn item_reads_back(
        value: TableChildView,
        before: Seq<u8>,
        after: Seq<u8>,
        limits: DecodeLimits,
    ) {
        let id = value.first_file_id;
        let digest = value.page.digest;
        let whole = before + Self::item_bytes(value) + after;
        run_reads_back(id, before, digest + after);
        assert(whole =~= before + id + (digest + after));
        run_reads_back(digest, before + id, after);
        assert(whole =~= (before + id) + digest + after);
    }

    proof fn item_writes_back(bytes: Seq<u8>, at: int, limits: DecodeLimits) {
        let (value, end) = Self::item_at(bytes, at, limits)->Ok_0;
        assert(Self::item_bytes(value) =~= bytes.subrange(at, end));
    }

    proof fn skip_stays_within(bytes: Seq<u8>, at: int, limits: DecodeLimits) {
    }

    fn write_item(&self, encoder: &mut Encoder) -> (r: Result<(), CanonicalDecodeError>) {
        let ghost start = encoder@;
        encoder.fixed(self.first_file_id.bytes.as_slice());
        encoder.fixed(self.page.digest.bytes.as_slice());
        assert(encoder@ =~= start + Self::item_bytes(self@));
        Ok(())
    }

    fn read_item(decoder: &mut Decoder<'_>, limits: DecodeLimits) -> (r: Result<
        Self,
        CanonicalDecodeError,
    >) {
        let first_file_id = match decoder.fixed16() {
            Ok(bytes) => FileId::from_bytes(bytes),
            Err(error) => {
                return Err(error);
            },
        };
        match decoder.fixed32() {
            Ok(digest) => Ok(
                FileTableChild {
                    first_file_id,
                    page: ObjectId {
                        kind: ObjectKind::FileTablePage,
                        digest: Digest::from_bytes(digest),
                    },
                },
            ),
            Err(error) => Err(error),
        }
    }

    fn skip_item(decoder: &mut Decoder<'_>, limits: DecodeLimits) -> (r: Result<
        usize,
        CanonicalDecodeError,
    >) {
        match FileTableChild::read_item(decoder, limits) {
            Ok(_) => Ok(0),
            Err(error) => Err(error),
        }
    }
}

/// One immutable authenticated file-table B+tree page.
#[derive(Debug, PartialEq, Eq)]
pub enum FileTablePage {
    /// Strictly ordered file records.
    Leaf(Vec<FileRecord>),
    /// Strictly ordered lower-bound child references.
    Internal(Vec<FileTableChild>),
}

/// Abstract value of [`FileTablePage`].
pub type FileTableView = PageView<RecordView, TableChildView>;

impl View for FileTablePage {
    type V = FileTableView;

    open spec fn view(&self) -> FileTableView {
        match *self {
            FileTablePage::Leaf(records) => PageView::Leaf(views(records@)),
            FileTablePage::Internal(children) => PageView::Internal(views(children@)),
        }
    }
}

/// The file-table page format.
pub open spec fn table_format() -> PageFormat {
    PageFormat {
        domain: seq![65u8, 67, 89, 70, 83, 70, 73, 76],
        version: 2,
        field: "file_table_page"@,
    }
}

/// The file-table page format: domain `ACYFSFIL`, version two.
pub(crate) fn format() -> (r: Format)
    ensures
        r@ == table_format(),
{
    let r = Format {
        domain: [65u8, 67, 89, 70, 83, 70, 73, 76],
        version: 2,
        field: "file_table_page",
    };
    assert(r.domain@ =~= table_format().domain);
    r
}

/// Whether records ascend by identity.
pub open spec fn records_ascend(records: Seq<RecordView>) -> bool {
    forall|i: int, j: int|
        0 <= i < j < records.len() ==> bytes_lt(
            (#[trigger] records[i]).file_id,
            (#[trigger] records[j]).file_id,
        )
}

/// Whether every record is consistent.
pub open spec fn records_valid(records: Seq<RecordView>) -> bool {
    forall|i: int| 0 <= i < records.len() ==> record_valid(#[trigger] records[i])
}

/// Whether children exist, ascend by identity and refer to file-table pages.
pub open spec fn table_children_ordered(children: Seq<TableChildView>) -> bool {
    &&& children.len() > 0
    &&& forall|i: int, j: int|
        0 <= i < j < children.len() ==> bytes_lt(
            (#[trigger] children[i]).first_file_id,
            (#[trigger] children[j]).first_file_id,
        )
    &&& forall|i: int|
        0 <= i < children.len() ==> (#[trigger] children[i]).page.kind == ObjectKind::FileTablePage
}

/// Why a page has no canonical form.
pub open spec fn table_problem(page: FileTableView, maximum_items: u32) -> Option<FileTableError> {
    match page {
        PageView::Leaf(records) => if records.len() > maximum_items {
            Some(FileTableError::TooManyItems)
        } else if !records_ascend(records) {
            Some(FileTableError::NotStrictlyOrdered)
        } else if !records_valid(records) {
            Some(FileTableError::InvalidRecord)
        } else {
            None
        },
        PageView::Internal(children) => if children.len() == 0 {
            Some(FileTableError::InvalidInternalPage)
        } else if children.len() > maximum_items {
            Some(FileTableError::TooManyItems)
        } else if !table_children_ordered(children) {
            Some(FileTableError::InvalidInternalPage)
        } else {
            None
        },
    }
}

/// Tells whether one identity precedes another.
pub(crate) fn id_before(a: &FileId, b: &FileId) -> (r: bool)
    ensures
        r == bytes_lt(a.bytes@, b.bytes@),
{
    let at = position(a.bytes.as_slice(), b.bytes.as_slice());
    proof {
        lemma_bytes_lt_irreflexive(a.bytes@);
        if bytes_lt(a.bytes@, b.bytes@) && bytes_lt(b.bytes@, a.bytes@) {
            lemma_bytes_lt_transitive(a.bytes@, b.bytes@, a.bytes@);
        }
    }
    match at {
        Position::Before => true,
        _ => false,
    }
}

fn ascending_records(records: &Vec<FileRecord>) -> (r: bool)
    ensures
        r == records_ascend(views(records@)),
{
    let ghost all = views(records@);
    let mut i: usize = 1;
    while i < records.len()
        invariant
            1 <= i,
            i <= records@.len() || records@.len() == 0,
            all == views(records@),
            forall|j: int, k: int|
                0 <= j < k < i && k < all.len() ==> bytes_lt(
                    (#[trigger] all[j]).file_id,
                    (#[trigger] all[k]).file_id,
                ),
        decreases records@.len() - i,
    {
        let ghost last = all[i - 1];
        let ghost here = all[i as int];
        assert(here == records@[i as int]@);
        assert(last == records@[i - 1]@);
        if !id_before(&records[i - 1].file_id, &records[i].file_id) {
            return false;
        }
        assert forall|j: int| 0 <= j < i implies bytes_lt(
            (#[trigger] all[j]).file_id,
            here.file_id,
        ) by {
            if j < i - 1 {
                lemma_bytes_lt_transitive(all[j].file_id, last.file_id, here.file_id);
            }
        }
        i = i + 1;
    }
    true
}

fn valid_records(records: &Vec<FileRecord>) -> (r: bool)
    ensures
        r == records_valid(views(records@)),
{
    let ghost all = views(records@);
    let mut i: usize = 0;
    while i < records.len()
        invariant
            i <= records@.len(),
            all == views(records@),
            forall|j: int| 0 <= j < i ==> record_valid(#[trigger] all[j]),
        decreases records@.len() - i,
    {
        assert(all[i as int] == records@[i as int]@);
        if let Err(_) = records[i].validate() {
            assert(!record_valid(all[i as int]));
            return false;
        }
        i = i + 1;
    }
    true
}

fn ordered_children(children: &Vec<FileTableChild>) -> (r: bool)
    ensures
        r == table_children_ordered(views(children@)),
{
    let ghost all = views(children@);
    if children.len() == 0 {
        return false;
    }
    let mut i: usize = 0;
    while i < children.len()
        invariant
            i <= children@.len(),
            all == views(children@),
            forall|j: int| 0 <= j < i ==> (#[trigger] all[j]).page.kind == ObjectKind::FileTablePage,
            forall|j: int, k: int|
                0 <= j < k < i ==> bytes_lt(
                    (#[trigger] all[j]).first_file_id,
                    (#[trigger] all[k]).first_file_id,
                ),
        decreases children@.len() - i,
    {
        assert(all[i as int] == children@[i as int]@);
        if children[i].page.kind != ObjectKind::FileTablePage {
            return false;
        }
        if i > 0 {
            let ghost last = all[i - 1];
            let ghost here = all[i as int];
            assert(last == children@[i - 1]@);
            if !id_before(&children[i - 1].first_file_id, &children[i].first_file_id) {
                return false;
            }
            assert forall|j: int| 0 <= j < i implies bytes_lt(
                (#[trigger] all[j]).first_file_id,
                here.first_file_id,
            ) by {
                if j < i - 1 {
                    lemma_bytes_lt_transitive(
                        all[j].first_file_id,
                        last.first_file_id,
                        here.first_file_id,
                    );
                }
            }
        }
        i = i + 1;
    }
    true
}

/// The canonical bytes of a page, or why it has none.
pub open spec fn table_encoded(page: FileTableView, maximum_items: u32) -> Result<
    Seq<u8>,
    DecodeErrorView,
> {
    match table_problem(page, maximum_items) {
        Some(error) => Err(table_failure(error)),
        None => Ok(page_bytes::<FileRecord, FileTableChild>(table_format(), page)),
    }
}

/// The page that bytes stand for, or why they stand for none.
pub open spec fn table_decoded(bytes: Seq<u8>, limits: DecodeLimits) -> Result<
    FileTableView,
    DecodeErrorView,
> {
    match page_at::<FileRecord, FileTableChild>(bytes, table_format(), limits) {
        Err(error) => Err(error),
        Ok(page) => match page {
            PageView::Leaf(records) => if records_ascend(records) {
                Ok(page)
            } else {
                Err(table_failure(FileTableError::NotStrictlyOrdered))
            },
            PageView::Internal(children) => if table_children_ordered(children) {
                Ok(page)
            } else {
                Err(table_failure(FileTableError::InvalidInternalPage))
            },
        },
    }
}

/// Encodes one validated canonical file-table page.
pub fn encode_file_table_page(page: &FileTablePage, maximum_items: u32) -> (r: Result<
    Vec<u8>,
    CanonicalDecodeError,
>)
    ensures
        stands_for(r, table_encoded(page@, maximum_items)),
{
    match page {
        FileTablePage::Leaf(records) => {
            if records.len() > maximum_items as usize {
                return Err(broken(FileTableError::TooManyItems));
            }
            if !ascending_records(records) {
                return Err(broken(FileTableError::NotStrictlyOrdered));
            }
            if !valid_records(records) {
                return Err(broken(FileTableError::InvalidRecord));
            }
            write_entries(records, 1, format())
        },
        FileTablePage::Internal(children) => {
            if children.len() == 0 {
                return Err(broken(FileTableError::InvalidInternalPage));
            }
            if children.len() > maximum_items as usize {
                return Err(broken(FileTableError::TooManyItems));
            }
            if !ordered_children(children) {
                return Err(broken(FileTableError::InvalidInternalPage));
            }
            write_entries(children, 2, format())
        },
    }
}

/// Decodes one bounded canonical file-table page.
pub fn decode_file_table_page(bytes: &[u8], limits: DecodeLimits) -> (r: Result<
    FileTablePage,
    CanonicalDecodeError,
>)
    ensures
        stands_for(r, table_decoded(bytes@, limits)),
{
    match read_page::<FileRecord, FileTableChild>(bytes, format(), limits) {
        Err(error) => Err(error),
        Ok(Page::Leaf(records)) => {
            if ascending_records(&records) {
                Ok(FileTablePage::Leaf(records))
            } else {
                Err(broken(FileTableError::NotStrictlyOrdered))
            }
        },
        Ok(Page::Internal(children)) => {
            if ordered_children(&children) {
                Ok(FileTablePage::Internal(children))
            } else {
                Err(broken(FileTableError::InvalidInternalPage))
            }
        },
    }
}

/// Finds the extent of a file-table page without building it.
pub fn file_table_page_decode_shape(bytes: &[u8], limits: DecodeLimits) -> (r: Result<
    DecodedPageShape,
    CanonicalDecodeError,
>)
    ensures
        match page_shape::<FileRecord, FileTableChild>(bytes@, table_format(), limits) {
            Ok((kind, items, nested)) => r matches Ok(shape) && shape.kind == kind && shape.items
                == items && shape.nested_bytes == nested,
            Err(e) => r matches Err(error) && error@ == e,
        },
{
    read_shape::<FileRecord, FileTableChild>(bytes, format(), limits)
}

/// Computes one typed file-table page identity.
pub fn file_table_page_id(page: &FileTablePage, maximum_items: u32) -> (r: Result<
    ObjectId,
    CanonicalDecodeError,
>)
    ensures
        stands_for(
            r,
            match table_encoded(page@, maximum_items) {
                Ok(bytes) => Ok(object_named(ObjectKind::FileTablePage, bytes)),
                Err(error) => Err(error),
            },
        ),
{
    match encode_file_table_page(page, maximum_items) {
        Ok(bytes) => Ok(object_id(ObjectKind::FileTablePage, bytes.as_slice())),
        Err(error) => Err(error),
    }
}

/// Length of an encoded record: 58 bytes and its payload.
pub open spec fn record_length(record: RecordView) -> nat {
    58 + (match record.payload {
        PayloadView::InlineRegular(data) => 1 + data.len(),
        PayloadView::Regular { .. } => 40,
        PayloadView::Directory { .. } => 32,
        PayloadView::SymbolicLink { .. } => 40,
        PayloadView::Empty => 0,
        PayloadView::Device { .. } => 8,
        PayloadView::ReparsePoint { .. } => 40,
    })
}

/// Computes the length of an encoded record.
pub fn file_record_encoded_length(record: &FileRecord) -> (r: usize)
    ensures
        r == record_length(record@),
{
    match record.payload {
        FilePayload::InlineRegular(data) => 59 + data.as_bytes().len(),
        FilePayload::Regular { .. } => 98,
        FilePayload::Directory { .. } => 90,
        FilePayload::SymbolicLink { .. } => 98,
        FilePayload::Empty => 58,
        FilePayload::Device { .. } => 66,
        FilePayload::ReparsePoint { .. } => 98,
    }
}

/// The canonical bytes of a record have the stated length.
pub proof fn record_length_is_exact(record: RecordView, limits: DecodeLimits)
    requires
        FileRecord::item_fits(record, limits),
    ensures
        FileRecord::item_bytes(record).len() == record_length(record),
{
    lemma_auto_spec_u64_to_from_le_bytes();
    lemma_auto_spec_u32_to_from_le_bytes();
}

/// A page that can be encoded and fits the bounds decodes to itself.
pub proof fn file_table_round_trip(page: FileTableView, maximum_items: u32, limits: DecodeLimits)
    requires
        table_encoded(page, maximum_items) is Ok,
        page_fits::<FileRecord, FileTableChild>(table_format(), page, limits),
    ensures
        table_decoded(table_encoded(page, maximum_items)->Ok_0, limits) == Ok::<
            FileTableView,
            DecodeErrorView,
        >(page),
{
    page_reads_back::<FileRecord, FileTableChild>(table_format(), page, limits);
}

/// Bytes that decode are the one encoding of what they decode to.
pub proof fn file_table_bytes_are_canonical(bytes: Seq<u8>, limits: DecodeLimits)
    requires
        bytes.len() <= usize::MAX,
        table_decoded(bytes, limits) is Ok,
    ensures
        table_encoded(table_decoded(bytes, limits)->Ok_0, limits.maximum_page_items) == Ok::<
            Seq<u8>,
            DecodeErrorView,
        >(bytes),
{
    page_writes_back::<FileRecord, FileTableChild>(bytes, table_format(), limits);
}

/// Canonical bytes of a file-table page with bytes added or cut off at the end are refused.
pub proof fn file_table_bytes_are_whole(bytes: Seq<u8>, more: Seq<u8>, count: int, limits: DecodeLimits)
    requires
        table_decoded(bytes, limits) is Ok,
        more.len() > 0,
        bytes.len() + more.len() <= usize::MAX,
        0 <= count < bytes.len(),
    ensures
        table_decoded(bytes + more, limits) == Err::<FileTableView, DecodeErrorView>(
            refused_more(bytes + more, limits.page_object_bytes()),
        ),
        table_decoded(bytes.take(count), limits) is Err,
{
    page_refuses_more::<FileRecord, FileTableChild>(bytes, more, table_format(), limits);
    page_refuses_less::<FileRecord, FileTableChild>(bytes, count, table_format(), limits);
}

/// Replacing a range of an inline payload leaves every other byte alone.
pub proof fn replacement_is_local(
    bytes: Seq<u8>,
    offset: nat,
    replacement: Seq<u8>,
    logical_bytes: nat,
    i: int,
)
    requires
        offset + replacement.len() <= logical_bytes,
        0 <= i < logical_bytes,
    ensures
        offset <= i < offset + replacement.len() ==> replaced(
            bytes,
            offset,
            replacement,
            logical_bytes,
        )[i] == replacement[i - offset],
        !(offset <= i < offset + replacement.len()) && i < bytes.len() ==> replaced(
            bytes,
            offset,
            replacement,
            logical_bytes,
        )[i] == bytes[i],
{
}

} // verus!
