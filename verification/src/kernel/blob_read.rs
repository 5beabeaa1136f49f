//! Bounded authenticated reading of blob ranges.

use super::allocation::{
    claimed, ensured, AllocationError, AllocationLedger, LogicalVecCapacity,
};
use super::attribute_access::{backend_merged, merge_backend_work, retained_bytes};
use super::blob::{
    blob_decoded, blob_page_decode_shape, blob_shape, decode_blob_page, span_adjoins, spans_cover,
    BlobChunkRef, BlobNode, BlobPage, BlobPageView, Span, SpanView,
};
use super::codec::{CanonicalDecodeError, DecodeErrorView, DecodeLimits};
use super::file_lookup::serves;
use super::object_table::{lemma_search_end, search_end};
use super::visited::{
    lemma_visited_added, lemma_visited_begun, lemma_visited_progress, visited_added,
    visited_begun, VisitedObjectSet, VisitedView,
};
use crate::order::views;
use crate::performance::{
    left_over, no_work, total, within, OperationFailure, WorkBudget, WorkCounters, WorkError,
};
use crate::storage::{
    ByteRange, ImmediateObjectStore, ObjectFailure, ObjectId, ObjectKind, ObjectRead,
    ObjectReadRetention, ObjectStoreError, ObjectView, Objects, ReadRequest, ReadView, RequestView,
};
use vstd::prelude::*;

verus! {

/// Logical bytes of one decoded reference.
pub const BLOB_REFERENCE_BYTES: u64 = 56;

/// Logical bytes of one read that is still to be made.
pub const PENDING_READ_BYTES: u64 = 64;

/// Stable authenticated blob-read errors.
#[derive(Debug, PartialEq, Eq)]
pub enum BlobReadError {
    /// Cooperative cancellation occurred before the next storage boundary.
    Cancelled,
    /// A read was handed over that was not asked for, or asked for without need.
    TraversalState,
    /// Root has the wrong typed object class.
    WrongRootKind,
    /// Requested range overflows or exceeds the blob.
    InvalidRange,
    /// Decode and traversal limits are invalid or unrepresentable.
    InvalidLimits,
    /// Bounded output, decode, or traversal scratch allocation failed.
    AllocationFailed,
    /// Graph repeats a page or exceeds its height bound.
    CycleOrHeight,
    /// Parent routing bounds do not match the authenticated child.
    ChildBoundsMismatch,
    /// Intersecting chunks did not cover the exact request.
    IncompleteCoverage,
    /// Authenticated chunk bytes do not equal the indexed logical span.
    ChunkLengthMismatch,
    /// Immutable-object backend rejected a read.
    Storage(ObjectStoreError),
    /// Canonical page failed decoding.
    Decode(CanonicalDecodeError),
    /// Exact work exceeded or overflowed its budget.
    Work(WorkError),
}

/// Abstract value of [`BlobReadError`].
#[verifier::ext_equal]
pub enum BlobReadErrorView {
    /// Cooperative cancellation occurred before the next storage boundary.
    Cancelled,
    /// A read was handed over that was not asked for, or asked for without need.
    TraversalState,
    /// Root has the wrong typed object class.
    WrongRootKind,
    /// Requested range overflows or exceeds the blob.
    InvalidRange,
    /// Decode and traversal limits are invalid or unrepresentable.
    InvalidLimits,
    /// Bounded output, decode, or traversal scratch allocation failed.
    AllocationFailed,
    /// Graph repeats a page or exceeds its height bound.
    CycleOrHeight,
    /// Parent routing bounds do not match the authenticated child.
    ChildBoundsMismatch,
    /// Intersecting chunks did not cover the exact request.
    IncompleteCoverage,
    /// Authenticated chunk bytes do not equal the indexed logical span.
    ChunkLengthMismatch,
    /// Immutable-object backend rejected a read.
    Storage(ObjectStoreError),
    /// Canonical page failed decoding.
    Decode(DecodeErrorView),
    /// Exact work exceeded or overflowed its budget.
    Work(WorkError),
}

impl View for BlobReadError {
    type V = BlobReadErrorView;

    open spec fn view(&self) -> BlobReadErrorView {
        match *self {
            BlobReadError::Cancelled => BlobReadErrorView::Cancelled,
            BlobReadError::TraversalState => BlobReadErrorView::TraversalState,
            BlobReadError::WrongRootKind => BlobReadErrorView::WrongRootKind,
            BlobReadError::InvalidRange => BlobReadErrorView::InvalidRange,
            BlobReadError::InvalidLimits => BlobReadErrorView::InvalidLimits,
            BlobReadError::AllocationFailed => BlobReadErrorView::AllocationFailed,
            BlobReadError::CycleOrHeight => BlobReadErrorView::CycleOrHeight,
            BlobReadError::ChildBoundsMismatch => BlobReadErrorView::ChildBoundsMismatch,
            BlobReadError::IncompleteCoverage => BlobReadErrorView::IncompleteCoverage,
            BlobReadError::ChunkLengthMismatch => BlobReadErrorView::ChunkLengthMismatch,
            BlobReadError::Storage(error) => BlobReadErrorView::Storage(error),
            BlobReadError::Decode(error) => BlobReadErrorView::Decode(error@),
            BlobReadError::Work(error) => BlobReadErrorView::Work(error),
        }
    }
}

/// Authenticated blob-read failure with exact work retained on every path.
pub type BlobReadFailure = OperationFailure<BlobReadError>;

/// A failure with the work spent until then.
pub type BlobReadFailing = (BlobReadErrorView, WorkCounters);

/// A failure as an abstract one.
pub open spec fn blob_failure_is(failure: BlobReadFailure, failing: BlobReadFailing) -> bool {
    failure.error@ == failing.0 && failure.work == failing.1
}

/// Why an object is worth reading soon.
#[derive(Clone, Copy, Debug, PartialEq, Eq, Structural)]
pub enum ResidencyReason {
    /// It follows in the logical order of a blob.
    SequentialRange,
    /// It follows in the key order of a tree.
    MetadataSuccessor,
}

/// An object worth reading soon.
#[derive(Clone, Copy, Debug, PartialEq, Eq)]
pub struct ResidencyHint {
    /// Object to read.
    pub object: ObjectId,
    /// Largest admitted object.
    pub maximum_bytes: u64,
    /// Why it is worth reading.
    pub reason: ResidencyReason,
}

/// Abstract value of [`ResidencyHint`].
#[verifier::ext_equal]
pub struct HintView {
    /// Object to read.
    pub object: ObjectView,
    /// Largest admitted object.
    pub maximum_bytes: u64,
    /// Why it is worth reading.
    pub reason: ResidencyReason,
}

impl View for ResidencyHint {
    type V = HintView;

    open spec fn view(&self) -> HintView {
        HintView {
            object: self.object@,
            maximum_bytes: self.maximum_bytes,
            reason: self.reason,
        }
    }
}

/// Successful authenticated logical blob range and exact work evidence.
#[derive(Debug, PartialEq, Eq)]
pub struct BlobRead {
    /// Requested bytes.
    pub bytes: Vec<u8>,
    /// Exact kernel and backend work.
    pub work: WorkCounters,
    /// Exact authenticated forward page or chunk exposed by this traversal.
    pub next_residency: Option<ResidencyHint>,
}

/// Abstract value of [`BlobRead`].
#[verifier::ext_equal]
pub struct BlobReadView {
    /// Requested bytes.
    pub bytes: Seq<u8>,
    /// Exact kernel and backend work.
    pub work: WorkCounters,
    /// Exact authenticated forward page or chunk exposed by this traversal.
    pub next_residency: Option<HintView>,
}

impl View for BlobRead {
    type V = BlobReadView;

    open spec fn view(&self) -> BlobReadView {
        BlobReadView {
            bytes: self.bytes@,
            work: self.work,
            next_residency: match self.next_residency {
                Some(hint) => Some(hint@),
                None => None,
            },
        }
    }
}

/// One read that is still to be made.
#[derive(Clone, Copy, Debug, PartialEq, Eq)]
pub enum PendingBlobRead {
    /// An index page.
    Page {
        /// Page to read.
        page: ObjectId,
        /// Offset that it must begin with.
        expected_first: u64,
        /// Offset that it must end with, unless it is the root.
        expected_end: Option<u64>,
        /// Level of the page, the root being at one.
        height: u16,
    },
    /// A chunk.
    Chunk(BlobChunkRef),
}

/// Abstract value of [`PendingBlobRead`].
#[verifier::ext_equal]
pub enum PendingView {
    /// An index page.
    Page {
        /// Page to read.
        page: ObjectView,
        /// Offset that it must begin with.
        expected_first: u64,
        /// Offset that it must end with, unless it is the root.
        expected_end: Option<u64>,
        /// Level of the page, the root being at one.
        height: u16,
    },
    /// A chunk.
    Chunk(SpanView),
}

impl View for PendingBlobRead {
    type V = PendingView;

    open spec fn view(&self) -> PendingView {
        match *self {
            PendingBlobRead::Page { page, expected_first, expected_end, height } => {
                PendingView::Page { page: page@, expected_first, expected_end, height }
            },
            PendingBlobRead::Chunk(chunk) => PendingView::Chunk(chunk@),
        }
    }
}

/// A range read between two object reads.
pub struct BlobRangeMachine {
    range: ByteRange,
    limits: DecodeLimits,
    budget: WorkBudget,
    pending: Vec<PendingBlobRead>,
    pending_capacity: LogicalVecCapacity,
    awaiting: Option<PendingBlobRead>,
    visited: VisitedObjectSet,
    output: Vec<u8>,
    work: WorkCounters,
    allocations: AllocationLedger,
    successor: Option<(u64, ResidencyHint)>,
}

/// Abstract value of [`BlobRangeMachine`].
#[verifier::ext_equal]
pub struct BlobRangeView {
    /// Range asked for.
    pub range: ByteRange,
    /// Decoding bounds.
    pub limits: DecodeLimits,
    /// Work admitted.
    pub budget: WorkBudget,
    /// Reads still to be made, the next one last.
    pub pending: Seq<PendingView>,
    /// Room for them.
    pub capacity: LogicalVecCapacity,
    /// Read that has been asked for.
    pub awaiting: Option<PendingView>,
    /// Pages asked for.
    pub visited: VisitedView,
    /// Bytes read.
    pub output: Seq<u8>,
    /// Work spent.
    pub work: WorkCounters,
    /// Logical bytes held.
    pub live: u64,
    /// The nearest reference past the range, with its offset.
    pub successor: Option<(u64, HintView)>,
}

/// An optional read.
pub open spec fn pending_view(pending: Option<PendingBlobRead>) -> Option<PendingView> {
    match pending {
        Some(pending) => Some(pending@),
        None => None,
    }
}

/// An optional reference past the range.
pub open spec fn successor_view(successor: Option<(u64, ResidencyHint)>) -> Option<
    (u64, HintView),
> {
    match successor {
        Some((offset, hint)) => Some((offset, hint@)),
        None => None,
    }
}

impl View for BlobRangeMachine {
    type V = BlobRangeView;

    closed spec fn view(&self) -> BlobRangeView {
        BlobRangeView {
            range: self.range,
            limits: self.limits,
            budget: self.budget,
            pending: views(self.pending@),
            capacity: self.pending_capacity,
            awaiting: pending_view(self.awaiting),
            visited: self.visited.model(),
            output: self.output@,
            work: self.work,
            live: self.allocations.live_bytes,
            successor: successor_view(self.successor),
        }
    }
}

/// Whether a span has bytes of a range, or surrounds an empty one.
pub open spec fn meets(span: SpanView, range: ByteRange) -> bool {
    span.first < range.offset + range.length && span.end > range.offset
}

/// Whether a chunk to be read is worth reading.
pub open spec fn pending_fits(pending: PendingView, range: ByteRange) -> bool {
    pending matches PendingView::Chunk(span) ==> span.first < span.end && meets(span, range)
}

/// Whether a read is in a state that its steps lead to.
pub open spec fn range_sound(read: BlobRangeView) -> bool {
    &&& read.range.offset + read.range.length <= u64::MAX
    &&& read.range.length <= usize::MAX
    &&& read.visited.sound()
    &&& read.capacity.logical_bytes + read.visited.bytes <= read.live
    &&& read.capacity.elements >= read.pending.len()
    &&& forall|i: int|
        0 <= i < read.pending.len() ==> pending_fits(#[trigger] read.pending[i], read.range)
    &&& read.awaiting matches Some(pending) ==> pending_fits(pending, read.range)
}

/// Most reads that may wait at a time.
pub open spec fn pending_bound(limits: DecodeLimits) -> u64 {
    (limits.maximum_visited_pages + limits.maximum_page_items) as u64
}

/// An allocation failure as a read failure.
pub open spec fn blob_allocation_cause(error: AllocationError) -> BlobReadErrorView {
    match error {
        AllocationError::Work(error) => BlobReadErrorView::Work(error),
        AllocationError::Overflow => BlobReadErrorView::Work(WorkError::Overflow),
        AllocationError::ReleaseInvariant => BlobReadErrorView::Work(WorkError::Overflow),
        AllocationError::InvalidCapacity => BlobReadErrorView::AllocationFailed,
        AllocationError::CapacityExceeded => BlobReadErrorView::AllocationFailed,
    }
}

fn map_allocation(error: AllocationError) -> (r: BlobReadError)
    ensures
        r@ == blob_allocation_cause(error),
{
    match error {
        AllocationError::Work(error) => BlobReadError::Work(error),
        AllocationError::Overflow => BlobReadError::Work(WorkError::Overflow),
        AllocationError::ReleaseInvariant => BlobReadError::Work(WorkError::Overflow),
        AllocationError::InvalidCapacity => BlobReadError::AllocationFailed,
        AllocationError::CapacityExceeded => BlobReadError::AllocationFailed,
    }
}

/// Work with some more spent, or the failure for it: what overflows is not
/// counted, what exceeds the budget is.
pub open spec fn spent(work: WorkCounters, more: WorkCounters, budget: WorkBudget) -> Result<
    WorkCounters,
    BlobReadFailing,
> {
    match total(work, more) {
        Err(error) => Err((BlobReadErrorView::Work(error), work)),
        Ok(sum) => if within(sum, budget) {
            Ok(sum)
        } else {
            Err((BlobReadErrorView::Work(WorkError::Exceeded), sum))
        },
    }
}

fn spend(work: WorkCounters, more: WorkCounters, budget: WorkBudget) -> (r: Result<
    WorkCounters,
    BlobReadFailure,
>)
    ensures
        match spent(work, more, budget) {
            Ok(sum) => r == Ok::<WorkCounters, BlobReadFailure>(sum),
            Err(failing) => r matches Err(failure) && blob_failure_is(failure, failing),
        },
{
    match work.checked_add(more) {
        Err(error) => Err(OperationFailure::new(BlobReadError::Work(error), work)),
        Ok(sum) => match sum.verify(budget) {
            Ok(()) => Ok(sum),
            Err(error) => Err(OperationFailure::new(BlobReadError::Work(error), sum)),
        },
    }
}

/// A fresh read, or why it cannot begin.
pub open spec fn range_begun(
    root: ObjectView,
    range: ByteRange,
    limits: DecodeLimits,
    budget: WorkBudget,
) -> Result<BlobRangeView, BlobReadFailing> {
    if root.kind != ObjectKind::Blob {
        Err((BlobReadErrorView::WrongRootKind, no_work()))
    } else if range.offset + range.length > u64::MAX || range.length > usize::MAX {
        Err((BlobReadErrorView::InvalidRange, no_work()))
    } else if !limits.admits_pages(1) {
        Err((BlobReadErrorView::InvalidLimits, no_work()))
    } else {
        match claimed(
            0,
            range.length,
            if range.length != 0 {
                1
            } else {
                0
            },
            no_work(),
            budget,
        ) {
            Err(error) => Err((blob_allocation_cause(error), no_work())),
            Ok(work) => match visited_begun(
                limits.maximum_visited_pages as nat,
                range.length,
                work,
                budget,
            ) {
                Err(error) => Err((blob_allocation_cause(error), work)),
                Ok((visited, live, work)) => match ensured(
                    LogicalVecCapacity { elements: 0, logical_bytes: 0 },
                    0,
                    PENDING_READ_BYTES,
                    pending_bound(limits),
                    live,
                    work,
                    budget,
                ) {
                    Err(error) => Err((blob_allocation_cause(error), work)),
                    Ok((capacity, live, work)) => Ok(
                        BlobRangeView {
                            range,
                            limits,
                            budget,
                            pending: seq![
                                PendingView::Page {
                                    page: root,
                                    expected_first: 0,
                                    expected_end: None,
                                    height: 1,
                                },
                            ],
                            capacity,
                            awaiting: None,
                            visited,
                            output: Seq::empty(),
                            work,
                            live,
                            successor: None,
                        },
                    ),
                },
            },
        }
    }
}

/// Object of a read, and the largest size admitted for it.
pub open spec fn wanted(pending: PendingView, limits: DecodeLimits) -> (ObjectView, u64) {
    match pending {
        PendingView::Page { page, .. } => (page, limits.page_object_bytes()),
        PendingView::Chunk(span) => (span.object, (span.end - span.first) as u64),
    }
}

/// The request for one object and the state while it is awaited, or why it cannot be
/// made.
pub open spec fn range_asked(read: BlobRangeView, next: PendingView) -> Result<
    (RequestView, BlobRangeView),
    BlobReadFailing,
> {
    if !within(read.work, read.budget) {
        Err((BlobReadErrorView::Work(WorkError::Exceeded), read.work))
    } else if read.live > read.budget.peak_allocation_bytes {
        Err((BlobReadErrorView::Work(WorkError::Overflow), read.work))
    } else {
        let (object, maximum_bytes) = wanted(next, read.limits);
        Ok(
            (
                RequestView {
                    object,
                    maximum_bytes,
                    remaining: WorkBudget {
                        peak_allocation_bytes: (read.budget.peak_allocation_bytes
                            - read.live) as u64,
                        ..left_over(read.work, read.budget)
                    },
                },
                BlobRangeView {
                    pending: read.pending.drop_last(),
                    awaiting: Some(next),
                    ..read
                },
            ),
        )
    }
}

/// The next request of a read and its state while it waits, or why there is none.
pub open spec fn range_prepared(read: BlobRangeView) -> Result<
    (RequestView, BlobRangeView),
    BlobReadFailing,
> {
    if read.pending.len() == 0 {
        Err((BlobReadErrorView::TraversalState, read.work))
    } else {
        let next = read.pending.last();
        match next {
            PendingView::Page { page, height, .. } => if height > read.limits.maximum_page_height {
                Err((BlobReadErrorView::CycleOrHeight, read.work))
            } else {
                match visited_added(read.visited, page, read.live, read.work, read.budget) {
                    (Err(error), _, _, work) => Err((blob_allocation_cause(error), work)),
                    (Ok(inserted), visited, live, work) => if !inserted {
                        Err((BlobReadErrorView::CycleOrHeight, work))
                    } else {
                        range_asked(BlobRangeView { visited, live, work, ..read }, next)
                    },
                }
            },
            PendingView::Chunk(_) => range_asked(read, next),
        }
    }
}

/// Examined items.
pub open spec fn blob_examining(count: nat) -> WorkCounters {
    WorkCounters { items_examined: count as u64, ..no_work() }
}

/// The read to make of a reference.
pub open spec fn pending_of(span: SpanView, leaf: bool, height: u16) -> PendingView {
    if leaf {
        PendingView::Chunk(span)
    } else {
        PendingView::Page {
            page: span.object,
            expected_first: span.first,
            expected_end: Some(span.end),
            height,
        }
    }
}

/// The nearest reference past the range, once another is known.
pub open spec fn nearer(
    successor: Option<(u64, HintView)>,
    offset: u64,
    hint: HintView,
) -> Option<(u64, HintView)> {
    match successor {
        Some((current, _)) => if offset < current {
            Some((offset, hint))
        } else {
            successor
        },
        None => Some((offset, hint)),
    }
}

/// A read once one reference of a page has been looked at: it waits to be read
/// where it meets the range, and may be the nearest one past it.
pub open spec fn span_walked(
    read: BlobRangeView,
    span: SpanView,
    leaf: bool,
    height: u16,
) -> Result<BlobRangeView, BlobReadFailing> {
    match spent(read.work, blob_examining(1), read.budget) {
        Err(failing) => Err(failing),
        Ok(work) => if meets(span, read.range) {
            match ensured(
                read.capacity,
                read.pending.len() as u64,
                PENDING_READ_BYTES,
                pending_bound(read.limits),
                read.live,
                work,
                read.budget,
            ) {
                Err(error) => Err((blob_allocation_cause(error), work)),
                Ok((capacity, live, work)) => Ok(
                    BlobRangeView {
                        work,
                        capacity,
                        live,
                        pending: read.pending.push(pending_of(span, leaf, height)),
                        ..read
                    },
                ),
            }
        } else if read.range.length != 0 && span.first >= read.range.offset + read.range.length {
            let hint = HintView {
                object: span.object,
                maximum_bytes: if leaf {
                    (span.end - span.first) as u64
                } else {
                    read.limits.page_object_bytes()
                },
                reason: ResidencyReason::SequentialRange,
            };
            Ok(
                BlobRangeView {
                    work,
                    successor: nearer(read.successor, span.first, hint),
                    ..read
                },
            )
        } else {
            Ok(BlobRangeView { work, ..read })
        },
    }
}

/// A read once the first `count` references of a page have been looked at, the
/// last of them first.
pub open spec fn spans_walked(
    read: BlobRangeView,
    spans: Seq<SpanView>,
    count: nat,
    leaf: bool,
    height: u16,
) -> Result<BlobRangeView, BlobReadFailing>
    decreases count,
{
    if count == 0 {
        Ok(read)
    } else {
        match span_walked(read, spans[count - 1], leaf, height) {
            Err(failing) => Err(failing),
            Ok(next) => spans_walked(next, spans, (count - 1) as nat, leaf, height),
        }
    }
}

/// A read once a page has been decoded.
pub open spec fn page_walked(
    read: BlobRangeView,
    page: BlobPageView,
    expected_first: u64,
    expected_end: Option<u64>,
    height: u16,
) -> Result<BlobRangeView, BlobReadFailing> {
    if page.first != expected_first || (expected_end matches Some(end) && page.end != end) {
        Err((BlobReadErrorView::ChildBoundsMismatch, read.work))
    } else if expected_end is None && read.range.offset + read.range.length > page.end {
        Err((BlobReadErrorView::InvalidRange, read.work))
    } else if !page.leaf && height == u16::MAX {
        Err((BlobReadErrorView::CycleOrHeight, read.work))
    } else {
        spans_walked(read, page.spans, page.spans.len(), page.leaf, (height + 1) as u16)
    }
}

/// A read once the page that it waited for has come.
pub open spec fn page_accepted(
    read: BlobRangeView,
    found: ReadView,
    expected_first: u64,
    expected_end: Option<u64>,
    height: u16,
) -> Result<BlobRangeView, BlobReadFailing> {
    match spent(read.work, WorkCounters { page_reads: 1, ..no_work() }, read.budget) {
        Err(failing) => Err(failing),
        Ok(work) => match claimed(read.live, retained_bytes(found), 0, work, read.budget) {
            Err(error) => Err((blob_allocation_cause(error), work)),
            Ok(work) => match blob_shape(found.bytes, read.limits) {
                Err(error) => Err((BlobReadErrorView::Decode(error), work)),
                Ok((_, items)) => match spent(work, blob_examining(items), read.budget) {
                    Err(failing) => Err(failing),
                    Ok(work) => {
                        let retained = (read.live + retained_bytes(found)) as u64;
                        let size = (items * BLOB_REFERENCE_BYTES) as u64;
                        match claimed(
                            retained,
                            size,
                            if size != 0 {
                                1
                            } else {
                                0
                            },
                            work,
                            read.budget,
                        ) {
                            Err(error) => Err((blob_allocation_cause(error), work)),
                            Ok(work) => match blob_decoded(found.bytes, read.limits) {
                                Err(error) => Err((BlobReadErrorView::Decode(error), work)),
                                Ok(page) => match page_walked(
                                    BlobRangeView { work, live: (retained + size) as u64, ..read },
                                    page,
                                    expected_first,
                                    expected_end,
                                    height,
                                ) {
                                    Err(failing) => Err(failing),
                                    Ok(next) => Ok(
                                        BlobRangeView {
                                            live: (next.live - size - retained_bytes(found)) as u64,
                                            ..next
                                        },
                                    ),
                                },
                            },
                        }
                    },
                },
            },
        },
    }
}

/// The part of a span that a range asks for, from the start of the span.
pub open spec fn clip(span: SpanView, range: ByteRange) -> (int, int) {
    (
        if range.offset >= span.first {
            range.offset - span.first
        } else {
            0
        },
        if range.offset + range.length <= span.end {
            range.offset + range.length - span.first
        } else {
            span.end - span.first
        },
    )
}

/// A read once the chunk that it waited for has come.
pub open spec fn chunk_accepted(read: BlobRangeView, found: ReadView, span: SpanView) -> Result<
    BlobRangeView,
    BlobReadFailing,
> {
    match claimed(read.live, retained_bytes(found), 0, read.work, read.budget) {
        Err(error) => Err((blob_allocation_cause(error), read.work)),
        Ok(work) => if found.bytes.len() != span.end - span.first {
            Err((BlobReadErrorView::ChunkLengthMismatch, work))
        } else {
            let (start, end) = clip(span, read.range);
            match spent(
                work,
                WorkCounters {
                    bytes_copied: (end - start) as u64,
                    output_bytes: (end - start) as u64,
                    items_returned: 1,
                    ..no_work()
                },
                read.budget,
            ) {
                Err(failing) => Err(failing),
                Ok(work) => Ok(
                    BlobRangeView {
                        work,
                        output: read.output + found.bytes.subrange(start, end),
                        ..read
                    },
                ),
            }
        },
    }
}

/// A read once what it waited for has come.
pub open spec fn range_accepted(read: BlobRangeView, found: ReadView) -> Result<
    BlobRangeView,
    BlobReadFailing,
> {
    match read.awaiting {
        None => Err((BlobReadErrorView::TraversalState, read.work)),
        Some(pending) => match backend_merged(read.work, found.work, read.live) {
            Err(error) => Err((BlobReadErrorView::Work(error), read.work)),
            Ok(work) => {
                let read = BlobRangeView { work, awaiting: None, ..read };
                match pending {
                    PendingView::Page { expected_first, expected_end, height, .. } => {
                        page_accepted(read, found, expected_first, expected_end, height)
                    },
                    PendingView::Chunk(span) => chunk_accepted(read, found, span),
                }
            },
        },
    }
}

/// A read once the page that it waited for has come out of a cache of decoded pages.
pub open spec fn range_cached(read: BlobRangeView, page: BlobPageView) -> Result<
    BlobRangeView,
    BlobReadFailing,
> {
    match read.awaiting {
        Some(PendingView::Page { expected_first, expected_end, height, .. }) => match spent(
            read.work,
            WorkCounters { page_reads: 1, ..no_work() },
            read.budget,
        ) {
            Err(failing) => Err(failing),
            Ok(work) => page_walked(
                BlobRangeView { work, awaiting: None, ..read },
                page,
                expected_first,
                expected_end,
                height,
            ),
        },
        _ => Err((BlobReadErrorView::TraversalState, read.work)),
    }
}

/// The failure of a read whose store failed.
pub open spec fn range_failed(read: BlobRangeView, failure: ObjectFailure) -> BlobReadFailing {
    match backend_merged(read.work, failure.work, read.live) {
        Ok(work) => (BlobReadErrorView::Storage(failure.error), work),
        Err(error) => (BlobReadErrorView::Work(error), read.work),
    }
}

/// The result of a read that has nothing left to read.
pub open spec fn range_finished(read: BlobRangeView) -> Result<BlobReadView, BlobReadFailing> {
    if read.output.len() != read.range.length {
        Err((BlobReadErrorView::IncompleteCoverage, read.work))
    } else {
        Ok(
            BlobReadView {
                bytes: read.output,
                work: read.work,
                next_residency: match read.successor {
                    Some((_, hint)) => Some(hint),
                    None => None,
                },
            },
        )
    }
}

/// A fresh read is sound.
proof fn lemma_range_begun(
    root: ObjectView,
    range: ByteRange,
    limits: DecodeLimits,
    budget: WorkBudget,
)
    requires
        range_begun(root, range, limits, budget) is Ok,
    ensures
        range_sound(range_begun(root, range, limits, budget)->Ok_0),
{
    let operations = if range.length != 0 {
        1u64
    } else {
        0u64
    };
    let work = claimed(0, range.length, operations, no_work(), budget)->Ok_0;
    lemma_visited_begun(limits.maximum_visited_pages as nat, range.length, work, budget);
}

/// Looking at references only adds reads and work.
proof fn lemma_spans_walked(
    read: BlobRangeView,
    spans: Seq<SpanView>,
    count: nat,
    leaf: bool,
    height: u16,
)
    requires
        count <= spans.len(),
        range_sound(read),
        spans_walked(read, spans, count, leaf, height) is Ok,
        forall|i: int| 0 <= i < count ==> (#[trigger] spans[i]).first < spans[i].end,
    ensures
        ({
            let next = spans_walked(read, spans, count, leaf, height)->Ok_0;
            &&& range_sound(next)
            &&& next.range == read.range
            &&& next.limits == read.limits
            &&& next.budget == read.budget
            &&& next.visited == read.visited
            &&& next.output == read.output
            &&& next.awaiting == read.awaiting
            &&& next.live - next.capacity.logical_bytes == read.live - read.capacity.logical_bytes
            &&& next.live >= read.live
        }),
    decreases count,
{
    if count > 0 {
        let next = span_walked(read, spans[count - 1], leaf, height)->Ok_0;
        assert(range_sound(next)) by {
            assert forall|i: int| 0 <= i < next.pending.len() implies pending_fits(
                #[trigger] next.pending[i],
                next.range,
            ) by {
                if i < read.pending.len() {
                    assert(next.pending[i] == read.pending[i]);
                }
            }
        }
        lemma_spans_walked(next, spans, (count - 1) as nat, leaf, height);
    }
}

proof fn lemma_blob_shape_size(bytes: Seq<u8>, limits: DecodeLimits)
    requires
        blob_shape(bytes, limits) is Ok,
    ensures
        blob_shape(bytes, limits)->Ok_0.1 <= u32::MAX,
        blob_shape(bytes, limits)->Ok_0.1 * 56 <= 0xffff_ffff * 56,
{
}

impl BlobRangeMachine {
    /// Begins to read a range.
    pub fn new(root: ObjectId, range: ByteRange, limits: DecodeLimits, budget: WorkBudget) -> (r:
        Result<Self, BlobReadFailure>)
        ensures
            match range_begun(root@, range, limits, budget) {
                Ok(read) => r matches Ok(machine) && machine@ == read && range_sound(read),
                Err(failing) => r matches Err(failure) && blob_failure_is(failure, failing),
            },
    {
        if root.kind != ObjectKind::Blob {
            return Err(OperationFailure::before_work(BlobReadError::WrongRootKind));
        }
        if range.length > u64::MAX - range.offset || range.length > usize::MAX as u64 {
            return Err(OperationFailure::before_work(BlobReadError::InvalidRange));
        }
        if !limits.page_limits_valid(1) {
            return Err(OperationFailure::before_work(BlobReadError::InvalidLimits));
        }
        let mut allocations = AllocationLedger::default();
        let mut work = WorkCounters::default();
        let operations: u64 = if range.length != 0 {
            1
        } else {
            0
        };
        if let Err(error) = allocations.claim_bytes(range.length, operations, &mut work, budget) {
            return Err(OperationFailure::new(map_allocation(error), work));
        }
        let visited = match VisitedObjectSet::new(
            limits.maximum_visited_pages as usize,
            &mut allocations,
            &mut work,
            budget,
        ) {
            Ok(visited) => visited,
            Err(error) => {
                return Err(OperationFailure::new(map_allocation(error), work));
            },
        };
        let mut pending_capacity = LogicalVecCapacity::default();
        let maximum: u64 = limits.maximum_visited_pages as u64 + limits.maximum_page_items as u64;
        if let Err(error) = pending_capacity.ensure_for_push(
            0,
            PENDING_READ_BYTES,
            maximum,
            &mut allocations,
            &mut work,
            budget,
        ) {
            return Err(OperationFailure::new(map_allocation(error), work));
        }
        let mut pending: Vec<PendingBlobRead> = Vec::new();
        pending.push(
            PendingBlobRead::Page { page: root, expected_first: 0, expected_end: None, height: 1 },
        );
        let machine = BlobRangeMachine {
            range,
            limits,
            budget,
            pending,
            pending_capacity,
            awaiting: None,
            visited,
            output: Vec::new(),
            work,
            allocations,
            successor: None,
        };
        let ghost read = range_begun(root@, range, limits, budget)->Ok_0;
        assert(machine@.pending =~= read.pending);
        assert(machine@.visited =~= read.visited);
        assert(machine@.output =~= read.output);
        Ok(machine)
    }

    /// Tells whether every read has been made.
    pub fn is_complete(&self) -> (r: bool)
        ensures
            r == (self@.pending.len() == 0 && self@.awaiting is None),
    {
        self.pending.len() == 0 && self.awaiting.is_none()
    }

    /// Ends a read that has nothing left to read.
    pub fn finish(self) -> (r: Result<BlobRead, BlobReadFailure>)
        ensures
            match range_finished(self@) {
                Ok(read) => r matches Ok(found) && found@ == read,
                Err(failing) => r matches Err(failure) && blob_failure_is(failure, failing),
            },
    {
        if self.output.len() as u64 != self.range.length {
            return Err(OperationFailure::new(BlobReadError::IncompleteCoverage, self.work));
        }
        let next_residency = match self.successor {
            Some((_, hint)) => Some(hint),
            None => None,
        };
        Ok(BlobRead { bytes: self.output, work: self.work, next_residency })
    }

    /// Asks for the next object.
    pub fn prepare_read(&mut self) -> (r: Result<ReadRequest, BlobReadFailure>)
        requires
            range_sound(old(self)@),
        ensures
            match range_prepared(old(self)@) {
                Ok((request, read)) => r matches Ok(made) && made@ == request && final(self)@
                    == read && range_sound(read),
                Err(failing) => r matches Err(failure) && blob_failure_is(failure, failing),
            },
    {
        let ghost before = self@;
        let next = match self.pending.pop() {
            Some(next) => next,
            None => {
                return Err(OperationFailure::new(BlobReadError::TraversalState, self.work));
            },
        };
        assert(before.pending.last() == next@);
        assert(views(self.pending@) =~= before.pending.drop_last());
        let (object, maximum_bytes) = match next {
            PendingBlobRead::Page { page, height, .. } => {
                if height > self.limits.maximum_page_height {
                    return Err(OperationFailure::new(BlobReadError::CycleOrHeight, self.work));
                }
                proof {
                    lemma_visited_added(
                        before.visited,
                        page@,
                        before.live,
                        before.work,
                        before.budget,
                    );
                }
                match self.visited.insert(
                    page,
                    &mut self.allocations,
                    &mut self.work,
                    self.budget,
                ) {
                    Ok(done) => {
                        if !done.inserted {
                            return Err(
                                OperationFailure::new(BlobReadError::CycleOrHeight, self.work),
                            );
                        }
                    },
                    Err(error) => {
                        return Err(OperationFailure::new(map_allocation(error), self.work));
                    },
                }
                (page, self.limits.maximum_page_object_bytes())
            },
            PendingBlobRead::Chunk(chunk) => {
                assert(pending_fits(before.pending.last(), before.range));
                (chunk.chunk, chunk.end_offset - chunk.first_offset)
            },
        };
        let mut remaining = match self.work.remaining(self.budget) {
            Ok(remaining) => remaining,
            Err(error) => {
                return Err(OperationFailure::new(BlobReadError::Work(error), self.work));
            },
        };
        if self.allocations.live_bytes > self.budget.peak_allocation_bytes {
            return Err(OperationFailure::new(BlobReadError::Work(WorkError::Overflow), self.work));
        }
        remaining.peak_allocation_bytes = self.budget.peak_allocation_bytes
            - self.allocations.live_bytes;
        self.awaiting = Some(next);
        proof {
            let read = range_prepared(before)->Ok_0.1;
            assert(self@ =~= read);
            assert forall|i: int| 0 <= i < read.pending.len() implies pending_fits(
                #[trigger] read.pending[i],
                read.range,
            ) by {
                assert(read.pending[i] == before.pending[i]);
            }
        }
        Ok(ReadRequest { object, maximum_bytes, remaining })
    }

    /// Looks at one reference of a page.
    fn walk_span(&mut self, first: u64, end: u64, object: ObjectId, leaf: bool, height: u16) -> (r:
        Result<(), BlobReadFailure>)
        requires
            range_sound(old(self)@),
            first < end,
        ensures
            match span_walked(
                old(self)@,
                SpanView { first, end, object: object@ },
                leaf,
                height,
            ) {
                Ok(read) => r is Ok && final(self)@ == read,
                Err(failing) => r matches Err(failure) && blob_failure_is(failure, failing),
            },
    {
        let ghost before = self@;
        let ghost span = SpanView { first, end, object: object@ };
        match spend(self.work, WorkCounters::of_items_examined(1), self.budget) {
            Ok(work) => {
                self.work = work;
            },
            Err(failure) => {
                return Err(failure);
            },
        }
        let range_end: u64 = self.range.offset + self.range.length;
        if first < range_end && end > self.range.offset {
            let maximum: u64 = self.limits.maximum_visited_pages as u64
                + self.limits.maximum_page_items as u64;
            let length = self.pending.len() as u64;
            if let Err(error) = self.pending_capacity.ensure_for_push(
                length,
                PENDING_READ_BYTES,
                maximum,
                &mut self.allocations,
                &mut self.work,
                self.budget,
            ) {
                return Err(OperationFailure::new(map_allocation(error), self.work));
            }
            let pending = if leaf {
                PendingBlobRead::Chunk(
                    BlobChunkRef { first_offset: first, end_offset: end, chunk: object },
                )
            } else {
                PendingBlobRead::Page {
                    page: object,
                    expected_first: first,
                    expected_end: Some(end),
                    height,
                }
            };
            self.pending.push(pending);
            assert(views(self.pending@) =~= before.pending.push(pending_of(span, leaf, height)));
        } else if self.range.length != 0 && first >= range_end {
            let maximum_bytes = if leaf {
                end - first
            } else {
                self.limits.maximum_page_object_bytes()
            };
            let closer = match self.successor {
                Some((current, _)) => first < current,
                None => true,
            };
            if closer {
                let reason = ResidencyReason::SequentialRange;
                self.successor = Some((first, ResidencyHint { object, maximum_bytes, reason }));
            }
        }
        assert(self@ =~= span_walked(before, span, leaf, height)->Ok_0);
        Ok(())
    }

    /// Looks at every reference of a page, the last one first.
    fn walk_spans<T: Span>(&mut self, items: &Vec<T>, leaf: bool, height: u16) -> (r: Result<
        (),
        BlobReadFailure,
    >)
        requires
            range_sound(old(self)@),
            forall|i: int|
                0 <= i < items@.len() ==> (#[trigger] views(items@)[i]).first < views(
                    items@,
                )[i].end,
        ensures
            match spans_walked(old(self)@, views(items@), items@.len(), leaf, height) {
                Ok(read) => r is Ok && final(self)@ == read,
                Err(failing) => r matches Err(failure) && blob_failure_is(failure, failing),
            },
    {
        let ghost start = self@;
        let ghost spans = views(items@);
        let mut i: usize = items.len();
        while i > 0
            invariant
                i <= items@.len(),
                start == old(self)@,
                spans == views(items@),
                range_sound(self@),
                forall|j: int| 0 <= j < items@.len() ==> (#[trigger] spans[j]).first < spans[j].end,
                spans_walked(start, spans, items@.len(), leaf, height) == spans_walked(
                    self@,
                    spans,
                    i as nat,
                    leaf,
                    height,
                ),
            decreases i,
        {
            i = i - 1;
            let (first, end, object) = items[i].span();
            assert(spans[i as int] == items@[i as int]@);
            let ghost prior = self@;
            let walked = self.walk_span(first, end, object, leaf, height);
            assert(spans_walked(prior, spans, (i + 1) as nat, leaf, height) == match span_walked(
                prior,
                spans[i as int],
                leaf,
                height,
            ) {
                Err(failing) => Err(failing),
                Ok(next) => spans_walked(next, spans, i as nat, leaf, height),
            });
            if let Err(failure) = walked {
                return Err(failure);
            }
            proof {
                let one = seq![spans[i as int]];
                assert(spans_walked(prior, one, 1, leaf, height) == Ok::<
                    BlobRangeView,
                    BlobReadFailing,
                >(self@)) by {
                    reveal_with_fuel(spans_walked, 2);
                }
                lemma_spans_walked(prior, one, 1, leaf, height);
            }
        }
        Ok(())
    }

    /// Takes a decoded page.
    fn accept_decoded_page(
        &mut self,
        page: &BlobPage,
        expected_first: u64,
        expected_end: Option<u64>,
        height: u16,
    ) -> (r: Result<(), BlobReadFailure>)
        requires
            range_sound(old(self)@),
            forall|i: int|
                0 <= i < page@.spans.len() ==> (#[trigger] page@.spans[i]).first
                    < page@.spans[i].end,
        ensures
            match page_walked(old(self)@, page@, expected_first, expected_end, height) {
                Ok(read) => r is Ok && final(self)@ == read,
                Err(failing) => r matches Err(failure) && blob_failure_is(failure, failing),
            },
    {
        let misplaced = page.first_offset != expected_first || match expected_end {
            Some(end) => page.end_offset != end,
            None => false,
        };
        if misplaced {
            return Err(OperationFailure::new(BlobReadError::ChildBoundsMismatch, self.work));
        }
        if expected_end.is_none() && self.range.offset + self.range.length > page.end_offset {
            return Err(OperationFailure::new(BlobReadError::InvalidRange, self.work));
        }
        match &page.node {
            BlobNode::Internal(children) => {
                if height == u16::MAX {
                    return Err(OperationFailure::new(BlobReadError::CycleOrHeight, self.work));
                }
                self.walk_spans(children, false, height + 1)
            },
            BlobNode::Leaf(chunks) => {
                let next: u16 = if height == u16::MAX {
                    0
                } else {
                    height + 1
                };
                proof {
                    lemma_leaf_height(self@, page@.spans, page@.spans.len(), next, (height + 1) as u16);
                }
                self.walk_spans(chunks, true, next)
            },
        }
    }

    /// Takes the page asked for.
    fn accept_page(
        &mut self,
        read: &ObjectRead,
        expected_first: u64,
        expected_end: Option<u64>,
        height: u16,
    ) -> (r: Result<(), BlobReadFailure>)
        requires
            range_sound(old(self)@),
        ensures
            match page_accepted(old(self)@, read@, expected_first, expected_end, height) {
                Ok(next) => r is Ok && final(self)@ == next && range_sound(next),
                Err(failing) => r matches Err(failure) && blob_failure_is(failure, failing),
            },
    {
        let ghost before = self@;
        match spend(self.work, WorkCounters::of_page_reads(1), self.budget) {
            Ok(work) => {
                self.work = work;
            },
            Err(failure) => {
                return Err(failure);
            },
        }
        let retained: u64 = match read.retention {
            ObjectReadRetention::Shared => 0,
            ObjectReadRetention::Owned { logical_bytes } => logical_bytes,
        };
        if let Err(error) = self.allocations.claim_bytes(
            retained,
            0,
            &mut self.work,
            self.budget,
        ) {
            return Err(OperationFailure::new(map_allocation(error), self.work));
        }
        let shape = match blob_page_decode_shape(read.bytes.as_slice(), self.limits) {
            Ok(shape) => shape,
            Err(error) => {
                return Err(OperationFailure::new(BlobReadError::Decode(error), self.work));
            },
        };
        proof {
            lemma_blob_shape_size(read.bytes@, self.limits);
        }
        match spend(self.work, WorkCounters::of_items_examined(shape.items as u64), self.budget) {
            Ok(work) => {
                self.work = work;
            },
            Err(failure) => {
                return Err(failure);
            },
        }
        let size: u64 = shape.items as u64 * BLOB_REFERENCE_BYTES;
        let operations: u64 = if size != 0 {
            1
        } else {
            0
        };
        if let Err(error) = self.allocations.claim_bytes(
            size,
            operations,
            &mut self.work,
            self.budget,
        ) {
            return Err(OperationFailure::new(map_allocation(error), self.work));
        }
        let page = match decode_blob_page(read.bytes.as_slice(), self.limits) {
            Ok(page) => page,
            Err(error) => {
                return Err(OperationFailure::new(BlobReadError::Decode(error), self.work));
            },
        };
        let ghost held = self@;
        assert(held =~= BlobRangeView { work: held.work, live: held.live, ..before });
        if let Err(failure) = self.accept_decoded_page(&page, expected_first, expected_end, height) {
            return Err(failure);
        }
        proof {
            lemma_spans_walked(
                held,
                page@.spans,
                page@.spans.len(),
                page@.leaf,
                (height + 1) as u16,
            );
        }
        self.allocations.live_bytes = self.allocations.live_bytes - size - retained;
        assert(self@ =~= page_accepted(before, read@, expected_first, expected_end, height)->Ok_0);
        Ok(())
    }

    /// Takes the chunk asked for.
    fn accept_chunk(&mut self, read: &ObjectRead, chunk: BlobChunkRef) -> (r: Result<
        (),
        BlobReadFailure,
    >)
        requires
            range_sound(old(self)@),
            pending_fits(PendingView::Chunk(chunk@), old(self)@.range),
        ensures
            match chunk_accepted(old(self)@, read@, chunk@) {
                Ok(next) => r is Ok && final(self)@ == next && range_sound(next),
                Err(failing) => r matches Err(failure) && blob_failure_is(failure, failing),
            },
    {
        let ghost before = self@;
        let retained: u64 = match read.retention {
            ObjectReadRetention::Shared => 0,
            ObjectReadRetention::Owned { logical_bytes } => logical_bytes,
        };
        if let Err(error) = self.allocations.claim_bytes(
            retained,
            0,
            &mut self.work,
            self.budget,
        ) {
            return Err(OperationFailure::new(map_allocation(error), self.work));
        }
        if read.bytes.len() as u64 != chunk.end_offset - chunk.first_offset {
            return Err(OperationFailure::new(BlobReadError::ChunkLengthMismatch, self.work));
        }
        let range_end: u64 = self.range.offset + self.range.length;
        let start: u64 = if self.range.offset >= chunk.first_offset {
            self.range.offset - chunk.first_offset
        } else {
            0
        };
        let end: u64 = if range_end <= chunk.end_offset {
            range_end - chunk.first_offset
        } else {
            chunk.end_offset - chunk.first_offset
        };
        let copied: u64 = end - start;
        let mut counted = WorkCounters::of_bytes_copied(copied);
        counted.output_bytes = copied;
        counted.items_returned = 1;
        match spend(self.work, counted, self.budget) {
            Ok(work) => {
                self.work = work;
            },
            Err(failure) => {
                return Err(failure);
            },
        }
        let piece = vstd::slice::slice_subrange(read.bytes.as_slice(), start as usize, end as usize);
        self.output.extend_from_slice(piece);
        self.allocations.live_bytes = self.allocations.live_bytes - retained;
        assert(self@.output =~= before.output + read.bytes@.subrange(start as int, end as int));
        assert(self@ =~= chunk_accepted(before, read@, chunk@)->Ok_0);
        Ok(())
    }

    /// Takes the object asked for.
    pub fn accept_read(&mut self, read: &ObjectRead) -> (r: Result<(), BlobReadFailure>)
        requires
            range_sound(old(self)@),
        ensures
            match range_accepted(old(self)@, read@) {
                Ok(next) => r is Ok && final(self)@ == next && range_sound(next),
                Err(failing) => r matches Err(failure) && blob_failure_is(failure, failing),
            },
    {
        let ghost before = self@;
        let pending = match self.awaiting {
            Some(pending) => pending,
            None => {
                return Err(OperationFailure::new(BlobReadError::TraversalState, self.work));
            },
        };
        match merge_backend_work(self.work, read.work, self.allocations.live_bytes) {
            Ok(work) => {
                self.work = work;
            },
            Err(error) => {
                return Err(OperationFailure::new(BlobReadError::Work(error), self.work));
            },
        }
        self.awaiting = None;
        assert(self@ =~= BlobRangeView { work: self@.work, awaiting: None, ..before });
        match pending {
            PendingBlobRead::Page { expected_first, expected_end, height, .. } => self.accept_page(
                read,
                expected_first,
                expected_end,
                height,
            ),
            PendingBlobRead::Chunk(chunk) => self.accept_chunk(read, chunk),
        }
    }

    /// Takes the page asked for out of a cache of decoded pages.
    pub fn accept_cached_page(&mut self, page: &BlobPage) -> (r: Result<(), BlobReadFailure>)
        requires
            range_sound(old(self)@),
            forall|i: int|
                0 <= i < page@.spans.len() ==> (#[trigger] page@.spans[i]).first
                    < page@.spans[i].end,
        ensures
            match range_cached(old(self)@, page@) {
                Ok(next) => r is Ok && final(self)@ == next && range_sound(next),
                Err(failing) => r matches Err(failure) && blob_failure_is(failure, failing),
            },
    {
        let ghost before = self@;
        let (expected_first, expected_end, height) = match self.awaiting {
            Some(PendingBlobRead::Page { expected_first, expected_end, height, .. }) => (
                expected_first,
                expected_end,
                height,
            ),
            _ => {
                return Err(OperationFailure::new(BlobReadError::TraversalState, self.work));
            },
        };
        match spend(self.work, WorkCounters::of_page_reads(1), self.budget) {
            Ok(work) => {
                self.work = work;
            },
            Err(failure) => {
                return Err(failure);
            },
        }
        self.awaiting = None;
        let ghost held = self@;
        assert(held =~= BlobRangeView { work: held.work, awaiting: None, ..before });
        if let Err(failure) = self.accept_decoded_page(page, expected_first, expected_end, height) {
            return Err(failure);
        }
        proof {
            lemma_spans_walked(
                held,
                page@.spans,
                page@.spans.len(),
                page@.leaf,
                (height + 1) as u16,
            );
        }
        Ok(())
    }

    /// The failure of this read once the store has failed.
    pub fn storage_failure(&self, failure: ObjectFailure) -> (r: BlobReadFailure)
        ensures
            blob_failure_is(r, range_failed(self@, failure)),
    {
        match merge_backend_work(self.work, failure.work, self.allocations.live_bytes) {
            Ok(work) => OperationFailure::new(BlobReadError::Storage(failure.error), work),
            Err(error) => OperationFailure::new(BlobReadError::Work(error), self.work),
        }
    }

    /// The failure of this read once it is cancelled.
    pub fn cancelled(&self) -> (r: BlobReadFailure)
        ensures
            blob_failure_is(r, (BlobReadErrorView::Cancelled, self@.work)),
    {
        OperationFailure::new(BlobReadError::Cancelled, self.work)
    }
}

/// The level below a leaf plays no part.
proof fn lemma_leaf_height(
    read: BlobRangeView,
    spans: Seq<SpanView>,
    count: nat,
    a: u16,
    b: u16,
)
    ensures
        spans_walked(read, spans, count, true, a) == spans_walked(read, spans, count, true, b),
    decreases count,
{
    if count > 0 {
        assert(span_walked(read, spans[count - 1], true, a) == span_walked(
            read,
            spans[count - 1],
            true,
            b,
        ));
        if let Ok(next) = span_walked(read, spans[count - 1], true, a) {
            lemma_leaf_height(next, spans, (count - 1) as nat, a, b);
        }
    }
}

/// Pages that a read may still ask for.
pub open spec fn pages_left(read: BlobRangeView) -> nat {
    if read.visited.length <= read.visited.maximum {
        (read.visited.maximum - read.visited.length) as nat
    } else {
        0
    }
}

proof fn lemma_walk_keeps_pages(
    read: BlobRangeView,
    spans: Seq<SpanView>,
    count: nat,
    leaf: bool,
    height: u16,
)
    ensures
        spans_walked(read, spans, count, leaf, height) matches Ok(next) ==> next.visited
            == read.visited && next.limits == read.limits && next.range == read.range,
    decreases count,
{
    if count > 0 {
        if let Ok(next) = span_walked(read, spans[count - 1], leaf, height) {
            lemma_walk_keeps_pages(next, spans, (count - 1) as nat, leaf, height);
        }
    }
}

/// Every step asks for a new page or leaves fewer reads to make.
pub proof fn lemma_step_descends(read: BlobRangeView, found: ReadView)
    requires
        range_prepared(read) is Ok,
        range_accepted(range_prepared(read)->Ok_0.1, found) is Ok,
    ensures
        ({
            let next = range_accepted(range_prepared(read)->Ok_0.1, found)->Ok_0;
            &&& pages_left(next) < pages_left(read) || (pages_left(next) == pages_left(read)
                && next.pending.len() < read.pending.len())
            &&& next.range == read.range
        }),
{
    let waiting = range_prepared(read)->Ok_0.1;
    if let Some(PendingView::Page { page, height, .. }) = waiting.awaiting {
        lemma_visited_progress(read.visited, page, read.live, read.work, read.budget);
        if let Ok(page) = blob_decoded(found.bytes, read.limits) {
            assert forall|held: BlobRangeView|
                held.visited == waiting.visited && held.limits == waiting.limits && held.range
                    == waiting.range && #[trigger] spans_walked(
                    held,
                    page.spans,
                    page.spans.len(),
                    page.leaf,
                    (height + 1) as u16,
                ) is Ok implies spans_walked(
                held,
                page.spans,
                page.spans.len(),
                page.leaf,
                (height + 1) as u16,
            )->Ok_0.visited == waiting.visited && spans_walked(
                held,
                page.spans,
                page.spans.len(),
                page.leaf,
                (height + 1) as u16,
            )->Ok_0.limits == waiting.limits && spans_walked(
                held,
                page.spans,
                page.spans.len(),
                page.leaf,
                (height + 1) as u16,
            )->Ok_0.range == waiting.range by {
                lemma_walk_keeps_pages(
                    held,
                    page.spans,
                    page.spans.len(),
                    page.leaf,
                    (height + 1) as u16,
                );
            }
        }
    }
}

/// What a read comes to over a store.
pub open spec fn range_outcome<S: ImmediateObjectStore>(store: &S, read: BlobRangeView) -> Result<
    BlobReadView,
    BlobReadFailing,
>
    decreases pages_left(read), read.pending.len(),
{
    if read.pending.len() == 0 && read.awaiting is None {
        range_finished(read)
    } else {
        match range_prepared(read) {
            Err(failing) => Err(failing),
            Ok((request, waiting)) => match store.answers(request) {
                Err(failure) => Err(range_failed(waiting, failure)),
                Ok(found) => match range_accepted(waiting, found) {
                    Err(failing) => Err(failing),
                    Ok(next) => {
                        proof {
                            lemma_step_descends(read, found);
                        }
                        range_outcome(store, next)
                    },
                },
            },
        }
    }
}

/// Reads only blob-index pages and chunks intersecting one exact range.
pub fn read_blob_range<S: ImmediateObjectStore>(
    store: &S,
    root: ObjectId,
    range: ByteRange,
    limits: DecodeLimits,
    budget: WorkBudget,
) -> (r: Result<BlobRead, BlobReadFailure>)
    ensures
        match range_begun(root@, range, limits, budget) {
            Err(failing) => r matches Err(failure) && blob_failure_is(failure, failing),
            Ok(begun) => match range_outcome(store, begun) {
                Ok(read) => r matches Ok(found) && found@ == read,
                Err(failing) => r matches Err(failure) && blob_failure_is(failure, failing),
            },
        },
{
    let mut machine = match BlobRangeMachine::new(root, range, limits, budget) {
        Ok(machine) => machine,
        Err(failure) => {
            return Err(failure);
        },
    };
    let ghost begun = machine@;
    while !machine.is_complete()
        invariant
            range_begun(root@, range, limits, budget) == Ok::<BlobRangeView, BlobReadFailing>(begun),
            range_sound(machine@),
            range_outcome(store, begun) == range_outcome(store, machine@),
        decreases pages_left(machine@), machine@.pending.len(),
    {
        let ghost before = machine@;
        let request = match machine.prepare_read() {
            Ok(request) => request,
            Err(failure) => {
                return Err(failure);
            },
        };
        let read = match store.read(&request) {
            Ok(read) => read,
            Err(failure) => {
                return Err(machine.storage_failure(failure));
            },
        };
        if let Err(failure) = machine.accept_read(&read) {
            return Err(failure);
        }
        proof {
            lemma_step_descends(before, read@);
        }
    }
    machine.finish()
}

/// Whether a page is the root of an index of at most a given height over given
/// bytes, whose pages decode, keep their bounds and lead to the chunks.
pub open spec fn blob_holds(
    objects: Objects,
    limits: DecodeLimits,
    page: ObjectView,
    first: int,
    end: int,
    bytes: Seq<u8>,
    height: nat,
) -> bool
    decreases height,
{
    &&& height > 0
    &&& bytes.len() == end - first
    &&& objects(page) is Some
    &&& match blob_decoded(objects(page)->0, limits) {
        Err(_) => false,
        Ok(view) => {
            &&& view.first == first
            &&& view.end == end
            &&& forall|i: int|
                0 <= i < view.spans.len() ==> {
                    let span = #[trigger] span_of(view.spans, i);
                    let part = bytes.subrange(span.first - first, span.end - first);
                    if view.leaf {
                        objects(span.object) == Some(part)
                    } else {
                        blob_holds(
                            objects,
                            limits,
                            span.object,
                            span.first as int,
                            span.end as int,
                            part,
                            (height - 1) as nat,
                        )
                    }
                }
        },
    }
}

/// One reference of a page.
pub open spec fn span_of(spans: Seq<SpanView>, i: int) -> SpanView {
    spans[i]
}

/// An offset, moved into a range.
pub open spec fn inside(offset: int, range: ByteRange) -> int {
    if offset < range.offset {
        range.offset as int
    } else if offset > range.offset + range.length {
        range.offset + range.length
    } else {
        offset
    }
}

/// Whether a read leads to its part of given bytes.
pub open spec fn leads(
    objects: Objects,
    limits: DecodeLimits,
    pending: PendingView,
    bytes: Seq<u8>,
) -> bool {
    match pending {
        PendingView::Page { page, expected_first, expected_end, .. } => {
            let end = end_of(pending, bytes);
            &&& expected_first <= end <= bytes.len()
            &&& exists|height: nat| #[trigger]
                blob_holds(
                    objects,
                    limits,
                    page,
                    expected_first as int,
                    end,
                    bytes.subrange(expected_first as int, end),
                    height,
                )
        },
        PendingView::Chunk(span) => {
            &&& span.first <= span.end <= bytes.len()
            &&& objects(span.object) == Some(bytes.subrange(span.first as int, span.end as int))
        },
    }
}

/// Where the part of a read begins.
pub open spec fn first_of(pending: PendingView) -> int {
    match pending {
        PendingView::Page { expected_first, .. } => expected_first as int,
        PendingView::Chunk(span) => span.first as int,
    }
}

/// Where the part of a read ends.
pub open spec fn end_of(pending: PendingView, bytes: Seq<u8>) -> int {
    match pending {
        PendingView::Page { expected_end: Some(end), .. } => end as int,
        PendingView::Page { .. } => bytes.len() as int,
        PendingView::Chunk(span) => span.end as int,
    }
}

/// Whether the reads still to be made lead, in turn, to the bytes of a range from
/// a given offset on.
pub open spec fn leads_on(
    objects: Objects,
    limits: DecodeLimits,
    pending: Seq<PendingView>,
    from: int,
    range: ByteRange,
    bytes: Seq<u8>,
) -> bool
    decreases pending.len(),
{
    if pending.len() == 0 {
        from == range.offset + range.length
    } else {
        let next = pending.last();
        &&& inside(first_of(next), range) == from
        &&& leads(objects, limits, next, bytes)
        &&& leads_on(
            objects,
            limits,
            pending.drop_last(),
            inside(end_of(next, bytes), range),
            range,
            bytes,
        )
    }
}

/// References that cover a range in turn lead on from its start.
proof fn lemma_walk_leads(
    objects: Objects,
    read: BlobRangeView,
    spans: Seq<SpanView>,
    count: nat,
    leaf: bool,
    height: u16,
    bytes: Seq<u8>,
)
    requires
        count <= spans.len(),
        spans.len() > 0,
        spans_cover(spans, spans[0].first, spans.last().end),
        spans_walked(read, spans, count, leaf, height) is Ok,
        forall|i: int|
            0 <= i < spans.len() ==> leads(
                objects,
                read.limits,
                pending_of(#[trigger] span_of(spans, i), leaf, height),
                bytes,
            ),
        leads_on(
            objects,
            read.limits,
            read.pending,
            inside(
                if count == spans.len() {
                    spans.last().end as int
                } else {
                    spans[count as int].first as int
                },
                read.range,
            ),
            read.range,
            bytes,
        ),
    ensures
        ({
            let next = spans_walked(read, spans, count, leaf, height)->Ok_0;
            &&& next.range == read.range
            &&& next.limits == read.limits
            &&& next.output == read.output
            &&& next.awaiting == read.awaiting
            &&& leads_on(
                objects,
                read.limits,
                next.pending,
                inside(spans[0].first as int, read.range),
                read.range,
                bytes,
            )
        }),
    decreases count,
{
    if count > 0 {
        let at = count - 1;
        let span = span_of(spans, at);
        let next = span_walked(read, span, leaf, height)->Ok_0;
        if count < spans.len() {
            assert(span_adjoins(spans, count as int));
        }
        assert(spans[at].first < spans[at].end);
        if meets(span, read.range) {
            let added = pending_of(span, leaf, height);
            assert(next.pending.last() == added);
            assert(next.pending.drop_last() =~= read.pending);
            assert(leads(objects, read.limits, added, bytes));
        }
        lemma_walk_leads(objects, next, spans, at as nat, leaf, height, bytes);
    }
}

/// Whether a step succeeded or failed for want of work or room.
spec fn refused_for_room(step: Result<BlobRangeView, BlobReadFailing>) -> bool {
    step matches Err((error, _)) ==> error is Work || error is AllocationFailed
}

/// Looking at references fails for want of work or room alone.
proof fn lemma_walk_errors(
    read: BlobRangeView,
    spans: Seq<SpanView>,
    count: nat,
    leaf: bool,
    height: u16,
)
    ensures
        refused_for_room(spans_walked(read, spans, count, leaf, height)),
    decreases count,
{
    if count > 0 {
        if let Ok(next) = span_walked(read, spans[count - 1], leaf, height) {
            lemma_walk_errors(next, spans, (count - 1) as nat, leaf, height);
        }
    }
}

/// A page that holds bytes has references that lead to them.
#[verifier::spinoff_prover]
proof fn lemma_page_leads(
    objects: Objects,
    limits: DecodeLimits,
    page: ObjectView,
    first: int,
    end: int,
    bytes: Seq<u8>,
    height: nat,
    level: u16,
)
    requires
        0 <= first <= end <= bytes.len(),
        blob_holds(objects, limits, page, first, end, bytes.subrange(first, end), height),
    ensures
        ({
            let view = blob_decoded(objects(page)->0, limits)->Ok_0;
            &&& view.spans.len() > 0 ==> spans_cover(view.spans, view.first, view.end)
            &&& view.spans.len() == 0 ==> view.first == 0 && view.end == 0
            &&& forall|i: int|
                0 <= i < view.spans.len() ==> leads(
                    objects,
                    limits,
                    pending_of(#[trigger] span_of(view.spans, i), view.leaf, level),
                    bytes,
                )
        }),
{
    let view = blob_decoded(objects(page)->0, limits)->Ok_0;
    let own = bytes.subrange(first, end);
    if view.spans.len() > 0 {
        lemma_cover_within(view.spans, view.first, view.end);
    }
    assert forall|i: int| 0 <= i < view.spans.len() implies leads(
        objects,
        limits,
        pending_of(#[trigger] span_of(view.spans, i), view.leaf, level),
        bytes,
    ) by {
        let span = span_of(view.spans, i);
        let part = own.subrange(span.first - first, span.end - first);
        assert(view.spans[i].first < view.spans[i].end);
        assert(part =~= bytes.subrange(span.first as int, span.end as int));
        let next = pending_of(span, view.leaf, level);
        assert(first_of(next) == span.first && end_of(next, bytes) == span.end);
        if !view.leaf {
            assert(blob_holds(
                objects,
                limits,
                span.object,
                span.first as int,
                span.end as int,
                bytes.subrange(span.first as int, span.end as int),
                (height - 1) as nat,
            ));
        }
    }
}

/// References that cover a range lie within it.
pub proof fn lemma_cover_within(spans: Seq<SpanView>, first: u64, end: u64)
    requires
        spans_cover(spans, first, end),
    ensures
        forall|i: int|
            0 <= i < spans.len() ==> first <= (#[trigger] spans[i]).first && spans[i].end <= end,
{
    lemma_cover_from(spans, first, end, (spans.len() - 1) as nat);
    lemma_cover_to(spans, first, end, 0);
}

proof fn lemma_cover_from(spans: Seq<SpanView>, first: u64, end: u64, upto: nat)
    requires
        spans_cover(spans, first, end),
        upto < spans.len(),
    ensures
        forall|i: int| 0 <= i <= upto ==> first <= (#[trigger] spans[i]).first,
    decreases upto,
{
    if upto > 0 {
        lemma_cover_from(spans, first, end, (upto - 1) as nat);
        assert(span_adjoins(spans, upto as int));
        assert(spans[upto - 1].first < spans[upto - 1].end);
    }
}

proof fn lemma_cover_to(spans: Seq<SpanView>, first: u64, end: u64, from: nat)
    requires
        spans_cover(spans, first, end),
        from < spans.len(),
    ensures
        forall|i: int| from <= i < spans.len() ==> (#[trigger] spans[i]).end <= end,
    decreases spans.len() - from,
{
    if from + 1 < spans.len() {
        lemma_cover_to(spans, first, end, from + 1);
        assert(span_adjoins(spans, from as int + 1));
        assert(spans[from as int + 1].first < spans[from as int + 1].end);
    }
}

/// Whether a read of given bytes is on its way: what it has is their part of the
/// range so far, and what is still to be read leads to the rest.
pub open spec fn on_the_way(objects: Objects, read: BlobRangeView, bytes: Seq<u8>) -> bool {
    &&& read.awaiting is None
    &&& read.range.offset + read.output.len() <= bytes.len()
    &&& read.output == bytes.subrange(
        read.range.offset as int,
        read.range.offset + read.output.len(),
    )
    &&& leads_on(
        objects,
        read.limits,
        read.pending,
        read.range.offset + read.output.len(),
        read.range,
        bytes,
    )
}

/// A step keeps a read on its way.
#[verifier::spinoff_prover]
#[verifier::rlimit(30)]
proof fn lemma_step_on_the_way(objects: Objects, read: BlobRangeView, found: ReadView, bytes: Seq<u8>)
    requires
        range_sound(read),
        on_the_way(objects, read, bytes),
        range_prepared(read) is Ok,
        objects(range_prepared(read)->Ok_0.0.object) == Some(found.bytes),
    ensures
        match range_accepted(range_prepared(read)->Ok_0.1, found) {
            Ok(next) => on_the_way(objects, next, bytes) && range_sound(next) && next.range
                == read.range && next.limits == read.limits,
            Err((error, _)) => error is Work || error is AllocationFailed || error is CycleOrHeight
                || error is InvalidRange && read.range.offset + read.range.length > bytes.len(),
        },
{
    let (request, waiting) = range_prepared(read)->Ok_0;
    let pending = read.pending.last();
    let rest = read.pending.drop_last();
    assert(leads(objects, read.limits, pending, bytes));
    assert forall|i: int| 0 <= i < rest.len() implies pending_fits(
        #[trigger] rest[i],
        read.range,
    ) by {
        assert(rest[i] == read.pending[i]);
    }
    if backend_merged(waiting.work, found.work, waiting.live) is Ok {
        let merged = BlobRangeView {
            work: backend_merged(waiting.work, found.work, waiting.live)->Ok_0,
            awaiting: None,
            ..waiting
        };
        match pending {
            PendingView::Page { page, expected_first, expected_end, height } => {
                let end = end_of(pending, bytes);
                lemma_visited_added(read.visited, page, read.live, read.work, read.budget);
                let level = choose|level: nat| #[trigger]
                    blob_holds(
                        objects,
                        read.limits,
                        page,
                        expected_first as int,
                        end,
                        bytes.subrange(expected_first as int, end),
                        level,
                    );
                lemma_page_leads(
                    objects,
                    read.limits,
                    page,
                    expected_first as int,
                    end,
                    bytes,
                    level,
                    (height + 1) as u16,
                );
                let view = blob_decoded(found.bytes, read.limits)->Ok_0;
                assert forall|held: BlobRangeView|
                    held.range == merged.range && held.limits == merged.limits && held.pending
                        == rest && held.output == merged.output && held.awaiting is None
                        && range_sound(held) && #[trigger] spans_walked(
                        held,
                        view.spans,
                        view.spans.len(),
                        view.leaf,
                        (height + 1) as u16,
                    ) is Ok implies ({
                    let next = spans_walked(
                        held,
                        view.spans,
                        view.spans.len(),
                        view.leaf,
                        (height + 1) as u16,
                    )->Ok_0;
                    &&& on_the_way(objects, next, bytes)
                    &&& range_sound(next)
                    &&& next.range == read.range
                    &&& next.limits == read.limits
                    &&& next.live - next.capacity.logical_bytes == held.live
                        - held.capacity.logical_bytes
                    &&& next.visited == held.visited
                }) by {
                    if view.spans.len() > 0 {
                        lemma_walk_leads(
                            objects,
                            held,
                            view.spans,
                            view.spans.len(),
                            view.leaf,
                            (height + 1) as u16,
                            bytes,
                        );
                    }
                    lemma_spans_walked(
                        held,
                        view.spans,
                        view.spans.len(),
                        view.leaf,
                        (height + 1) as u16,
                    );
                }
                super::blob::decodable_has_a_shape(found.bytes, read.limits);
                assert forall|held: BlobRangeView| refused_for_room(
                    #[trigger] spans_walked(
                        held,
                        view.spans,
                        view.spans.len(),
                        view.leaf,
                        (height + 1) as u16,
                    ),
                ) by {
                    lemma_walk_errors(
                        held,
                        view.spans,
                        view.spans.len(),
                        view.leaf,
                        (height + 1) as u16,
                    );
                }
            },
            PendingView::Chunk(span) => {
                let (start, end) = clip(span, read.range);
                let whole = bytes.subrange(span.first as int, span.end as int);
                assert(pending_fits(pending, read.range));
                assert(found.bytes == whole);
                if let Ok(next) = chunk_accepted(merged, found, span) {
                    let from = read.range.offset + read.output.len();
                    assert(whole.subrange(start, end) =~= bytes.subrange(
                        span.first + start,
                        span.first + end,
                    ));
                    assert(next.output =~= bytes.subrange(
                        read.range.offset as int,
                        span.first + end,
                    ));
                }
            },
        }
    }
}

/// Whether a range read gave the bytes of the range, or failed for want of work,
/// room, pages or objects.
pub open spec fn gives_range(
    outcome: Result<BlobReadView, BlobReadFailing>,
    bytes: Seq<u8>,
    range: ByteRange,
) -> bool {
    match outcome {
        Ok(read) => read.bytes == bytes.subrange(
            range.offset as int,
            range.offset + range.length,
        ),
        Err((error, _)) => error is Work || error is AllocationFailed || error is CycleOrHeight
            || error is Storage,
    }
}

proof fn lemma_on_the_way_arrives<S: ImmediateObjectStore>(
    store: &S,
    objects: Objects,
    read: BlobRangeView,
    bytes: Seq<u8>,
)
    requires
        serves(store, objects),
        range_sound(read),
        on_the_way(objects, read, bytes),
        read.range.offset + read.range.length <= bytes.len(),
    ensures
        gives_range(range_outcome(store, read), bytes, read.range),
    decreases pages_left(read), read.pending.len(),
{
    if read.pending.len() > 0 {
        if let Ok((request, waiting)) = range_prepared(read) {
            if let Ok(found) = store.answers(request) {
                assert(objects(request.object) == Some(found.bytes));
                lemma_step_on_the_way(objects, read, found, bytes);
                if let Ok(next) = range_accepted(waiting, found) {
                    lemma_step_descends(read, found);
                    lemma_on_the_way_arrives(store, objects, next, bytes);
                }
            }
        }
    }
}

/// A range read over a sound index gives exactly the bytes of the range. It fails
/// only where the store fails, the budget or the bounds do not admit the read, or
/// the index repeats a page.
#[verifier::spinoff_prover]
pub proof fn blob_range_reads_back<S: ImmediateObjectStore>(
    store: &S,
    objects: Objects,
    root: ObjectView,
    range: ByteRange,
    limits: DecodeLimits,
    budget: WorkBudget,
    bytes: Seq<u8>,
    height: nat,
)
    requires
        serves(store, objects),
        blob_holds(objects, limits, root, 0, bytes.len() as int, bytes, height),
        range.offset + range.length <= bytes.len(),
        range_begun(root, range, limits, budget) is Ok,
    ensures
        gives_range(
            range_outcome(store, range_begun(root, range, limits, budget)->Ok_0),
            bytes,
            range,
        ),
{
    let begun = range_begun(root, range, limits, budget)->Ok_0;
    let next = begun.pending.last();
    assert(begun.pending.drop_last() =~= Seq::<PendingView>::empty());
    assert(bytes.subrange(0, bytes.len() as int) =~= bytes);
    let end = end_of(next, bytes);
    assert(next is Page && next->page == root && next->expected_first == 0 && end == bytes.len());
    assert(blob_holds(
        objects,
        limits,
        next->page,
        next->expected_first as int,
        end,
        bytes.subrange(next->expected_first as int, end),
        height,
    ));
    assert(leads(objects, limits, next, bytes));
    assert(begun.output =~= bytes.subrange(range.offset as int, range.offset as int));
    reveal_with_fuel(leads_on, 2);
    lemma_range_begun(root, range, limits, budget);
    lemma_on_the_way_arrives(store, objects, begun, bytes);
}

/// A range that ends past the bytes of a sound index is refused as invalid, unless
/// the work, the room or the store fails first; one that cannot be counted is refused
/// before any work.
pub proof fn blob_range_is_bounded<S: ImmediateObjectStore>(
    store: &S,
    objects: Objects,
    root: ObjectView,
    range: ByteRange,
    limits: DecodeLimits,
    budget: WorkBudget,
    bytes: Seq<u8>,
    height: nat,
)
    requires
        serves(store, objects),
        blob_holds(objects, limits, root, 0, bytes.len() as int, bytes, height),
        range.offset + range.length > bytes.len(),
        root.kind == ObjectKind::Blob,
    ensures
        range.offset + range.length > u64::MAX ==> range_begun(root, range, limits, budget)
            == Err::<BlobRangeView, BlobReadFailing>((BlobReadErrorView::InvalidRange, no_work())),
        range_begun(root, range, limits, budget) matches Ok(begun) ==> (range_outcome(
            store,
            begun,
        ) matches Err((error, _)) && (error is InvalidRange || error is Work
            || error is AllocationFailed || error is Storage)),
{
    if let Ok(begun) = range_begun(root, range, limits, budget) {
        reveal(visited_added);
        assert(begun.visited.slots[search_end(begun.visited.slots, root)] is None) by {
            lemma_visited_begun(
                limits.maximum_visited_pages as nat,
                range.length,
                claimed(
                    0,
                    range.length,
                    if range.length != 0 {
                        1
                    } else {
                        0
                    },
                    no_work(),
                    budget,
                )->Ok_0,
                budget,
            );
            lemma_search_end(begun.visited.slots, root);
        }
        if let Ok((request, waiting)) = range_prepared(begun) {
            if let Ok(found) = store.answers(request) {
                assert(objects(request.object) == Some(found.bytes));
                super::blob::decodable_has_a_shape(found.bytes, limits);
                assert(range_accepted(waiting, found) is Err);
            }
        }
    }
}

/// A range read that succeeds returns as many bytes as the range has.
pub proof fn range_read_has_its_length<S: ImmediateObjectStore>(store: &S, read: BlobRangeView)
    ensures
        range_outcome(store, read) matches Ok(found) ==> found.bytes.len() == read.range.length,
    decreases pages_left(read), read.pending.len(),
{
    if read.pending.len() > 0 || read.awaiting is Some {
        if let Ok((request, waiting)) = range_prepared(read) {
            if let Ok(found) = store.answers(request) {
                if let Ok(next) = range_accepted(waiting, found) {
                    lemma_step_descends(read, found);
                    range_read_has_its_length(store, next);
                }
            }
        }
    }
}

} // verus!
