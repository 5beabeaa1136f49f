//! Bounded regular-file reads across inline and sparse representations.

use super::blob_read::{
    blob_failure_is, blob_holds, blob_range_is_bounded, blob_range_reads_back, range_begun,
    range_outcome, range_read_has_its_length, read_blob_range, BlobReadError, BlobReadErrorView,
    BlobReadFailing, BlobReadView,
};
use super::codec::DecodeLimits;
use super::extent::{
    extent_adjoins, extent_end_of, extent_fits, extents_ordered, Extent, ExtentKind, ExtentKindView,
    ExtentView,
};
use super::extent_clone::{spans_of_range, ExtentPlan};
use super::extent_mutation::replayed;
use super::extent_patch::{byte_at, byte_of, replay_byte, ByteView, ExtentMutationView};
use super::extent_tree::{extents_tell, lemma_held_byte, Bytes};
use super::file_lookup::serves;
use super::file_table::{FilePayload, FileRecord, PayloadView};
use super::name::FileKind;
use crate::order::views;
use crate::performance::{
    larger, left_over, no_work, total, within, OperationFailure, WorkBudget, WorkCounters,
    WorkError,
};
use crate::storage::{
    ByteRange, ImmediateObjectStore, ObjectId, ObjectStore, ObjectView, Objects, RequestView,
};
use vstd::prelude::*;

verus! {

/// Successful logical file range and exact physical work.
#[derive(Debug, PartialEq, Eq)]
pub struct FileRangeRead {
    /// Exact requested bytes, with holes and allocated zeros represented as zero.
    pub bytes: Vec<u8>,
    /// Complete page, blob, copy, allocation, and output work.
    pub work: WorkCounters,
}

/// Fail-closed regular-file range errors.
#[derive(Debug, PartialEq, Eq)]
pub enum FileRangeReadError {
    /// The selected file is not regular.
    NotRegular,
    /// Logical range overflows or exceeds file size.
    InvalidRange,
    /// Cooperative cancellation occurred before the next boundary.
    Cancelled,
    /// Exact output allocation was unavailable.
    AllocationFailed,
    /// Authenticated blob reading failed.
    Blob(BlobReadError),
    /// Exact work overflowed or exceeded budget.
    Work(WorkError),
}

/// Abstract value of [`FileRangeReadError`].
#[verifier::ext_equal]
pub enum FileRangeErrorView {
    /// The selected file is not regular.
    NotRegular,
    /// Logical range overflows or exceeds file size.
    InvalidRange,
    /// Cooperative cancellation occurred before the next boundary.
    Cancelled,
    /// Exact output allocation was unavailable.
    AllocationFailed,
    /// Authenticated blob reading failed.
    Blob(BlobReadErrorView),
    /// Exact work overflowed or exceeded budget.
    Work(WorkError),
}

impl View for FileRangeReadError {
    type V = FileRangeErrorView;

    open spec fn view(&self) -> FileRangeErrorView {
        match *self {
            FileRangeReadError::NotRegular => FileRangeErrorView::NotRegular,
            FileRangeReadError::InvalidRange => FileRangeErrorView::InvalidRange,
            FileRangeReadError::Cancelled => FileRangeErrorView::Cancelled,
            FileRangeReadError::AllocationFailed => FileRangeErrorView::AllocationFailed,
            FileRangeReadError::Blob(error) => FileRangeErrorView::Blob(error@),
            FileRangeReadError::Work(error) => FileRangeErrorView::Work(error),
        }
    }
}

/// Measured composed file-read failure.
pub type FileRangeReadFailure = OperationFailure<FileRangeReadError>;

/// A failure with the work spent until then.
pub type FileFailing = (FileRangeErrorView, WorkCounters);

/// A failure as an abstract one.
pub open spec fn file_failure_is(failure: FileRangeReadFailure, failing: FileFailing) -> bool {
    failure.error@ == failing.0 && failure.work == failing.1
}

/// One exact regular-file range to read.
#[derive(Clone, Copy, Debug)]
pub struct FileRangeRequest {
    /// Authenticated file record selected by namespace lookup.
    pub record: FileRecord,
    /// Exact logical range returned.
    pub range: ByteRange,
    /// Maximum sparse spans admitted in the result plan.
    pub maximum_spans: u32,
    /// Canonical page and allocation limits.
    pub limits: DecodeLimits,
    /// Exact implementation-work ceiling.
    pub budget: WorkBudget,
}

/// Where the bytes of a regular file are.
#[derive(Clone, Copy, Debug, PartialEq, Eq)]
pub enum FileSource {
    /// In the record itself.
    Inline,
    /// In blobs, under a sparse extent tree.
    Sparse {
        /// Exact logical bytes, including holes.
        logical_bytes: u64,
        /// Authenticated sparse extent tree.
        extents: ObjectId,
    },
}

/// Finds where the bytes of a file are.
pub fn file_source(record: &FileRecord) -> (r: Result<FileSource, FileRangeReadFailure>)
    ensures
        match r {
            Ok(FileSource::Inline) => record.kind == FileKind::Regular
                && record@.payload is InlineRegular,
            Ok(FileSource::Sparse { logical_bytes, extents }) => record.kind == FileKind::Regular
                && record@.payload == (PayloadView::Regular { logical_bytes, extents: extents@ }),
            Err(failure) => failure == (OperationFailure {
                error: FileRangeReadError::NotRegular,
                work: no_work(),
            }) && (record.kind != FileKind::Regular || !(record@.payload is InlineRegular
                || record@.payload is Regular)),
        },
{
    if record.kind != FileKind::Regular {
        return Err(OperationFailure::before_work(FileRangeReadError::NotRegular));
    }
    match record.payload {
        FilePayload::InlineRegular(_) => Ok(FileSource::Inline),
        FilePayload::Regular { logical_bytes, extents } => Ok(
            FileSource::Sparse { logical_bytes, extents },
        ),
        _ => Err(OperationFailure::before_work(FileRangeReadError::NotRegular)),
    }
}

/// Work of copying a range out of a record.
pub open spec fn inline_work(length: u64) -> WorkCounters {
    WorkCounters {
        bytes_copied: length,
        output_bytes: length,
        items_returned: 1,
        allocation_operations: if length != 0 {
            1
        } else {
            0
        },
        peak_allocation_bytes: length,
        ..no_work()
    }
}

/// Reads a range of the bytes of a record.
pub fn read_inline(bytes: &[u8], range: ByteRange, budget: WorkBudget) -> (r: Result<
    FileRangeRead,
    FileRangeReadFailure,
>)
    ensures
        if range.offset + range.length > bytes@.len() {
            r == Err::<FileRangeRead, FileRangeReadFailure>(
                OperationFailure { error: FileRangeReadError::InvalidRange, work: no_work() },
            )
        } else if !within(inline_work(range.length), budget) {
            r == Err::<FileRangeRead, FileRangeReadFailure>(
                OperationFailure {
                    error: FileRangeReadError::Work(WorkError::Exceeded),
                    work: no_work(),
                },
            )
        } else {
            r matches Ok(read) && read.work == inline_work(range.length) && read.bytes@
                == bytes@.subrange(range.offset as int, range.offset + range.length)
        },
{
    let size = bytes.len() as u64;
    if range.offset > size || range.length > size - range.offset {
        return Err(OperationFailure::before_work(FileRangeReadError::InvalidRange));
    }
    let start = range.offset as usize;
    let end = start + range.length as usize;
    let mut work = WorkCounters::of_bytes_copied(range.length);
    work.output_bytes = range.length;
    work.items_returned = 1;
    work.allocation_operations =
    if range.length != 0 {
        1
    } else {
        0
    };
    work.peak_allocation_bytes = range.length;
    if let Err(error) = work.verify(budget) {
        return Err(OperationFailure::before_work(FileRangeReadError::Work(error)));
    }
    let piece = vstd::slice::slice_subrange(bytes, start, end);
    Ok(FileRangeRead { bytes: vstd::slice::slice_to_vec(piece), work })
}

/// Whether a blob holds given bytes.
pub open spec fn blob_is(
    objects: Objects,
    limits: DecodeLimits,
    object: ObjectView,
    bytes: Seq<u8>,
) -> bool {
    exists|height: nat| #[trigger]
        blob_holds(objects, limits, object, 0, bytes.len() as int, bytes, height)
}

/// Whether a byte reads as a value: zero without content, and otherwise what the
/// blob holds there.
pub open spec fn reads_as(
    objects: Objects,
    limits: DecodeLimits,
    byte: ByteView,
    value: u8,
) -> bool {
    match byte {
        ByteView::Hole => value == 0,
        ByteView::Zero => value == 0,
        ByteView::Content(object, at) => forall|bytes: Seq<u8>| #[trigger]
            blob_is(objects, limits, object, bytes) ==> 0 <= at < bytes.len() && value
                == bytes[at],
    }
}

/// Whether bytes are what the spans of a range say of its first bytes.
pub open spec fn range_reads_as(
    objects: Objects,
    limits: DecodeLimits,
    spans: Seq<ExtentView>,
    range: ByteRange,
    bytes: Seq<u8>,
) -> bool {
    forall|i: int|
        0 <= i < bytes.len() ==> position_reads_as(
            objects,
            limits,
            spans,
            range.offset + i,
            #[trigger] bytes[i],
        )
}

/// Whether the byte that spans hold at a position reads as a value.
pub open spec fn position_reads_as(
    objects: Objects,
    limits: DecodeLimits,
    spans: Seq<ExtentView>,
    at: int,
    value: u8,
) -> bool {
    byte_at(spans, at) matches Some(byte) && reads_as(objects, limits, byte, value)
}

/// The outcome of reading a part of a blob.
pub open spec fn blob_outcome<S: ImmediateObjectStore>(
    store: &S,
    object: ObjectView,
    range: ByteRange,
    limits: DecodeLimits,
    budget: WorkBudget,
) -> Result<BlobReadView, BlobReadFailing> {
    match range_begun(object, range, limits, budget) {
        Err(failing) => Err(failing),
        Ok(begun) => range_outcome(store, begun),
    }
}

/// Work with more added, or why it is refused.
pub open spec fn with_more(work: WorkCounters, more: WorkCounters, budget: WorkBudget) -> Result<
    WorkCounters,
    FileFailing,
> {
    match total(work, more) {
        Err(error) => Err((FileRangeErrorView::Work(error), work)),
        Ok(sum) => if within(sum, budget) {
            Ok(sum)
        } else {
            Err((FileRangeErrorView::Work(WorkError::Exceeded), sum))
        },
    }
}

fn add_more(work: WorkCounters, more: WorkCounters, budget: WorkBudget) -> (r: Result<
    WorkCounters,
    FileRangeReadFailure,
>)
    ensures
        match with_more(work, more, budget) {
            Ok(sum) => r == Ok::<WorkCounters, FileRangeReadFailure>(sum),
            Err(failing) => r matches Err(failure) && file_failure_is(failure, failing),
        },
{
    match work.checked_add(more) {
        Err(error) => Err(OperationFailure::new(FileRangeReadError::Work(error), work)),
        Ok(sum) => match sum.verify(budget) {
            Ok(()) => Ok(sum),
            Err(error) => Err(OperationFailure::new(FileRangeReadError::Work(error), sum)),
        },
    }
}

/// Zeros.
pub open spec fn zeros(count: nat) -> Seq<u8> {
    Seq::new(count, |i: int| 0u8)
}

/// The bytes of one span and the work behind it, or why it cannot be read: a span
/// without content is zeros, and every other is read from its blob while the output
/// is held.
pub open spec fn span_outcome<S: ImmediateObjectStore>(
    store: &S,
    span: ExtentView,
    work: WorkCounters,
    held: u64,
    limits: DecodeLimits,
    budget: WorkBudget,
) -> Result<(Seq<u8>, WorkCounters), FileFailing> {
    match span.kind {
        ExtentKindView::Content { object, object_offset } => if !within(work, budget) {
            Err((FileRangeErrorView::Work(WorkError::Exceeded), work))
        } else {
            let range = ByteRange { offset: object_offset, length: span.length };
            match blob_outcome(store, object, range, limits, left_over(work, budget)) {
                Err((error, spent)) => match total(work, spent) {
                    Ok(sum) => Err((FileRangeErrorView::Blob(error), sum)),
                    Err(error) => Err((FileRangeErrorView::Work(error), work)),
                },
                Ok(read) => if held + read.work.peak_allocation_bytes > u64::MAX {
                    Err((FileRangeErrorView::Work(WorkError::Overflow), work))
                } else {
                    let nested = WorkCounters {
                        peak_allocation_bytes: 0,
                        output_bytes: 0,
                        ..read.work
                    };
                    match total(work, nested) {
                        Err(error) => Err((FileRangeErrorView::Work(error), work)),
                        Ok(sum) => {
                            let merged = WorkCounters {
                                peak_allocation_bytes: larger(
                                    sum.peak_allocation_bytes,
                                    (held + read.work.peak_allocation_bytes) as u64,
                                ),
                                ..sum
                            };
                            let copied = WorkCounters { bytes_copied: span.length, ..no_work() };
                            match with_more(merged, copied, budget) {
                                Err(failing) => Err(failing),
                                Ok(done) => Ok((read.bytes, done)),
                            }
                        },
                    }
                },
            }
        },
        _ => Ok((zeros(span.length as nat), work)),
    }
}

/// The outcome of reading spans from a position on behind what has been read.
pub open spec fn spans_outcome<S: ImmediateObjectStore>(
    store: &S,
    spans: Seq<ExtentView>,
    from: int,
    output: Seq<u8>,
    work: WorkCounters,
    held: u64,
    length: u64,
    limits: DecodeLimits,
    budget: WorkBudget,
) -> Result<(Seq<u8>, WorkCounters), FileFailing>
    decreases spans.len() - from,
{
    if from < 0 || from >= spans.len() {
        let returned = WorkCounters { output_bytes: length, items_returned: 1, ..no_work() };
        match with_more(work, returned, budget) {
            Err(failing) => Err(failing),
            Ok(done) => Ok((output, done)),
        }
    } else {
        match span_outcome(store, spans[from], work, held, limits, budget) {
            Err(failing) => Err(failing),
            Ok((piece, next)) => spans_outcome(
                store,
                spans,
                from + 1,
                output + piece,
                next,
                held,
                length,
                limits,
                budget,
            ),
        }
    }
}

/// The outcome of reading a range of a sparse file: its bytes and the work, or why it
/// fails.
pub open spec fn sparse_outcome<S: ImmediateObjectStore>(
    store: &S,
    spans: Seq<ExtentView>,
    planned: WorkCounters,
    retained: u64,
    range: ByteRange,
    limits: DecodeLimits,
    budget: WorkBudget,
) -> Result<(Seq<u8>, WorkCounters), FileFailing> {
    if range.length > usize::MAX {
        Err((FileRangeErrorView::InvalidRange, planned))
    } else if retained + range.length > u64::MAX {
        Err((FileRangeErrorView::Work(WorkError::Overflow), planned))
    } else {
        let held = (retained + range.length) as u64;
        let allocated = WorkCounters {
            allocation_operations: if range.length != 0 {
                1
            } else {
                0
            },
            peak_allocation_bytes: held,
            ..no_work()
        };
        match with_more(planned, allocated, budget) {
            Err(failing) => Err(failing),
            Ok(work) => spans_outcome(
                store,
                spans,
                0,
                Seq::empty(),
                work,
                held,
                range.length,
                limits,
                budget,
            ),
        }
    }
}

/// Whether spans are those of a range; an empty range may have none.
pub open spec fn range_covered(spans: Seq<ExtentView>, range: ByteRange) -> bool {
    spans_of_range(spans, range) || (spans.len() == 0 && range.length == 0)
}

/// Reads a part of a blob.
fn read_content<S: ObjectStore>(
    store: &S,
    object: ObjectId,
    range: ByteRange,
    limits: DecodeLimits,
    budget: WorkBudget,
) -> (r: Result<(Vec<u8>, WorkCounters), OperationFailure<BlobReadError>>)
    ensures
        match blob_outcome(store, object@, range, limits, budget) {
            Ok(read) => r matches Ok((bytes, work)) && bytes@ == read.bytes && work == read.work,
            Err(failing) => r matches Err(failure) && blob_failure_is(failure, failing),
        },
        r matches Ok((bytes, _)) ==> bytes@.len() == range.length && forall|i: int|
            0 <= i < range.length ==> reads_as(
                store.contents(),
                limits,
                ByteView::Content(object@, range.offset + i),
                #[trigger] bytes@[i],
            ),
{
    let ghost objects = store.contents();
    let read = match read_blob_range(store, object, range, limits, budget) {
        Ok(read) => read,
        Err(failure) => {
            return Err(failure);
        },
    };
    proof {
        let begun = range_begun(object@, range, limits, budget)->Ok_0;
        range_read_has_its_length(store, begun);
        assert forall|request: RequestView|
            (#[trigger] store.answers(request)) matches Ok(read) implies objects(request.object)
            == Some(store.answers(request)->Ok_0.bytes) by {
            store.answers_from_contents(request);
        }
        assert(serves(store, objects));
        assert forall|i: int| 0 <= i < range.length implies reads_as(
            objects,
            limits,
            ByteView::Content(object@, range.offset + i),
            #[trigger] read.bytes@[i],
        ) by {
            assert forall|bytes: Seq<u8>| #[trigger]
                blob_is(objects, limits, object@, bytes) implies 0 <= range.offset + i
                < bytes.len() && read.bytes@[i] == bytes[range.offset + i] by {
                let height = choose|height: nat| #[trigger]
                    blob_holds(objects, limits, object@, 0, bytes.len() as int, bytes, height);
                if range.offset + range.length > bytes.len() {
                    blob_range_is_bounded(
                        store,
                        objects,
                        object@,
                        range,
                        limits,
                        budget,
                        bytes,
                        height,
                    );
                } else {
                    blob_range_reads_back(
                        store,
                        objects,
                        object@,
                        range,
                        limits,
                        budget,
                        bytes,
                        height,
                    );
                }
            }
        }
    }
    Ok((read.bytes, read.work))
}

/// Adds zeros behind some bytes.
fn push_zeros(output: &mut Vec<u8>, count: u64)
    requires
        old(output)@.len() + count <= usize::MAX,
    ensures
        final(output)@ == old(output)@ + zeros(count as nat),
{
    let ghost start = output@;
    let mut i: u64 = 0;
    assert(output@ =~= start + zeros(0));
    while i < count
        invariant
            i <= count,
            output@ == start + zeros(i as nat),
        decreases count - i,
    {
        output.push(0);
        i = i + 1;
        assert(output@ =~= start + zeros(i as nat));
    }
}

/// Reads one span behind what has been read.
fn read_span<S: ObjectStore>(
    store: &S,
    span: &Extent,
    work: WorkCounters,
    held: u64,
    limits: DecodeLimits,
    budget: WorkBudget,
    output: &mut Vec<u8>,
) -> (r: Result<WorkCounters, FileRangeReadFailure>)
    requires
        old(output)@.len() + span.length <= usize::MAX,
    ensures
        match span_outcome(store, span@, work, held, limits, budget) {
            Ok((piece, spent)) => {
                &&& r == Ok::<WorkCounters, FileRangeReadFailure>(spent)
                &&& final(output)@ == old(output)@ + piece
                &&& piece.len() == span.length
                &&& forall|i: int|
                    0 <= i < span.length ==> reads_as(
                        store.contents(),
                        limits,
                        byte_of(span@.kind, i),
                        #[trigger] piece[i],
                    )
            },
            Err(failing) => r matches Err(failure) && file_failure_is(failure, failing),
        },
{
    match span.kind {
        ExtentKind::Content { object, object_offset } => {
            let remaining = match work.remaining(budget) {
                Ok(remaining) => remaining,
                Err(error) => {
                    return Err(OperationFailure::new(FileRangeReadError::Work(error), work));
                },
            };
            let range = ByteRange { offset: object_offset, length: span.length };
            let (bytes, spent) = match read_content(store, object, range, limits, remaining) {
                Ok(read) => read,
                Err(failure) => match work.checked_add(failure.work) {
                    Ok(sum) => {
                        return Err(
                            OperationFailure::new(FileRangeReadError::Blob(failure.error), sum),
                        );
                    },
                    Err(error) => {
                        return Err(OperationFailure::new(FileRangeReadError::Work(error), work));
                    },
                },
            };
            if spent.peak_allocation_bytes > u64::MAX - held {
                return Err(
                    OperationFailure::new(FileRangeReadError::Work(WorkError::Overflow), work),
                );
            }
            let simultaneous: u64 = held + spent.peak_allocation_bytes;
            let mut nested = spent;
            nested.peak_allocation_bytes = 0;
            nested.output_bytes = 0;
            let mut merged = match work.checked_add(nested) {
                Ok(sum) => sum,
                Err(error) => {
                    return Err(OperationFailure::new(FileRangeReadError::Work(error), work));
                },
            };
            if merged.peak_allocation_bytes < simultaneous {
                merged.peak_allocation_bytes = simultaneous;
            }
            let done = match add_more(merged, WorkCounters::of_bytes_copied(span.length), budget) {
                Ok(sum) => sum,
                Err(failure) => {
                    return Err(failure);
                },
            };
            output.extend_from_slice(bytes.as_slice());
            assert(output@ =~= old(output)@ + bytes@);
            Ok(done)
        },
        _ => {
            push_zeros(output, span.length);
            Ok(work)
        },
    }
}

/// Reads a range of a sparse file whose spans are known.
///
/// Spans without content read as zeros; every other span is read from its blob.
pub fn read_sparse<S: ObjectStore>(
    store: &S,
    spans: &Vec<Extent>,
    planned: WorkCounters,
    retained: u64,
    range: ByteRange,
    limits: DecodeLimits,
    budget: WorkBudget,
) -> (r: Result<FileRangeRead, FileRangeReadFailure>)
    requires
        range_covered(views(spans@), range),
    ensures
        match sparse_outcome(store, views(spans@), planned, retained, range, limits, budget) {
            Ok((bytes, work)) => r matches Ok(read) && read.bytes@ == bytes && read.work == work,
            Err(failing) => r matches Err(failure) && file_failure_is(failure, failing),
        },
        r matches Ok(read) ==> {
            &&& read.bytes@.len() == range.length
            &&& within(read.work, budget)
            &&& range_reads_as(store.contents(), limits, views(spans@), range, read.bytes@)
        },
{
    let ghost all = views(spans@);
    let ghost objects = store.contents();
    if range.length > usize::MAX as u64 {
        return Err(OperationFailure::new(FileRangeReadError::InvalidRange, planned));
    }
    if range.length > u64::MAX - retained {
        return Err(
            OperationFailure::new(FileRangeReadError::Work(WorkError::Overflow), planned),
        );
    }
    let initial_peak: u64 = retained + range.length;
    let operations: u64 = if range.length != 0 {
        1
    } else {
        0
    };
    let mut counted = WorkCounters::of_allocation_operations(operations);
    counted.peak_allocation_bytes = initial_peak;
    let mut work = match add_more(planned, counted, budget) {
        Ok(work) => work,
        Err(failure) => {
            return Err(failure);
        },
    };
    let ghost whole = sparse_outcome(store, all, planned, retained, range, limits, budget);
    let mut output: Vec<u8> = Vec::new();
    let mut i: usize = 0;
    while i < spans.len()
        invariant
            i <= spans@.len(),
            all == views(spans@),
            objects == store.contents(),
            range_covered(all, range),
            range.length <= usize::MAX,
            whole == sparse_outcome(store, all, planned, retained, range, limits, budget),
            whole == spans_outcome(
                store,
                all,
                i as int,
                output@,
                work,
                initial_peak,
                range.length,
                limits,
                budget,
            ),
            range.offset + output@.len() == (if i < all.len() {
                all[i as int].offset as int
            } else {
                range.offset + range.length
            }),
            range_reads_as(objects, limits, all, range, output@),
        decreases spans@.len() - i,
    {
        let span = spans[i];
        assert(all[i as int] == span@);
        let ghost before = output@;
        proof {
            assert(extent_fits(all[i as int]));
            if i + 1 < all.len() {
                assert(extent_adjoins(all, i + 1));
            }
            lemma_span_ends(all, i as int);
        }
        let ghost spent_before = work;
        work =
        match read_span(store, &span, work, initial_peak, limits, budget, &mut output) {
            Ok(spent) => spent,
            Err(failure) => {
                return Err(failure);
            },
        };
        let ghost piece = span_outcome(
            store,
            span@,
            spent_before,
            initial_peak,
            limits,
            budget,
        )->Ok_0.0;
        proof {
            assert(output@ =~= before + piece);
            let joined = output@;
            assert forall|j: int| 0 <= j < joined.len() implies position_reads_as(
                objects,
                limits,
                all,
                range.offset + j,
                #[trigger] joined[j],
            ) by {
                if j < before.len() {
                    assert(joined[j] == before[j]);
                } else {
                    let k = j - before.len();
                    assert(joined[j] == piece[k]);
                    lemma_held_byte(all, i as int, range.offset + j);
                    assert(range.offset + j - all[i as int].offset == k);
                }
            }
        }
        i = i + 1;
    }
    let mut done = WorkCounters::of_output_bytes(range.length);
    done.items_returned = 1;
    match add_more(work, done, budget) {
        Ok(sum) => Ok(FileRangeRead { bytes: output, work: sum }),
        Err(failure) => Err(failure),
    }
}

/// What reading a range of a file comes to.
pub open spec fn file_outcome<S: ImmediateObjectStore>(
    store: &S,
    request: FileRangeRequest,
    plan: ExtentPlan,
) -> Result<(Seq<u8>, WorkCounters), FileFailing> {
    let range = request.range;
    if request.record.kind != FileKind::Regular {
        Err((FileRangeErrorView::NotRegular, no_work()))
    } else {
        match request.record@.payload {
            PayloadView::InlineRegular(bytes) => if range.offset + range.length > bytes.len() {
                Err((FileRangeErrorView::InvalidRange, no_work()))
            } else if !within(inline_work(range.length), request.budget) {
                Err((FileRangeErrorView::Work(WorkError::Exceeded), no_work()))
            } else {
                Ok(
                    (
                        bytes.subrange(range.offset as int, range.offset + range.length),
                        inline_work(range.length),
                    ),
                )
            },
            PayloadView::Regular { .. } => sparse_outcome(
                store,
                views(plan.spans@),
                plan.work,
                plan.retained_allocation_bytes,
                range,
                request.limits,
                request.budget,
            ),
            _ => Err((FileRangeErrorView::NotRegular, no_work())),
        }
    }
}

/// Reads one range of a regular file. The plan tells the spans of the range where the
/// file is sparse, and is not looked at otherwise.
pub fn read_file_range<S: ObjectStore>(
    store: &S,
    request: &FileRangeRequest,
    plan: &ExtentPlan,
) -> (r: Result<FileRangeRead, FileRangeReadFailure>)
    requires
        request.record@.payload is Regular ==> range_covered(views(plan.spans@), request.range),
    ensures
        match file_outcome(store, *request, *plan) {
            Ok((bytes, work)) => r matches Ok(read) && read.bytes@ == bytes && read.work == work,
            Err(failing) => r matches Err(failure) && file_failure_is(failure, failing),
        },
{
    if request.record.kind != FileKind::Regular {
        return Err(OperationFailure::before_work(FileRangeReadError::NotRegular));
    }
    match &request.record.payload {
        FilePayload::InlineRegular(data) => read_inline(
            data.as_bytes(),
            request.range,
            request.budget,
        ),
        FilePayload::Regular { .. } => read_sparse(
            store,
            &plan.spans,
            plan.work,
            plan.retained_allocation_bytes,
            request.range,
            request.limits,
            request.budget,
        ),
        _ => Err(OperationFailure::before_work(FileRangeReadError::NotRegular)),
    }
}

proof fn lemma_span_ends(spans: Seq<ExtentView>, at: int)
    requires
        extents_ordered(spans),
        0 <= at < spans.len(),
    ensures
        extent_end_of(spans[at]) <= extent_end_of(spans.last()),
{
    super::extent_patch::lemma_extents_disjoint(spans);
    let runs = super::extent_patch::runs_of(spans);
    let last = spans.len() - 1;
    assert(extent_fits(spans[at]) && extent_fits(spans[last]));
    if at < last {
        assert(runs[at].end <= runs[last].offset);
    }
}

/// Bytes read through spans that say what a file is are the bytes of the file.
pub proof fn reads_follow_the_file(
    objects: Objects,
    limits: DecodeLimits,
    spans: Seq<ExtentView>,
    range: ByteRange,
    bytes: Seq<u8>,
    file: Bytes,
)
    requires
        bytes.len() <= range.length,
        extents_tell(spans, range.offset as int, range.offset + range.length, file),
        range_reads_as(objects, limits, spans, range, bytes),
    ensures
        forall|i: int|
            0 <= i < bytes.len() ==> reads_as(
                objects,
                limits,
                file(range.offset + i),
                #[trigger] bytes[i],
            ),
{
    assert forall|i: int| 0 <= i < bytes.len() implies reads_as(
        objects,
        limits,
        file(range.offset + i),
        #[trigger] bytes[i],
    ) by {
        assert(position_reads_as(objects, limits, spans, range.offset + i, bytes[i]));
        assert(byte_at(spans, range.offset + i) == Some(file(range.offset + i)));
    }
}

/// What the last mutation of a batch wrote is what a read of it gives back: the content
/// of the blob that the mutation refers to.
pub proof fn written_content_reads_back(
    objects: Objects,
    limits: DecodeLimits,
    old_size: u64,
    earlier: Seq<ExtentMutationView>,
    offset: u64,
    length: u64,
    object: ObjectView,
    object_offset: u64,
    extend: bool,
    file: Bytes,
    spans: Seq<ExtentView>,
    range: ByteRange,
    bytes: Seq<u8>,
    content: Seq<u8>,
)
    requires
        blob_is(objects, limits, object, content),
        offset <= range.offset,
        range.offset + range.length <= offset + length,
        bytes.len() == range.length,
        extents_tell(
            spans,
            range.offset as int,
            range.offset + range.length,
            replayed(
                old_size,
                earlier.push(content_write(offset, length, object, object_offset, extend)),
                file,
            ),
        ),
        range_reads_as(objects, limits, spans, range, bytes),
    ensures
        object_offset + (range.offset - offset) + range.length <= content.len() || range.length
            == 0,
        range.length > 0 ==> bytes == content.subrange(
            object_offset + (range.offset - offset),
            object_offset + (range.offset - offset) + range.length,
        ),
{
    let write = content_write(offset, length, object, object_offset, extend);
    let mutations = earlier.push(write);
    let written = replayed(old_size, mutations, file);
    let start = object_offset + (range.offset - offset);
    reads_follow_the_file(objects, limits, spans, range, bytes, written);
    assert(mutations[mutations.len() - 1] == write);
    assert forall|i: int| 0 <= i < bytes.len() implies 0 <= start + i < content.len()
        && #[trigger] bytes[i] == content[start + i] by {
        let x = range.offset + i;
        assert(replay_byte(file, old_size, mutations, mutations.len(), x) == ByteView::Content(
            object,
            object_offset + (x - offset),
        ));
        assert(reads_as(objects, limits, written(x), bytes[i]));
    }
    if range.length > 0 {
        assert(bytes[bytes.len() - 1] == content[start + bytes.len() - 1]);
        assert(bytes =~= content.subrange(start, start + range.length));
    }
}

/// The mutation that writes a part of a blob.
pub open spec fn content_write(
    offset: u64,
    length: u64,
    object: ObjectView,
    object_offset: u64,
    extend: bool,
) -> ExtentMutationView {
    ExtentMutationView::Replace {
        offset,
        length,
        kind: ExtentKindView::Content { object, object_offset },
        extend,
    }
}

} // verus!
