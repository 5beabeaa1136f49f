//! Bounded authentication of everything that a generation refers to.

use super::attribute::attribute_decoded;
use super::blob::{blob_decoded, decode_blob_page, BlobNode};
use super::blob_read::span_of;
use super::closure_outcome::{
    blob_kept, blob_opened, blob_opener, blob_pages, blob_walked, chunks_walked, countable, digest_of, lemma_walk_step, read_proved,
    span_page, spans_pending, walked_on, PendingSpan,
};
use super::closure_tree::lemma_listed_under;
use super::codec::{CanonicalDecodeError, DecodeErrorView, DecodeLimits, PageView};
use super::extent::{extent_decoded, ExtentKindView, ExtentView};
use super::file_table::table_decoded;
use super::object_table::ObjectTable;
use crate::foundation::{Digest, FileId};
use crate::order::{views, OrderKey, OrderedMap};
use crate::performance::{
    left_over, no_work, total, within, WorkBudget, WorkCounters, WorkError,
};
use crate::storage::{
    ImmediateObjectStore, ObjectId, ObjectKind, ObjectStore, ObjectStoreError, ObjectView, Objects,
    ReadRequest, RequestView,
};
use vstd::prelude::*;

verus! {

/// Hard closure-walk limits admitted before generation publication.
#[derive(Clone, Copy, Debug, PartialEq, Eq, Structural)]
pub struct ClosureLimits {
    /// Canonical decoder/page limits.
    pub decode: DecodeLimits,
    /// Maximum distinct immutable objects read by the proof.
    pub maximum_objects: u64,
    /// Maximum path-independent file records.
    pub maximum_files: u64,
    /// Maximum cumulative canonical bytes read.
    pub maximum_object_bytes: u64,
    /// Whether symbolic-link records are admitted.
    pub symbolic_links: bool,
    /// Whether more than one namespace binding may reference a non-directory.
    pub hard_links: bool,
    /// Whether holes or allocated-zero extents are admitted.
    pub sparse_files: bool,
}

/// Whole-generation proof failures.
#[derive(Debug, PartialEq, Eq)]
pub enum ClosureError {
    /// Typed object reference has the wrong class.
    WrongObjectKind,
    /// Same object was encountered twice where the graph requires a tree.
    RoutingAlias,
    /// Parent lower/upper bounds do not match authenticated child content.
    RoutingBoundsMismatch,
    /// Closure exceeds its object-count bound.
    TooManyObjects {
        /// Distinct objects encountered.
        observed: u64,
        /// Admitted maximum.
        maximum: u64,
    },
    /// Closure exceeds its file-count bound.
    TooManyFiles {
        /// File records encountered.
        observed: u64,
        /// Admitted maximum.
        maximum: u64,
    },
    /// Closure exceeds its cumulative canonical-byte bound.
    ClosureBytesExceeded {
        /// Cumulative canonical bytes read.
        observed: u64,
        /// Admitted maximum.
        maximum: u64,
    },
    /// File table contains the same stable identity twice.
    DuplicateFileRecord(FileId),
    /// Root file record is absent.
    MissingRootFile,
    /// Root file is not a directory.
    RootIsNotDirectory,
    /// A record or extent exceeds the volume's declared semantic capabilities.
    UnsupportedVolumeSemantics,
    /// Namespace references an absent file record.
    MissingFileRecord(FileId),
    /// Namespace entry kind differs from its file record.
    NamespaceKindMismatch(FileId),
    /// Recorded hard-link count differs from exact namespace references.
    LinkCountMismatch(FileId),
    /// Directories cannot have hard links.
    DirectoryHardLink(FileId),
    /// Directory record has no proven namespace tree.
    MissingDirectoryTree(FileId),
    /// File table contains records unreachable from the root.
    UnreachableFileRecords,
    /// Blob logical length differs from its declared use.
    BlobLengthMismatch,
    /// Extent references bytes outside its blob.
    BlobSpanOutsideObject,
    /// Offset/count arithmetic overflowed.
    RangeOverflow,
    /// Immutable object backend failed.
    Storage(ObjectStoreError),
    /// Canonical object failed decoding or semantic validation.
    Decode(CanonicalDecodeError),
    /// Exact work exceeded or overflowed its budget.
    Work(WorkError),
}

/// Abstract value of [`ClosureError`].
pub enum ClosureErrorView {
    /// Typed object reference has the wrong class.
    WrongObjectKind,
    /// Same object was encountered twice where the graph requires a tree.
    RoutingAlias,
    /// Parent lower/upper bounds do not match authenticated child content.
    RoutingBoundsMismatch,
    /// Closure exceeds its object-count bound.
    TooManyObjects {
        /// What was encountered.
        observed: u64,
        /// Admitted maximum.
        maximum: u64,
    },
    /// Closure exceeds its file-count bound.
    TooManyFiles {
        /// What was encountered.
        observed: u64,
        /// Admitted maximum.
        maximum: u64,
    },
    /// Closure exceeds its cumulative canonical-byte bound.
    ClosureBytesExceeded {
        /// What was encountered.
        observed: u64,
        /// Admitted maximum.
        maximum: u64,
    },
    /// File table contains the same stable identity twice.
    DuplicateFileRecord(FileId),
    /// Root file record is absent.
    MissingRootFile,
    /// Root file is not a directory.
    RootIsNotDirectory,
    /// A record or extent exceeds the volume's declared semantic capabilities.
    UnsupportedVolumeSemantics,
    /// Namespace references an absent file record.
    MissingFileRecord(FileId),
    /// Namespace entry kind differs from its file record.
    NamespaceKindMismatch(FileId),
    /// Recorded hard-link count differs from exact namespace references.
    LinkCountMismatch(FileId),
    /// Directories cannot have hard links.
    DirectoryHardLink(FileId),
    /// Directory record has no proven namespace tree.
    MissingDirectoryTree(FileId),
    /// File table contains records unreachable from the root.
    UnreachableFileRecords,
    /// Blob logical length differs from its declared use.
    BlobLengthMismatch,
    /// Extent references bytes outside its blob.
    BlobSpanOutsideObject,
    /// Offset/count arithmetic overflowed.
    RangeOverflow,
    /// Immutable object backend failed.
    Storage(ObjectStoreError),
    /// Canonical object failed decoding or semantic validation.
    Decode(DecodeErrorView),
    /// Exact work exceeded or overflowed its budget.
    Work(WorkError),
}

impl View for ClosureError {
    type V = ClosureErrorView;

    open spec fn view(&self) -> ClosureErrorView {
        match *self {
            ClosureError::WrongObjectKind => ClosureErrorView::WrongObjectKind,
            ClosureError::RoutingAlias => ClosureErrorView::RoutingAlias,
            ClosureError::RoutingBoundsMismatch => ClosureErrorView::RoutingBoundsMismatch,
            ClosureError::TooManyObjects { observed, maximum } => ClosureErrorView::TooManyObjects {
                observed,
                maximum,
            },
            ClosureError::TooManyFiles { observed, maximum } => ClosureErrorView::TooManyFiles {
                observed,
                maximum,
            },
            ClosureError::ClosureBytesExceeded { observed, maximum } => ClosureErrorView::ClosureBytesExceeded {
                observed,
                maximum,
            },
            ClosureError::DuplicateFileRecord(id) => ClosureErrorView::DuplicateFileRecord(id),
            ClosureError::MissingRootFile => ClosureErrorView::MissingRootFile,
            ClosureError::RootIsNotDirectory => ClosureErrorView::RootIsNotDirectory,
            ClosureError::UnsupportedVolumeSemantics => ClosureErrorView::UnsupportedVolumeSemantics,
            ClosureError::MissingFileRecord(id) => ClosureErrorView::MissingFileRecord(id),
            ClosureError::NamespaceKindMismatch(id) => ClosureErrorView::NamespaceKindMismatch(id),
            ClosureError::LinkCountMismatch(id) => ClosureErrorView::LinkCountMismatch(id),
            ClosureError::DirectoryHardLink(id) => ClosureErrorView::DirectoryHardLink(id),
            ClosureError::MissingDirectoryTree(id) => ClosureErrorView::MissingDirectoryTree(id),
            ClosureError::UnreachableFileRecords => ClosureErrorView::UnreachableFileRecords,
            ClosureError::BlobLengthMismatch => ClosureErrorView::BlobLengthMismatch,
            ClosureError::BlobSpanOutsideObject => ClosureErrorView::BlobSpanOutsideObject,
            ClosureError::RangeOverflow => ClosureErrorView::RangeOverflow,
            ClosureError::Storage(error) => ClosureErrorView::Storage(error),
            ClosureError::Decode(error) => ClosureErrorView::Decode(error@),
            ClosureError::Work(error) => ClosureErrorView::Work(error),
        }
    }
}

/// Length of a blob that has been proved.
#[derive(Clone, Copy, Debug, PartialEq, Eq)]
pub struct BlobLength {
    /// The length.
    pub bytes: u64,
}

impl View for BlobLength {
    type V = u64;

    open spec fn view(&self) -> u64 {
        self.bytes
    }
}

/// State of a proof: what has been read, and what is known of it.
pub struct ProofContext {
    limits: ClosureLimits,
    budget: WorkBudget,
    work: WorkCounters,
    objects: ObjectTable,
    blob_lengths: OrderedMap<Digest, BlobLength>,
}

/// Abstract value of [`ProofContext`].
#[verifier::ext_equal]
pub struct ContextView {
    /// Bounds of the proof.
    pub limits: ClosureLimits,
    /// Work admitted.
    pub budget: WorkBudget,
    /// Work spent.
    pub work: WorkCounters,
    /// Objects asked for.
    pub objects: Set<ObjectView>,
    /// Lengths of the blobs proved, by digest.
    pub blob_lengths: Map<Digest, u64>,
}

impl View for ProofContext {
    type V = ContextView;

    closed spec fn view(&self) -> ContextView {
        ContextView {
            limits: self.limits,
            budget: self.budget,
            work: self.work,
            objects: self.objects@,
            blob_lengths: self.blob_lengths@,
        }
    }
}

/// How reading one object ends: its bytes or why not, and the work spent then.
pub open spec fn object_read<S: ImmediateObjectStore>(
    store: &S,
    context: ContextView,
    object: ObjectView,
    page: bool,
) -> (Result<Seq<u8>, ObjectReading>, WorkCounters) {
    let count = context.objects.insert(object).len();
    let semantic = WorkCounters {
        page_reads: if page {
            1
        } else {
            0
        },
        ..no_work()
    };
    if count > context.limits.maximum_objects {
        (Err(ObjectReading::TooMany { observed: count }), context.work)
    } else {
        match total(context.work, semantic) {
            Err(error) => (Err(ObjectReading::Work(error)), context.work),
            Ok(prospective) => if !within(prospective, context.budget) {
                (Err(ObjectReading::Work(WorkError::Exceeded)), context.work)
            } else {
                match store.answers(
                    RequestView {
                        object,
                        maximum_bytes: context.limits.decode.maximum_object_bytes,
                        remaining: left_over(prospective, context.budget),
                    },
                ) {
                    Err(failure) => match total(prospective, failure.work) {
                        Ok(sum) => (Err(ObjectReading::Storage(failure.error)), sum),
                        Err(error) => (Err(ObjectReading::Work(error)), prospective),
                    },
                    Ok(read) => match total(prospective, read.work) {
                        Err(error) => (Err(ObjectReading::Work(error)), context.work),
                        Ok(sum) => if !within(sum, context.budget) {
                            (Err(ObjectReading::Work(WorkError::Exceeded)), sum)
                        } else if sum.object_bytes_read > context.limits.maximum_object_bytes {
                            (Err(ObjectReading::TooLong { observed: sum.object_bytes_read }), sum)
                        } else {
                            (Ok(read.bytes), sum)
                        },
                    },
                }
            },
        }
    }
}

/// Why an object was not read.
#[allow(inconsistent_fields)]
pub enum ObjectReading {
    /// More objects than admitted.
    TooMany {
        /// Distinct objects encountered.
        observed: nat,
    },
    /// More bytes than admitted.
    TooLong {
        /// Cumulative canonical bytes read.
        observed: u64,
    },
    /// The store failed.
    Storage(ObjectStoreError),
    /// Work overflowed or exceeded its budget.
    Work(WorkError),
}

/// A reason as a proof failure.
pub open spec fn reading_is(error: ClosureError, reading: ObjectReading, limits: ClosureLimits) -> bool {
    match reading {
        ObjectReading::TooMany { observed } => error matches ClosureError::TooManyObjects {
            observed: found,
            maximum,
        } && found == observed && maximum == limits.maximum_objects,
        ObjectReading::TooLong { observed } => error == (ClosureError::ClosureBytesExceeded {
            observed,
            maximum: limits.maximum_object_bytes,
        }),
        ObjectReading::Storage(cause) => error == ClosureError::Storage(cause),
        ObjectReading::Work(cause) => error == ClosureError::Work(cause),
    }
}

/// Whether a failure is one that a bounded store of sound objects leaves possible.
pub open spec fn resource_failure(error: ClosureError) -> bool {
    error is TooManyObjects || error is ClosureBytesExceeded || error is Storage || error is Work
}

/// Whether a predicate holds of an item at some height.
pub open spec fn some_height(holds_at: spec_fn(int, nat) -> bool, i: int) -> bool {
    exists|height: nat| #[trigger] holds_at(i, height)
}

/// A predicate that greater heights keep, and that holds of each of some items at
/// some height, holds of all of them at one height.
pub proof fn common_height(holds_at: spec_fn(int, nat) -> bool, count: nat) -> (height: nat)
    requires
        forall|i: int, low: nat, high: nat|
            #![trigger holds_at(i, low), holds_at(i, high)]
            holds_at(i, low) && low <= high ==> holds_at(i, high),
        forall|i: int| 0 <= i < count ==> #[trigger] some_height(holds_at, i),
    ensures
        forall|i: int| 0 <= i < count ==> #[trigger] holds_at(i, height),
    decreases count,
{
    if count == 0 {
        0
    } else {
        let below = common_height(holds_at, (count - 1) as nat);
        let last = count - 1;
        assert(some_height(holds_at, last));
        let own = choose|height: nat| #[trigger] holds_at(last, height);
        let height = if below >= own {
            below
        } else {
            own
        };
        assert forall|i: int| 0 <= i < count implies #[trigger] holds_at(i, height) by {
            if i < count - 1 {
                assert(holds_at(i, below));
            } else {
                assert(holds_at(i, own));
            }
        }
        height
    }
}

/// Whether a page is the root of a blob index of at most a given height, whose
/// pages decode, keep their bounds and lead to chunks of the right length.
pub open spec fn blob_sound(
    objects: Objects,
    limits: DecodeLimits,
    page: ObjectView,
    first: int,
    end: int,
    height: nat,
) -> bool
    decreases height,
{
    &&& height > 0
    &&& objects(page) is Some
    &&& match blob_decoded(objects(page)->0, limits) {
        Err(_) => false,
        Ok(view) => {
            &&& view.first == first
            &&& view.end == end
            &&& forall|i: int|
                0 <= i < view.spans.len() ==> {
                    let span = #[trigger] span_of(view.spans, i);
                    if view.leaf {
                        objects(span.object) is Some && objects(span.object)->0.len() == span.end
                            - span.first
                    } else {
                        blob_sound(
                            objects,
                            limits,
                            span.object,
                            span.first as int,
                            span.end as int,
                            (height - 1) as nat,
                        )
                    }
                }
        },
    }
}

/// Whether a page is the root of a blob index of some height.
pub open spec fn blob_proved(
    objects: Objects,
    limits: DecodeLimits,
    page: ObjectView,
    first: int,
    end: int,
) -> bool {
    exists|height: nat| #[trigger] blob_sound(objects, limits, page, first, end, height)
}

/// Whether a page is the root of a sound blob of some length.
pub open spec fn blob_whole(objects: Objects, limits: DecodeLimits, page: ObjectView) -> bool {
    exists|length: int| #[trigger] blob_proved(objects, limits, page, 0, length)
}

/// A page of a sound index decodes, keeps its bounds and leads to what is sound.
pub(crate) proof fn lemma_blob_opens(
    objects: Objects,
    limits: DecodeLimits,
    page: ObjectView,
    first: int,
    end: int,
)
    requires
        blob_proved(objects, limits, page, first, end),
    ensures
        objects(page) is Some,
        blob_decoded(objects(page)->0, limits) is Ok,
        ({
            let view = blob_decoded(objects(page)->0, limits)->Ok_0;
            &&& view.first == first
            &&& view.end == end
            &&& view.leaf ==> forall|i: int|
                0 <= i < view.spans.len() ==> objects(
                    (#[trigger] span_of(view.spans, i)).object,
                ) is Some && objects(view.spans[i].object)->0.len() == view.spans[i].end
                    - view.spans[i].first
            &&& !view.leaf ==> forall|i: int|
                0 <= i < view.spans.len() ==> blob_proved(
                    objects,
                    limits,
                    (#[trigger] span_of(view.spans, i)).object,
                    view.spans[i].first as int,
                    view.spans[i].end as int,
                )
        }),
{
    let height = choose|height: nat| #[trigger]
        blob_sound(objects, limits, page, first, end, height);
    let view = blob_decoded(objects(page)->0, limits)->Ok_0;
    if !view.leaf {
        assert forall|i: int| 0 <= i < view.spans.len() implies blob_proved(
            objects,
            limits,
            (#[trigger] span_of(view.spans, i)).object,
            view.spans[i].first as int,
            view.spans[i].end as int,
        ) by {
            assert(blob_sound(
                objects,
                limits,
                span_of(view.spans, i).object,
                view.spans[i].first as int,
                view.spans[i].end as int,
                (height - 1) as nat,
            ));
        }
    }
}

proof fn lemma_blob_sound_higher(
    objects: Objects,
    limits: DecodeLimits,
    page: ObjectView,
    first: int,
    end: int,
    low: nat,
    high: nat,
)
    requires
        blob_sound(objects, limits, page, first, end, low),
        low <= high,
    ensures
        blob_sound(objects, limits, page, first, end, high),
    decreases low,
{
    let view = blob_decoded(objects(page)->0, limits)->Ok_0;
    if !view.leaf {
        assert forall|i: int| 0 <= i < view.spans.len() implies blob_sound(
            objects,
            limits,
            (#[trigger] span_of(view.spans, i)).object,
            view.spans[i].first as int,
            view.spans[i].end as int,
            (high - 1) as nat,
        ) by {
            let span = span_of(view.spans, i);
            lemma_blob_sound_higher(
                objects,
                limits,
                span.object,
                span.first as int,
                span.end as int,
                (low - 1) as nat,
                (high - 1) as nat,
            );
        }
    }
}

/// A page whose references lead to sound indexes is sound.
proof fn lemma_blob_page_proved(
    objects: Objects,
    limits: DecodeLimits,
    page: ObjectView,
    first: int,
    end: int,
)
    requires
        objects(page) is Some,
        blob_decoded(objects(page)->0, limits) is Ok,
        ({
            let view = blob_decoded(objects(page)->0, limits)->Ok_0;
            &&& view.first == first
            &&& view.end == end
            &&& view.leaf ==> forall|i: int|
                0 <= i < view.spans.len() ==> objects(
                    (#[trigger] span_of(view.spans, i)).object,
                ) is Some && objects(view.spans[i].object)->0.len() == view.spans[i].end
                    - view.spans[i].first
            &&& !view.leaf ==> forall|i: int|
                0 <= i < view.spans.len() ==> blob_proved(
                    objects,
                    limits,
                    (#[trigger] span_of(view.spans, i)).object,
                    view.spans[i].first as int,
                    view.spans[i].end as int,
                )
        }),
    ensures
        blob_proved(objects, limits, page, first, end),
{
    let view = blob_decoded(objects(page)->0, limits)->Ok_0;
    if view.leaf {
        assert(blob_sound(objects, limits, page, first, end, 1));
    } else {
        let holds_at = |i: int, height: nat|
            blob_sound(
                objects,
                limits,
                span_of(view.spans, i).object,
                view.spans[i].first as int,
                view.spans[i].end as int,
                height,
            );
        assert forall|i: int, low: nat, high: nat|
            #![trigger holds_at(i, low), holds_at(i, high)]
            holds_at(i, low) && low <= high implies holds_at(i, high) by {
            lemma_blob_sound_higher(
                objects,
                limits,
                view.spans[i].object,
                view.spans[i].first as int,
                view.spans[i].end as int,
                low,
                high,
            );
        }
        assert forall|i: int| 0 <= i < view.spans.len() implies #[trigger] some_height(
            holds_at,
            i,
        ) by {
            let span = span_of(view.spans, i);
            let height = choose|height: nat| #[trigger]
                blob_sound(
                    objects,
                    limits,
                    span.object,
                    span.first as int,
                    span.end as int,
                    height,
                );
            assert(holds_at(i, height));
        }
        let height = common_height(holds_at, view.spans.len());
        assert(blob_sound(objects, limits, page, first, end, height + 1)) by {
            assert forall|i: int| 0 <= i < view.spans.len() implies blob_sound(
                objects,
                limits,
                (#[trigger] span_of(view.spans, i)).object,
                view.spans[i].first as int,
                view.spans[i].end as int,
                height,
            ) by {
                assert(holds_at(i, height));
            }
        }
    }
}

/// One index page that is still to be proved.
struct PendingPage {
    page: ObjectId,
    first: u64,
    end: Option<u64>,
}

/// Whether a page that waits is sound.
/// A page that waits.
spec fn span_waiting(pending: PendingPage) -> PendingSpan {
    PendingSpan { page: pending.page@, first: pending.first, end: pending.end }
}

/// Pages that wait, with their ranges.
spec fn spans_waiting(pending: Seq<PendingPage>) -> Seq<PendingSpan> {
    Seq::new(pending.len(), |i: int| span_waiting(pending[i]))
}

/// The outcome of proving a blob.
pub open spec fn length_proved(r: Result<u64, ClosureError>) -> Result<u64, ClosureErrorView> {
    match r {
        Ok(length) => Ok(length),
        Err(error) => Err(error@),
    }
}

/// Pages that wait.
spec fn pages_waiting(pending: Seq<PendingPage>) -> Seq<ObjectView> {
    Seq::new(pending.len(), |i: int| pending[i].page@)
}

spec fn pending_proved(objects: Objects, limits: DecodeLimits, pending: PendingPage, length: int) -> bool {
    blob_proved(
        objects,
        limits,
        pending.page@,
        pending.first as int,
        match pending.end {
            Some(end) => end as int,
            None => length,
        },
    )
}

/// Whether every page that waits is sound.
spec fn all_proved(objects: Objects, limits: DecodeLimits, pending: Seq<PendingPage>, length: int) -> bool {
    forall|i: int|
        0 <= i < pending.len() ==> pending_proved(objects, limits, #[trigger] pending[i], length)
}

/// Whether what is known of blobs is true of a store.
pub open spec fn lengths_true(objects: Objects, context: ContextView) -> bool {
    forall|digest: Digest| #[trigger]
        context.blob_lengths.dom().contains(digest) ==> blob_proved(
            objects,
            context.limits.decode,
            ObjectView { kind: ObjectKind::Blob, digest: digest.bytes@ },
            0,
            context.blob_lengths[digest] as int,
        ) && context.objects.contains(
            ObjectView { kind: ObjectKind::Blob, digest: digest.bytes@ },
        )
}

/// Whether one state of a proof follows another: the same bounds, and no less work
/// or objects.
pub open spec fn follows(before: ContextView, after: ContextView) -> bool {
    &&& after.limits == before.limits
    &&& after.budget == before.budget
    &&& after.work.page_reads >= before.work.page_reads
    &&& before.objects.subset_of(after.objects)
}

/// Whether one state of a proof has asked for no metadata and no directory page that
/// another had not.
pub open spec fn same_metadata(before: ContextView, after: ContextView) -> bool {
    forall|object: ObjectView| #[trigger]
        after.objects.contains(object) && (object.kind == ObjectKind::Metadata || object.kind
            == ObjectKind::TreePage) ==> before.objects.contains(object)
}

/// Whether a page refers to an object. A leaf of a file table refers to nothing here:
/// its records are taken up one by one.
pub open spec fn refers(
    objects: Objects,
    limits: DecodeLimits,
    page: ObjectView,
    target: ObjectView,
) -> bool {
    objects(page) matches Some(bytes) && match page.kind {
        ObjectKind::Blob => blob_decoded(bytes, limits) matches Ok(view) && exists|i: int|
            0 <= i < view.spans.len() && (#[trigger] span_of(view.spans, i)).object == target,
        ObjectKind::ExtentPage => match extent_decoded(bytes, limits) {
            Err(_) => false,
            Ok(PageView::Leaf(extents)) => exists|i: int|
                0 <= i < extents.len() && holds_content(#[trigger] extents[i], target),
            Ok(PageView::Internal(children)) => exists|i: int|
                0 <= i < children.len() && (#[trigger] children[i]).page == target,
        },
        ObjectKind::AttributePage => match attribute_decoded(bytes, limits) {
            Err(_) => false,
            Ok(PageView::Leaf(entries)) => exists|i: int|
                0 <= i < entries.len() && (#[trigger] entries[i]).value == target,
            Ok(PageView::Internal(children)) => exists|i: int|
                0 <= i < children.len() && (#[trigger] children[i]).page == target,
        },
        ObjectKind::FileTablePage => table_decoded(bytes, limits) matches Ok(
            PageView::Internal(children),
        ) && exists|i: int| 0 <= i < children.len() && (#[trigger] children[i]).page == target,
        _ => false,
    }
}

/// Whether an extent holds content of an object.
pub open spec fn holds_content(extent: ExtentView, target: ObjectView) -> bool {
    extent.kind matches ExtentKindView::Content { object, .. } && object == target
}

/// Whether every page that a proof has newly asked for refers only to objects that it
/// has asked for too, or that wait.
pub open spec fn added_closed(
    objects: Objects,
    limits: DecodeLimits,
    before: Set<ObjectView>,
    after: Set<ObjectView>,
    waiting: Seq<ObjectView>,
) -> bool {
    forall|page: ObjectView, target: ObjectView|
        after.contains(page) && !before.contains(page) && #[trigger] refers(
            objects,
            limits,
            page,
            target,
        ) ==> after.contains(target) || waiting.contains(target)
}

/// Pages stay closed once the next one has been read, everything it refers to is asked
/// for or waits, and whatever else was asked for is closed.
pub proof fn lemma_page_closed(
    objects: Objects,
    limits: DecodeLimits,
    before: Set<ObjectView>,
    earlier: Set<ObjectView>,
    now: Set<ObjectView>,
    rest: Seq<ObjectView>,
    page: ObjectView,
    waiting: Seq<ObjectView>,
)
    requires
        added_closed(objects, limits, before, earlier, rest.push(page)) || added_closed(
            objects,
            limits,
            before,
            earlier,
            rest,
        ),
        earlier.insert(page).subset_of(now),
        added_closed(objects, limits, earlier.insert(page), now, Seq::empty()),
        forall|target: ObjectView| #[trigger]
            refers(objects, limits, page, target) ==> now.contains(target) || waiting.contains(
                target,
            ),
        forall|i: int| 0 <= i < rest.len() ==> waiting.contains(#[trigger] rest[i]),
    ensures
        added_closed(objects, limits, before, now, waiting),
{
    let none = Seq::<ObjectView>::empty();
    assert forall|one: ObjectView, target: ObjectView|
        now.contains(one) && !before.contains(one) && #[trigger] refers(
            objects,
            limits,
            one,
            target,
        ) implies now.contains(target) || waiting.contains(target) by {
        assert(!none.contains(target));
        if one != page && earlier.contains(one) && !earlier.contains(target) {
            let all = rest.push(page);
            if rest.contains(target) {
                let i = rest.index_of(target);
                assert(waiting.contains(rest[i]));
            } else {
                assert(all.contains(target));
                let i = all.index_of(target);
                if i < rest.len() {
                    assert(rest[i] == target);
                }
            }
        }
    }
}

/// Closed pages stay closed when more are asked for in a closed way.
pub proof fn lemma_closed_on(
    objects: Objects,
    limits: DecodeLimits,
    before: Set<ObjectView>,
    earlier: Set<ObjectView>,
    now: Set<ObjectView>,
)
    requires
        added_closed(objects, limits, before, earlier, Seq::empty()),
        added_closed(objects, limits, earlier, now, Seq::empty()),
        earlier.subset_of(now),
    ensures
        added_closed(objects, limits, before, now, Seq::empty()),
{
    let none = Seq::<ObjectView>::empty();
    assert forall|one: ObjectView, target: ObjectView|
        now.contains(one) && !before.contains(one) && #[trigger] refers(
            objects,
            limits,
            one,
            target,
        ) implies now.contains(target) || none.contains(target) by {
        assert(!none.contains(target));
    }
}

impl ProofContext {
    /// Begins a proof.
    pub fn new(limits: ClosureLimits, budget: WorkBudget) -> (r: Self)
        ensures
            r@ == (ContextView {
                limits,
                budget,
                work: no_work(),
                objects: Set::empty(),
                blob_lengths: Map::empty(),
            }),
    {
        ProofContext {
            limits,
            budget,
            work: WorkCounters::default(),
            objects: ObjectTable::new(64),
            blob_lengths: OrderedMap::new(),
        }
    }

    /// Bounds of the proof.
    pub fn limits(&self) -> (r: ClosureLimits)
        ensures
            r == self@.limits,
    {
        self.limits
    }

    /// Work spent so far.
    pub fn work(&self) -> (r: WorkCounters)
        ensures
            r == self@.work,
    {
        self.work
    }

    /// Number of distinct objects asked for.
    pub fn object_count(&self) -> (r: u64)
        ensures
            r == self@.objects.len(),
    {
        self.objects.len() as u64
    }

    /// Every object asked for, in no particular order.
    pub fn listed_objects(&self) -> (r: Vec<ObjectId>)
        ensures
            views(r@).to_set() == self@.objects,
            r@.len() == self@.objects.len(),
    {
        self.objects.listed()
    }

    /// Tells whether an object has been asked for.
    pub fn has_object(&self, object: &ObjectId) -> (r: bool)
        ensures
            r == self@.objects.contains(object@),
    {
        self.objects.contains(object)
    }

    /// Reads one object within the bounds of the proof.
    pub fn read_object<S: ObjectStore>(&mut self, store: &S, object: ObjectId, page: bool) -> (r:
        Result<Vec<u8>, ClosureError>)
        ensures
            follows(old(self)@, final(self)@),
            final(self)@.blob_lengths == old(self)@.blob_lengths,
            forall|other: ObjectView| #[trigger]
                final(self)@.objects.contains(other) ==> other == object@
                    || old(self)@.objects.contains(other),
            countable(old(self)@) ==> read_proved(store, old(self)@, object@, page) == (
                match r {
                    Ok(bytes) => Ok(bytes@),
                    Err(error) => Err(error@),
                },
                final(self)@,
            ),
            countable(old(self)@) && r is Ok ==> countable(final(self)@),
            match r {
                Ok(bytes) => (store.contents())(object@) == Some(bytes@)
                    && final(self)@.objects.contains(object@) && (page
                    ==> final(self)@.work.page_reads > old(self)@.work.page_reads),
                Err(error) => resource_failure(error),
            },
    {
        proof {
            reveal(read_proved);
        }
        let ghost before = self@;
        let inserted = self.objects.insert(object);
        let count = self.objects.len() as u64;
        if inserted.is_none() {
            return Err(
                ClosureError::TooManyObjects {
                    observed: count,
                    maximum: self.limits.maximum_objects,
                },
            );
        }
        if count > self.limits.maximum_objects {
            return Err(
                ClosureError::TooManyObjects {
                    observed: count,
                    maximum: self.limits.maximum_objects,
                },
            );
        }
        let reads: u64 = if page {
            1
        } else {
            0
        };
        let prospective = match self.work.checked_add(WorkCounters::of_page_reads(reads)) {
            Ok(sum) => sum,
            Err(error) => {
                return Err(ClosureError::Work(error));
            },
        };
        let remaining = match prospective.remaining(self.budget) {
            Ok(remaining) => remaining,
            Err(error) => {
                return Err(ClosureError::Work(error));
            },
        };
        let request = ReadRequest {
            object,
            maximum_bytes: self.limits.decode.maximum_object_bytes,
            remaining,
        };
        proof {
            store.answers_from_contents(request@);
        }
        match store.read(&request) {
            Err(failure) => match prospective.checked_add(failure.work) {
                Ok(sum) => {
                    self.work = sum;
                    Err(ClosureError::Storage(failure.error))
                },
                Err(error) => {
                    self.work = prospective;
                    Err(ClosureError::Work(error))
                },
            },
            Ok(read) => {
                match prospective.checked_add(read.work) {
                    Ok(sum) => {
                        self.work = sum;
                    },
                    Err(error) => {
                        return Err(ClosureError::Work(error));
                    },
                }
                if let Err(error) = self.work.verify(self.budget) {
                    return Err(ClosureError::Work(error));
                }
                if self.work.object_bytes_read > self.limits.maximum_object_bytes {
                    return Err(
                        ClosureError::ClosureBytesExceeded {
                            observed: self.work.object_bytes_read,
                            maximum: self.limits.maximum_object_bytes,
                        },
                    );
                }
                Ok(read.bytes)
            },
        }
    }

    /// Proves a blob, and returns its length.
    #[verifier::rlimit(80)]
    pub fn prove_blob<S: ObjectStore>(&mut self, store: &S, root: ObjectId) -> (r: Result<
        u64,
        ClosureError,
    >)
        requires
            lengths_true(store.contents(), old(self)@),
        ensures
            follows(old(self)@, final(self)@),
            same_metadata(old(self)@, final(self)@),
            lengths_true(store.contents(), final(self)@),
            root.kind != ObjectKind::Blob ==> r == Err::<u64, ClosureError>(
                ClosureError::WrongObjectKind,
            ) && final(self)@ == old(self)@,
            r is Ok ==> final(self)@.objects.contains(root@) && added_closed(
                store.contents(),
                old(self)@.limits.decode,
                old(self)@.objects,
                final(self)@.objects,
                Seq::empty(),
            ),
            match r {
                Ok(length) => blob_proved(
                    store.contents(),
                    old(self)@.limits.decode,
                    root@,
                    0,
                    length as int,
                ),
                Err(error) => resource_failure(error) || error is WrongObjectKind
                    || error is RoutingAlias || error is RoutingBoundsMismatch
                    || error is BlobLengthMismatch || error is Decode,
            },
            root.kind == ObjectKind::Blob && blob_whole(
                store.contents(),
                old(self)@.limits.decode,
                root@,
            ) ==> (r matches Err(error) ==> resource_failure(error) || error is RoutingAlias),
            countable(old(self)@) ==> blob_walked(store, old(self)@, root@) == (
                length_proved(r),
                final(self)@,
            ),
            countable(old(self)@) && r is Ok ==> countable(final(self)@),
    {
        proof {
            reveal(blob_walked);
            lemma_listed_under(self@.blob_lengths, root);
        }
        let ghost can = countable(self@);
        let ghost first_line = seq![PendingSpan { page: root@, first: 0, end: None }];
        let ghost whole = blob_pages(store, self@, first_line, Set::empty(), None);
        if root.kind != ObjectKind::Blob {
            return Err(ClosureError::WrongObjectKind);
        }
        let ghost objects = store.contents();
        let ghost limits = self.limits.decode;
        let ghost begun = self@;
        let ghost sound = blob_whole(objects, limits, root@);
        let ghost total = choose|length: int| #[trigger]
            blob_proved(objects, limits, root@, 0, length);
        if let Some(length) = self.blob_lengths.get(&root.digest) {
            assert(self@.blob_lengths.dom().contains(root.digest));
            return Ok(length.bytes);
        }
        let mut pending: Vec<PendingPage> = Vec::new();
        pending.push(PendingPage { page: root, first: 0, end: None });
        assert(pages_waiting(pending@)[0] == root@);
        let mut pages = ObjectTable::new(16);
        let mut root_length: Option<u64> = None;
        assert(spans_waiting(pending@) =~= first_line);
        while pending.len() > 0
            invariant
                can == countable(begun),
                can ==> blob_walked(store, begun, root@) == blob_kept(root@, whole),
                can ==> countable(self@) && pages@.finite() && pages@.subset_of(self@.objects)
                    && whole == blob_pages(
                    store,
                    self@,
                    spans_waiting(pending@),
                    pages@,
                    root_length,
                ),
                objects == store.contents(),
                limits == self@.limits.decode,
                begun == old(self)@,
                follows(begun, self@),
                same_metadata(begun, self@),
                forall|i: int|
                    0 <= i < pending@.len() ==> (#[trigger] pending@[i]).page.kind
                        == ObjectKind::Blob,
                self@.blob_lengths == begun.blob_lengths,
                lengths_true(objects, begun),
                root.kind == ObjectKind::Blob,
                match root_length {
                    Some(length) => all_proved(objects, limits, pending@, length as int)
                        ==> blob_proved(objects, limits, root@, 0, length as int),
                    None => pending@.len() == 1 && pending@[0] == (PendingPage {
                        page: root,
                        first: 0,
                        end: None,
                    }),
                },
                root_length is Some ==> forall|i: int|
                    0 <= i < pending@.len() ==> (#[trigger] pending@[i]).end is Some,
                sound == blob_whole(objects, limits, root@),
                sound ==> blob_proved(objects, limits, root@, 0, total) && all_proved(
                    objects,
                    limits,
                    pending@,
                    total,
                ) && (root_length matches Some(length) ==> length == total),
                root_length is None ==> pending@.len() > 0,
                added_closed(
                    objects,
                    limits,
                    begun.objects,
                    self@.objects,
                    pages_waiting(pending@),
                ),
                self@.objects.contains(root@) || pages_waiting(pending@).contains(root@),
            decreases u64::MAX - self@.work.page_reads,
        {
            let ghost waiting = pending@;
            let ghost earlier = self@;
            let next = match pending.pop() {
                Some(next) => next,
                None => {
                    return Err(ClosureError::RoutingBoundsMismatch);
                },
            };
            let ghost rest = pending@;
            assert(waiting =~= rest.push(next));
            assert(waiting[rest.len() as int] == next);
            assert forall|j: int| 0 <= j < rest.len() implies (#[trigger] rest[j]).page.kind
                == ObjectKind::Blob by {
                assert(waiting[j] == rest[j]);
            }
            proof {
                if sound {
                    assert(pending_proved(objects, limits, waiting[rest.len() as int], total));
                    lemma_blob_opens(
                        objects,
                        limits,
                        next.page@,
                        next.first as int,
                        match next.end {
                            Some(end) => end as int,
                            None => total,
                        },
                    );
                    assert forall|j: int| 0 <= j < rest.len() implies pending_proved(
                        objects,
                        limits,
                        #[trigger] rest[j],
                        total,
                    ) by {
                        assert(waiting[j] == rest[j]);
                    }
                }
            }
            let ghost met = pages@;
            let ghost line = spans_waiting(rest);
            let ghost own = span_waiting(next);
            proof {
                assert(spans_waiting(waiting) =~= line.push(own));
                assert(spans_waiting(waiting).drop_last() =~= line);
                if can {
                    vstd::set_lib::lemma_len_subset(met, self@.objects);
                    lemma_walk_step(
                        store,
                        self@,
                        ObjectKind::Blob,
                        span_page(),
                        blob_opener(store),
                        spans_waiting(waiting),
                        met,
                        root_length,
                    );
                }
            }
            match pages.insert(next.page) {
                Some(true) => {},
                _ => {
                    return Err(ClosureError::RoutingAlias);
                },
            }
            let bytes = match self.read_object(store, next.page, true) {
                Ok(bytes) => bytes,
                Err(error) => {
                    return Err(error);
                },
            };
            let ghost opened = self@;
            assert(opened.objects =~= earlier.objects.insert(next.page@));
            let ghost known = root_length;
            let ghost step = blob_opened(store, opened, known, own, bytes@);
            assert(can ==> whole == walked_on(
                store,
                earlier,
                ObjectKind::Blob,
                span_page(),
                blob_opener(store),
                line,
                pages@,
                step,
            ));
            proof {
                reveal(blob_opened);
            }
            let page = match decode_blob_page(bytes.as_slice(), self.limits.decode) {
                Ok(page) => page,
                Err(error) => {
                    return Err(ClosureError::Decode(error));
                },
            };
            let misplaced = page.first_offset != next.first || match next.end {
                Some(end) => page.end_offset != end,
                None => false,
            };
            if misplaced {
                return Err(ClosureError::RoutingBoundsMismatch);
            }
            let ghost view = page@;
            let length = match root_length {
                Some(length) => length,
                None => page.end_offset,
            };
            root_length = Some(length);
            match &page.node {
                BlobNode::Internal(children) => {
                    let mut i: usize = children.len();
                    while i > 0
                        invariant
                            i <= children@.len(),
                            view.spans == views(children@),
                            pending@.len() == rest.len() + children@.len() - i,
                            forall|j: int| 0 <= j < rest.len() ==> pending@[j] == rest[j],
                            forall|j: int|
                                0 <= j < pending@.len() ==> (#[trigger] pending@[j]).page.kind
                                    == ObjectKind::Blob,
                            forall|j: int|
                                0 <= j < view.spans.len() ==> (#[trigger] view.spans[j]).object.kind
                                    == ObjectKind::Blob,
                            forall|j: int|
                                i <= j < children@.len() ==> pending@[rest.len()
                                    + children@.len() - 1 - j] == (PendingPage {
                                    page: (#[trigger] children@[j]).page,
                                    first: children@[j].first_offset,
                                    end: Some(children@[j].end_offset),
                                }),
                            forall|j: int|
                                rest.len() <= j < pending@.len() ==> (
                                #[trigger] pending@[j]).end is Some,
                        decreases i,
                    {
                        i = i - 1;
                        let child = children[i];
                        assert(view.spans[i as int] == child@);
                        pending.push(
                            PendingPage {
                                page: child.page,
                                first: child.first_offset,
                                end: Some(child.end_offset),
                            },
                        );
                    }
                    proof {
                        let below = spans_pending(view.spans);
                        assert(spans_waiting(pending@) =~= line + below) by {
                            assert forall|j: int| 0 <= j < pending@.len() implies spans_waiting(
                                pending@,
                            )[j] == (line + below)[j] by {
                                if j < rest.len() {
                                    assert(pending@[j] == rest[j]);
                                } else {
                                    let k = rest.len() + children@.len() - 1 - j;
                                    assert(view.spans[k] == children@[k]@);
                                    assert(pending@[j].page == children@[k].page);
                                }
                            }
                        }
                        assert(can ==> step == (
                            Ok::<(Seq<PendingSpan>, Option<u64>), ClosureErrorView>(
                                (below, Some(length)),
                            ),
                            self@,
                        ));
                        if sound {
                            assert forall|j: int| 0 <= j < pending@.len() implies pending_proved(
                                objects,
                                limits,
                                #[trigger] pending@[j],
                                total,
                            ) by {
                                if j < rest.len() {
                                    assert(pending@[j] == rest[j]);
                                } else {
                                    let k = rest.len() + children@.len() - 1 - j;
                                    assert(view.spans[k] == children@[k]@);
                                    assert(span_of(view.spans, k) == view.spans[k]);
                                    assert(pending@[j].page == children@[k].page);
                                }
                            }
                        }
                        if all_proved(objects, limits, pending@, length as int) {
                            assert forall|j: int| 0 <= j < view.spans.len() implies blob_proved(
                                objects,
                                limits,
                                (#[trigger] span_of(view.spans, j)).object,
                                view.spans[j].first as int,
                                view.spans[j].end as int,
                            ) by {
                                let at = rest.len() + children@.len() - 1 - j;
                                assert(view.spans[j] == children@[j]@);
                                assert(pending_proved(objects, limits, pending@[at], length as int));
                            }
                            lemma_blob_page_proved(
                                objects,
                                limits,
                                next.page@,
                                next.first as int,
                                view.end as int,
                            );
                            assert(all_proved(objects, limits, waiting, length as int)) by {
                                assert forall|j: int| 0 <= j < waiting.len() implies pending_proved(
                                    objects,
                                    limits,
                                    #[trigger] waiting[j],
                                    length as int,
                                ) by {
                                    if j < rest.len() {
                                        assert(pending@[j] == rest[j]);
                                    }
                                }
                            }
                        }
                    }
                },
                BlobNode::Leaf(chunks) => {
                    let ghost asked = self@.work.page_reads;
                    let mut i: usize = 0;
                    while i < chunks.len()
                        invariant
                            i <= chunks@.len(),
                            can == countable(begun),
                            can ==> blob_walked(store, begun, root@) == blob_kept(root@, whole),
                            can ==> countable(self@) && chunks_walked(store, opened, view.spans, 0)
                                == chunks_walked(store, self@, view.spans, i as int),
                            can ==> (chunks_walked(store, opened, view.spans, 0) matches (
                                Err(error),
                                after,
                            ) ==> whole == (Err::<Option<u64>, ClosureErrorView>(error), after)),
                            objects == store.contents(),
                            view.spans == views(chunks@),
                            forall|j: int|
                                0 <= j < view.spans.len() ==> (#[trigger] view.spans[j]).first
                                    < view.spans[j].end,
                            limits == self@.limits.decode,
                            follows(begun, self@),
                            same_metadata(begun, self@),
                            self@.blob_lengths == begun.blob_lengths,
                            begun == old(self)@,
                            lengths_true(objects, begun),
                            root.kind == ObjectKind::Blob,
                            self@.work.page_reads >= asked,
                            opened.objects.subset_of(self@.objects),
                            forall|other: ObjectView| #[trigger]
                                self@.objects.contains(other) ==> opened.objects.contains(other)
                                    || other.kind == ObjectKind::BlobChunk,
                            forall|j: int|
                                0 <= j < i ==> self@.objects.contains(
                                    (#[trigger] span_of(view.spans, j)).object,
                                ),
                            sound == blob_whole(objects, limits, root@),
                            sound ==> forall|j: int|
                                0 <= j < view.spans.len() ==> objects(
                                    (#[trigger] span_of(view.spans, j)).object,
                                ) is Some && objects(view.spans[j].object)->0.len()
                                    == view.spans[j].end - view.spans[j].first,
                            forall|j: int|
                                0 <= j < view.spans.len() ==> (#[trigger] view.spans[j]).object.kind
                                    == ObjectKind::BlobChunk,
                            forall|j: int|
                                0 <= j < i ==> objects(
                                    (#[trigger] span_of(view.spans, j)).object,
                                ) is Some && objects(view.spans[j].object)->0.len()
                                    == view.spans[j].end - view.spans[j].first,
                        decreases chunks@.len() - i,
                    {
                        let chunk = chunks[i];
                        assert(view.spans[i as int] == chunk@);
                        assert(span_of(view.spans, i as int) == chunk@);
                        let expected: u64 = chunk.end_offset - chunk.first_offset;
                        if chunk.chunk.kind != ObjectKind::BlobChunk {
                            return Err(ClosureError::WrongObjectKind);
                        }
                        let value = match self.read_object(store, chunk.chunk, false) {
                            Ok(value) => value,
                            Err(error) => {
                                return Err(error);
                            },
                        };
                        if value.len() as u64 != expected {
                            return Err(ClosureError::BlobLengthMismatch);
                        }
                        i = i + 1;
                    }
                    proof {
                        assert(can ==> step == (
                            Ok::<(Seq<PendingSpan>, Option<u64>), ClosureErrorView>(
                                (Seq::empty(), Some(length)),
                            ),
                            self@,
                        ));
                        assert(spans_waiting(pending@) =~= line + Seq::<PendingSpan>::empty());
                        lemma_blob_page_proved(
                            objects,
                            limits,
                            next.page@,
                            next.first as int,
                            view.end as int,
                        );
                        if all_proved(objects, limits, pending@, length as int) {
                            assert(all_proved(objects, limits, waiting, length as int));
                        }
                    }
                },
            }
            proof {
                let line = pages_waiting(pending@);
                assert(pages_waiting(waiting) =~= pages_waiting(rest).push(next.page@));
                assert forall|j: int| 0 <= j < rest.len() implies line.contains(
                    #[trigger] pages_waiting(rest)[j],
                ) by {
                    assert(pending@[j] == rest[j]);
                    assert(line[j] == rest[j].page@);
                }
                assert forall|target: ObjectView| #[trigger]
                    refers(objects, limits, next.page@, target) implies self@.objects.contains(
                    target,
                ) || line.contains(target) by {
                    let k = choose|k: int|
                        0 <= k < view.spans.len() && (#[trigger] span_of(view.spans, k)).object
                            == target;
                    if !view.leaf {
                        let at = rest.len() + view.spans.len() - 1 - k;
                        let children = page.node->Internal_0;
                        assert(view.spans[k] == children@[k]@);
                        assert(pending@[at].page == children@[k].page);
                        assert(line[at] == target);
                    }
                }
                lemma_page_closed(
                    objects,
                    limits,
                    begun.objects,
                    earlier.objects,
                    self@.objects,
                    pages_waiting(rest),
                    next.page@,
                    line,
                );
                if !self@.objects.contains(root@) {
                    let k = pages_waiting(waiting).index_of(root@);
                    assert(pages_waiting(rest)[k] == root@);
                }
                assert forall|j: int| 0 <= j < pending@.len() implies (
                #[trigger] pending@[j]).end is Some by {
                    if j < rest.len() {
                        assert(pending@[j] == rest[j]);
                        assert(waiting[j] == rest[j]);
                    }
                }
                if waiting.len() == 1 && next.end is None {
                    if all_proved(objects, limits, pending@, length as int) {
                        assert(pending_proved(objects, limits, waiting[0], length as int));
                    }
                }
            }
        }
        let length = match root_length {
            Some(length) => length,
            None => {
                return Err(ClosureError::RoutingBoundsMismatch);
            },
        };
        proof {
            assert(all_proved(objects, limits, pending@, length as int));
            assert(pages_waiting(pending@) =~= Seq::<ObjectView>::empty());
        }
        let ghost before = self@;
        self.blob_lengths.insert(root.digest, BlobLength { bytes: length });
        proof {
            assert(root.digest.bytes@ == root@.digest);
            Digest::order_bytes_injective(digest_of(root@), root.digest);
            assert(spans_waiting(pending@) =~= Seq::<PendingSpan>::empty());
            lemma_walk_step(
                store,
                before,
                ObjectKind::Blob,
                span_page(),
                blob_opener(store),
                spans_waiting(pending@),
                pages@,
                root_length,
            );
            assert(self@.blob_lengths =~= before.blob_lengths.insert(root.digest, length));
            assert forall|digest: Digest| #[trigger]
                self@.blob_lengths.dom().contains(digest) implies blob_proved(
                objects,
                self@.limits.decode,
                ObjectView { kind: ObjectKind::Blob, digest: digest.bytes@ },
                0,
                self@.blob_lengths[digest] as int,
            ) && self@.objects.contains(
                ObjectView { kind: ObjectKind::Blob, digest: digest.bytes@ },
            ) by {
                if digest != root.digest {
                    assert(begun.blob_lengths.dom().contains(digest));
                } else {
                    assert(root@ == ObjectView { kind: ObjectKind::Blob, digest: digest.bytes@ });
                }
            }
        }
        Ok(length)
    }
}

} // verus!
