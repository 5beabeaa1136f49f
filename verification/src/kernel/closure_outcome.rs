//! What proofs of authenticated graphs come to, step by step, over the answers of a store.

use super::attribute::{attribute_decoded, AttributeChildView, AttributeEntryView, AttributeNameView};
use super::attribute_access;
use super::blob::{blob_decoded, SpanView};
use super::closure::{
    object_read, ClosureErrorView, ClosureLimits, ContextView, ObjectReading,
};
use super::closure_extent::{extent_children_within, extents_within};
use super::closure_tree::{
    entries_within, listed_under, tree_children_within, tree_upper, TreeChildView, TreePageView,
    TreePages,
};
use super::codec::{DecodeErrorView, PageView};
use super::extent::{extent_decoded, ExtentChildView, ExtentKindView, ExtentView};
use super::file_lookup;
use super::file_table::{table_decoded, RecordView, TableChildView};
use super::name::NameView;
use super::namespace::TreeEntryView;
use crate::foundation::Digest;
use crate::storage::{ImmediateObjectStore, ObjectKind, ObjectView};
use vstd::prelude::*;

verus! {

/// How a step of a proof ends: what it gives or why not, and the proof then.
pub type Proved<T> = (Result<T, ClosureErrorView>, ContextView);

/// Whether the objects of a proof can be counted and are no more than admitted.
pub open spec fn countable(context: ContextView) -> bool {
    &&& context.objects.finite()
    &&& context.objects.len() <= context.limits.maximum_objects
    &&& context.limits.maximum_objects + 1 < usize::MAX / 4
}

/// A reason not to read an object, as a failure.
pub open spec fn reading_view(reading: ObjectReading, limits: ClosureLimits) -> ClosureErrorView {
    match reading {
        ObjectReading::TooMany { observed } => ClosureErrorView::TooManyObjects {
            observed: observed as u64,
            maximum: limits.maximum_objects,
        },
        ObjectReading::TooLong { observed } => ClosureErrorView::ClosureBytesExceeded {
            observed,
            maximum: limits.maximum_object_bytes,
        },
        ObjectReading::Storage(cause) => ClosureErrorView::Storage(cause),
        ObjectReading::Work(cause) => ClosureErrorView::Work(cause),
    }
}

/// What comes of reading one object.
#[verifier::opaque]
pub open spec fn read_proved<S: ImmediateObjectStore>(
    store: &S,
    context: ContextView,
    object: ObjectView,
    page: bool,
) -> Proved<Seq<u8>> {
    let (outcome, work) = object_read(store, context, object, page);
    (
        match outcome {
            Ok(bytes) => Ok(bytes),
            Err(reading) => Err(reading_view(reading, context.limits)),
        },
        ContextView { work, objects: context.objects.insert(object), ..context },
    )
}

/// What comes of proving a tree of pages: each page that waits, the last one first, must
/// not have been met, is of a given kind, and is read and opened to the pages below it.
#[verifier::opaque]
pub open spec fn pages_walked<S: ImmediateObjectStore, P, A>(
    store: &S,
    context: ContextView,
    kind: ObjectKind,
    page_of: spec_fn(P) -> ObjectView,
    open: spec_fn(ContextView, A, P, Seq<u8>) -> Proved<(Seq<P>, A)>,
    pending: Seq<P>,
    pages: Set<ObjectView>,
    found: A,
) -> Proved<A>
    decreases u64::MAX - context.work.page_reads,
{
    if pending.len() == 0 {
        (Ok(found), context)
    } else {
        let next = pending.last();
        let page = page_of(next);
        if pages.contains(page) {
            (Err(ClosureErrorView::RoutingAlias), context)
        } else if page.kind != kind {
            (Err(ClosureErrorView::WrongObjectKind), context)
        } else {
            match read_proved(store, context, page, true) {
                (Err(error), read) => (Err(error), read),
                (Ok(bytes), read) => match open(read, found, next, bytes) {
                    (Err(error), after) => (Err(error), after),
                    (Ok((below, found)), after) => if after.work.page_reads
                        > context.work.page_reads {
                        pages_walked(
                            store,
                            after,
                            kind,
                            page_of,
                            open,
                            pending.drop_last() + below,
                            pages.insert(page),
                            found,
                        )
                    } else {
                        (Err(ClosureErrorView::RangeOverflow), after)
                    },
                },
            }
        }
    }
}

/// What comes of a walk once the next page was opened.
pub open spec fn walked_on<S: ImmediateObjectStore, P, A>(
    store: &S,
    before: ContextView,
    kind: ObjectKind,
    page_of: spec_fn(P) -> ObjectView,
    open: spec_fn(ContextView, A, P, Seq<u8>) -> Proved<(Seq<P>, A)>,
    rest: Seq<P>,
    pages: Set<ObjectView>,
    opened: Proved<(Seq<P>, A)>,
) -> Proved<A> {
    match opened {
        (Err(error), after) => (Err(error), after),
        (Ok((below, found)), after) => if after.work.page_reads > before.work.page_reads {
            pages_walked(store, after, kind, page_of, open, rest + below, pages, found)
        } else {
            (Err(ClosureErrorView::RangeOverflow), after)
        },
    }
}

/// A walk without pages that wait is over; another goes on with the last of them.
pub proof fn lemma_walk_step<S: ImmediateObjectStore, P, A>(
    store: &S,
    context: ContextView,
    kind: ObjectKind,
    page_of: spec_fn(P) -> ObjectView,
    open: spec_fn(ContextView, A, P, Seq<u8>) -> Proved<(Seq<P>, A)>,
    pending: Seq<P>,
    pages: Set<ObjectView>,
    found: A,
)
    ensures
        pages_walked(store, context, kind, page_of, open, pending, pages, found) == (if pending.len()
            == 0 {
            (Ok(found), context)
        } else {
            let next = pending.last();
            let page = page_of(next);
            if pages.contains(page) {
                (Err(ClosureErrorView::RoutingAlias), context)
            } else if page.kind != kind {
                (Err(ClosureErrorView::WrongObjectKind), context)
            } else {
                match read_proved(store, context, page, true) {
                    (Err(error), read) => (Err(error), read),
                    (Ok(bytes), read) => walked_on(
                        store,
                        context,
                        kind,
                        page_of,
                        open,
                        pending.drop_last(),
                        pages.insert(page),
                        open(read, found, next, bytes),
                    ),
                }
            }
        }),
{
    reveal(pages_walked);
}

/// One index page of a blob that waits.
pub struct PendingSpan {
    /// The page.
    pub page: ObjectView,
    /// Where its range begins.
    pub first: u64,
    /// Where its range ends, but for the root.
    pub end: Option<u64>,
}

/// The page of what waits.
pub open spec fn span_page() -> spec_fn(PendingSpan) -> ObjectView {
    |next: PendingSpan| next.page
}

/// What comes of reading chunks from an index on.
pub open spec fn chunks_walked<S: ImmediateObjectStore>(
    store: &S,
    context: ContextView,
    spans: Seq<SpanView>,
    i: int,
) -> Proved<()>
    decreases spans.len() - i,
{
    if i >= spans.len() {
        (Ok(()), context)
    } else if spans[i].object.kind != ObjectKind::BlobChunk {
        (Err(ClosureErrorView::WrongObjectKind), context)
    } else {
        match read_proved(store, context, spans[i].object, false) {
            (Err(error), next) => (Err(error), next),
            (Ok(bytes), next) => if bytes.len() != spans[i].end - spans[i].first {
                (Err(ClosureErrorView::BlobLengthMismatch), next)
            } else {
                chunks_walked(store, next, spans, i + 1)
            },
        }
    }
}

/// What comes of opening an index page of a blob: its children wait, the first one last.
#[verifier::opaque]
pub open spec fn blob_opened<S: ImmediateObjectStore>(
    store: &S,
    context: ContextView,
    length: Option<u64>,
    next: PendingSpan,
    bytes: Seq<u8>,
) -> Proved<(Seq<PendingSpan>, Option<u64>)> {
    match blob_decoded(bytes, context.limits.decode) {
        Err(error) => (Err(ClosureErrorView::Decode(error)), context),
        Ok(page) => if page.first != next.first || (next.end matches Some(end) && page.end != end) {
            (Err(ClosureErrorView::RoutingBoundsMismatch), context)
        } else {
            let known = match length {
                Some(length) => Some(length),
                None => Some(page.end),
            };
            if page.leaf {
                match chunks_walked(store, context, page.spans, 0) {
                    (Err(error), after) => (Err(error), after),
                    (Ok(_), after) => (Ok((Seq::empty(), known)), after),
                }
            } else {
                (Ok((spans_pending(page.spans), known)), context)
            }
        },
    }
}

/// The children of an index page as they wait.
pub open spec fn spans_pending(spans: Seq<SpanView>) -> Seq<PendingSpan> {
    Seq::new(
        spans.len(),
        |i: int|
            {
                let span = spans[spans.len() - 1 - i];
                PendingSpan { page: span.object, first: span.first, end: Some(span.end) }
            },
    )
}

/// How index pages of blobs are opened.
pub open spec fn blob_opener<S: ImmediateObjectStore>(store: &S) -> spec_fn(
    ContextView,
    Option<u64>,
    PendingSpan,
    Seq<u8>,
) -> Proved<(Seq<PendingSpan>, Option<u64>)> {
    |context: ContextView, length: Option<u64>, next: PendingSpan, bytes: Seq<u8>|
        blob_opened(store, context, length, next, bytes)
}

/// The digest of an object.
pub open spec fn digest_of(object: ObjectView) -> Digest {
    choose|digest: Digest| digest.bytes@ == object.digest
}

/// What comes of proving a blob. One that has been proved is not read again.
#[verifier::opaque]
pub open spec fn blob_walked<S: ImmediateObjectStore>(
    store: &S,
    context: ContextView,
    root: ObjectView,
) -> Proved<u64> {
    if root.kind != ObjectKind::Blob {
        (Err(ClosureErrorView::WrongObjectKind), context)
    } else {
        match listed_under(context.blob_lengths, root) {
            Some(length) => (Ok(length), context),
            None => blob_kept(
                root,
                blob_pages(
                    store,
                    context,
                    seq![PendingSpan { page: root, first: 0, end: None }],
                    Set::empty(),
                    None,
                ),
            ),
        }
    }
}

/// What comes of a blob whose index pages were walked: its length is kept.
pub open spec fn blob_kept(root: ObjectView, walked: Proved<Option<u64>>) -> Proved<u64> {
    match walked {
        (Err(error), after) => (Err(error), after),
        (Ok(None), after) => (Err(ClosureErrorView::RoutingBoundsMismatch), after),
        (Ok(Some(length)), after) => (
            Ok(length),
            ContextView {
                blob_lengths: after.blob_lengths.insert(digest_of(root), length),
                ..after
            },
        ),
    }
}

/// What comes of proving the index pages of a blob.
pub open spec fn blob_pages<S: ImmediateObjectStore>(
    store: &S,
    context: ContextView,
    pending: Seq<PendingSpan>,
    pages: Set<ObjectView>,
    length: Option<u64>,
) -> Proved<Option<u64>> {
    pages_walked(
        store,
        context,
        ObjectKind::Blob,
        span_page(),
        blob_opener(store),
        pending,
        pages,
        length,
    )
}

/// What comes of proving the content of extents from an index on.
pub open spec fn extents_walked<S: ImmediateObjectStore>(
    store: &S,
    context: ContextView,
    extents: Seq<ExtentView>,
    i: int,
) -> Proved<()>
    decreases extents.len() - i,
{
    if i >= extents.len() {
        (Ok(()), context)
    } else {
        match extents[i].kind {
            ExtentKindView::Content { object, object_offset } => if object_offset
                + extents[i].length > u64::MAX {
                (Err(ClosureErrorView::RangeOverflow), context)
            } else {
                match blob_walked(store, context, object) {
                    (Err(error), next) => (Err(error), next),
                    (Ok(length), next) => if object_offset + extents[i].length > length {
                        (Err(ClosureErrorView::BlobSpanOutsideObject), next)
                    } else {
                        extents_walked(store, next, extents, i + 1)
                    },
                }
            },
            _ => if !context.limits.sparse_files {
                (Err(ClosureErrorView::UnsupportedVolumeSemantics), context)
            } else {
                extents_walked(store, context, extents, i + 1)
            },
        }
    }
}

/// What comes of opening a page of an extent tree.
#[verifier::opaque]
pub open spec fn extent_opened<S: ImmediateObjectStore>(
    store: &S,
    context: ContextView,
    next: ExtentChildView,
    bytes: Seq<u8>,
) -> Proved<(Seq<ExtentChildView>, ())> {
    match extent_decoded(bytes, context.limits.decode) {
        Err(error) => (Err(ClosureErrorView::Decode(error)), context),
        Ok(PageView::Leaf(extents)) => if !extents_within(
            extents,
            next.first_offset,
            next.end_offset,
        ) {
            (Err(ClosureErrorView::RoutingBoundsMismatch), context)
        } else {
            match extents_walked(store, context, extents, 0) {
                (Err(error), after) => (Err(error), after),
                (Ok(_), after) => (Ok((Seq::empty(), ())), after),
            }
        },
        Ok(PageView::Internal(children)) => if !extent_children_within(
            children,
            next.first_offset,
            next.end_offset,
        ) {
            (Err(ClosureErrorView::RoutingBoundsMismatch), context)
        } else {
            (Ok((children.reverse(), ())), context)
        },
    }
}

/// How pages of extent trees are opened.
pub open spec fn extent_opener<S: ImmediateObjectStore>(store: &S) -> spec_fn(
    ContextView,
    (),
    ExtentChildView,
    Seq<u8>,
) -> Proved<(Seq<ExtentChildView>, ())> {
    |context: ContextView, found: (), next: ExtentChildView, bytes: Seq<u8>|
        extent_opened(store, context, next, bytes)
}

/// The page of what waits.
pub open spec fn extent_page() -> spec_fn(ExtentChildView) -> ObjectView {
    |next: ExtentChildView| next.page
}

/// What comes of proving the pages of an extent tree.
pub open spec fn extent_pages<S: ImmediateObjectStore>(
    store: &S,
    context: ContextView,
    pending: Seq<ExtentChildView>,
    pages: Set<ObjectView>,
) -> Proved<()> {
    pages_walked(
        store,
        context,
        ObjectKind::ExtentPage,
        extent_page(),
        extent_opener(store),
        pending,
        pages,
        (),
    )
}

/// What comes of proving an extent tree over a file of a given size.
#[verifier::opaque]
pub open spec fn extent_tree_walked<S: ImmediateObjectStore>(
    store: &S,
    context: ContextView,
    root: ObjectView,
    size: u64,
) -> Proved<()> {
    extent_pages(
        store,
        context,
        seq![ExtentChildView { first_offset: 0, end_offset: size, page: root }],
        Set::empty(),
    )
}

/// One attribute page that waits.
pub struct PendingNames {
    /// The page.
    pub page: ObjectView,
    /// Least name in it.
    pub lower: Option<AttributeNameView>,
    /// Least name behind it.
    pub upper: Option<AttributeNameView>,
}

/// The page of what waits.
pub open spec fn names_page() -> spec_fn(PendingNames) -> ObjectView {
    |next: PendingNames| next.page
}

/// The children of an attribute page as they wait.
pub open spec fn names_pending(
    children: Seq<AttributeChildView>,
    upper: Option<AttributeNameView>,
) -> Seq<PendingNames> {
    Seq::new(
        children.len(),
        |i: int|
            {
                let at = children.len() - 1 - i;
                PendingNames {
                    page: children[at].page,
                    lower: Some(children[at].first_name),
                    upper: attribute_access::upper_of(children, at, upper),
                }
            },
    )
}

/// What comes of proving the values of attributes from an index on.
pub open spec fn values_walked<S: ImmediateObjectStore>(
    store: &S,
    context: ContextView,
    entries: Seq<AttributeEntryView>,
    i: int,
) -> Proved<()>
    decreases entries.len() - i,
{
    if i >= entries.len() {
        (Ok(()), context)
    } else {
        match blob_walked(store, context, entries[i].value) {
            (Err(error), next) => (Err(error), next),
            (Ok(length), next) => if length != entries[i].value_bytes {
                (Err(ClosureErrorView::BlobLengthMismatch), next)
            } else {
                values_walked(store, next, entries, i + 1)
            },
        }
    }
}

/// What comes of opening an attribute page.
#[verifier::opaque]
pub open spec fn names_opened<S: ImmediateObjectStore>(
    store: &S,
    context: ContextView,
    next: PendingNames,
    bytes: Seq<u8>,
) -> Proved<(Seq<PendingNames>, ())> {
    match attribute_decoded(bytes, context.limits.decode) {
        Err(error) => (Err(ClosureErrorView::Decode(error)), context),
        Ok(PageView::Leaf(entries)) => if !attribute_access::entries_within(
            entries,
            next.lower,
            next.upper,
        ) {
            (Err(ClosureErrorView::RoutingBoundsMismatch), context)
        } else {
            match values_walked(store, context, entries, 0) {
                (Err(error), after) => (Err(error), after),
                (Ok(_), after) => (Ok((Seq::empty(), ())), after),
            }
        },
        Ok(PageView::Internal(children)) => if !attribute_access::children_within(
            children,
            next.lower,
            next.upper,
        ) {
            (Err(ClosureErrorView::RoutingBoundsMismatch), context)
        } else {
            (Ok((names_pending(children, next.upper), ())), context)
        },
    }
}

/// How attribute pages are opened.
pub open spec fn names_opener<S: ImmediateObjectStore>(store: &S) -> spec_fn(
    ContextView,
    (),
    PendingNames,
    Seq<u8>,
) -> Proved<(Seq<PendingNames>, ())> {
    |context: ContextView, found: (), next: PendingNames, bytes: Seq<u8>|
        names_opened(store, context, next, bytes)
}

/// What comes of proving the pages of an attribute tree.
pub open spec fn names_pages<S: ImmediateObjectStore>(
    store: &S,
    context: ContextView,
    pending: Seq<PendingNames>,
    pages: Set<ObjectView>,
) -> Proved<()> {
    pages_walked(
        store,
        context,
        ObjectKind::AttributePage,
        names_page(),
        names_opener(store),
        pending,
        pages,
        (),
    )
}

/// What comes of proving an attribute tree.
#[verifier::opaque]
pub open spec fn attributes_walked<S: ImmediateObjectStore>(
    store: &S,
    context: ContextView,
    root: ObjectView,
) -> Proved<()> {
    names_pages(
        store,
        context,
        seq![PendingNames { page: root, lower: None, upper: None }],
        Set::empty(),
    )
}

/// One file-table page that waits.
pub struct PendingIds {
    /// The page.
    pub page: ObjectView,
    /// Least identity in it.
    pub lower: Option<Seq<u8>>,
    /// Least identity behind it.
    pub upper: Option<Seq<u8>>,
}

/// The page of what waits.
pub open spec fn ids_page() -> spec_fn(PendingIds) -> ObjectView {
    |next: PendingIds| next.page
}

/// The children of a file-table page as they wait.
pub open spec fn ids_pending(children: Seq<TableChildView>, upper: Option<Seq<u8>>) -> Seq<
    PendingIds,
> {
    Seq::new(
        children.len(),
        |i: int|
            {
                let at = children.len() - 1 - i;
                PendingIds {
                    page: children[at].page,
                    lower: Some(children[at].first_file_id),
                    upper: file_lookup::upper_of(children, at, upper),
                }
            },
    )
}

/// What comes of opening a file-table page: its records are gathered behind those before.
#[verifier::opaque]
pub open spec fn ids_opened(
    context: ContextView,
    records: Seq<RecordView>,
    next: PendingIds,
    bytes: Seq<u8>,
) -> Proved<(Seq<PendingIds>, Seq<RecordView>)> {
    match table_decoded(bytes, context.limits.decode) {
        Err(error) => (Err(ClosureErrorView::Decode(error)), context),
        Ok(PageView::Leaf(entries)) => if !file_lookup::records_within(
            entries,
            next.lower,
            next.upper,
        ) {
            (Err(ClosureErrorView::RoutingBoundsMismatch), context)
        } else {
            (Ok((Seq::empty(), records + entries)), context)
        },
        Ok(PageView::Internal(children)) => if !file_lookup::children_within(
            children,
            next.lower,
            next.upper,
        ) {
            (Err(ClosureErrorView::RoutingBoundsMismatch), context)
        } else {
            (Ok((ids_pending(children, next.upper), records)), context)
        },
    }
}

/// How file-table pages are opened.
pub open spec fn ids_opener() -> spec_fn(
    ContextView,
    Seq<RecordView>,
    PendingIds,
    Seq<u8>,
) -> Proved<(Seq<PendingIds>, Seq<RecordView>)> {
    |context: ContextView, records: Seq<RecordView>, next: PendingIds, bytes: Seq<u8>|
        ids_opened(context, records, next, bytes)
}

/// What comes of proving the pages of a file table.
pub open spec fn ids_pages<S: ImmediateObjectStore>(
    store: &S,
    context: ContextView,
    pending: Seq<PendingIds>,
    pages: Set<ObjectView>,
    records: Seq<RecordView>,
) -> Proved<Seq<RecordView>> {
    pages_walked(
        store,
        context,
        ObjectKind::FileTablePage,
        ids_page(),
        ids_opener(),
        pending,
        pages,
        records,
    )
}

/// What comes of proving a file table: every record in it, in order.
#[verifier::opaque]
pub open spec fn table_walked<S: ImmediateObjectStore>(
    store: &S,
    context: ContextView,
    root: ObjectView,
) -> Proved<Seq<RecordView>> {
    ids_pages(
        store,
        context,
        seq![PendingIds { page: root, lower: None, upper: None }],
        Set::empty(),
        Seq::empty(),
    )
}

/// One directory page that waits.
pub struct PendingBindings {
    /// The page.
    pub page: ObjectView,
    /// Least name in it.
    pub lower: Option<NameView>,
    /// Least name behind it.
    pub upper: Option<NameView>,
}

/// The page of what waits.
pub open spec fn bindings_page() -> spec_fn(PendingBindings) -> ObjectView {
    |next: PendingBindings| next.page
}

/// The children of a directory page as they wait.
pub open spec fn bindings_pending(children: Seq<TreeChildView>, upper: Option<NameView>) -> Seq<
    PendingBindings,
> {
    Seq::new(
        children.len(),
        |i: int|
            {
                let at = children.len() - 1 - i;
                PendingBindings {
                    page: children[at].page,
                    lower: Some(children[at].first_name),
                    upper: tree_upper(children, at, upper),
                }
            },
    )
}

/// What comes of opening a directory page, whose decoded form is given by its digest.
#[verifier::opaque]
pub open spec fn bindings_opened(
    trees: TreePages,
    context: ContextView,
    entries: Seq<TreeEntryView>,
    next: PendingBindings,
) -> Proved<(Seq<PendingBindings>, Seq<TreeEntryView>)> {
    match listed_under(trees, next.page) {
        None => (
            Err(ClosureErrorView::Decode(DecodeErrorView::Invariant("directory page"@))),
            context,
        ),
        Some(TreePageView::Leaf(own)) => if !entries_within(own, next.lower, next.upper) {
            (Err(ClosureErrorView::RoutingBoundsMismatch), context)
        } else {
            (Ok((Seq::empty(), entries + own)), context)
        },
        Some(TreePageView::Internal(children)) => if !tree_children_within(
            children,
            next.lower,
            next.upper,
        ) {
            (Err(ClosureErrorView::RoutingBoundsMismatch), context)
        } else {
            (Ok((bindings_pending(children, next.upper), entries)), context)
        },
    }
}

/// How directory pages are opened.
pub open spec fn bindings_opener(trees: TreePages) -> spec_fn(
    ContextView,
    Seq<TreeEntryView>,
    PendingBindings,
    Seq<u8>,
) -> Proved<(Seq<PendingBindings>, Seq<TreeEntryView>)> {
    |context: ContextView, entries: Seq<TreeEntryView>, next: PendingBindings, bytes: Seq<u8>|
        bindings_opened(trees, context, entries, next)
}

/// What comes of proving the pages of a directory tree.
pub open spec fn bindings_pages<S: ImmediateObjectStore>(
    store: &S,
    context: ContextView,
    trees: TreePages,
    pending: Seq<PendingBindings>,
    pages: Set<ObjectView>,
    entries: Seq<TreeEntryView>,
) -> Proved<Seq<TreeEntryView>> {
    pages_walked(
        store,
        context,
        ObjectKind::TreePage,
        bindings_page(),
        bindings_opener(trees),
        pending,
        pages,
        entries,
    )
}

/// What comes of proving a directory tree: its bindings in order.
#[verifier::opaque]
pub open spec fn tree_walked<S: ImmediateObjectStore>(
    store: &S,
    context: ContextView,
    trees: TreePages,
    root: ObjectView,
) -> Proved<Seq<TreeEntryView>> {
    bindings_pages(
        store,
        context,
        trees,
        seq![PendingBindings { page: root, lower: None, upper: None }],
        Set::empty(),
        Seq::empty(),
    )
}

/// The outcome of a step, with its error taken by its view.
pub open spec fn unit_proved(r: Result<(), super::closure::ClosureError>) -> Result<
    (),
    ClosureErrorView,
> {
    match r {
        Ok(_) => Ok(()),
        Err(error) => Err(error@),
    }
}

} // verus!
