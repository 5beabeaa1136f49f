//! What a proof of an authenticated graph asks for is reached from where it starts.

use super::attribute::{attribute_decoded, AttributeEntryView};
use super::blob::{blob_decoded, SpanView};
use super::blob_read::span_of;
use super::closure::{added_closed, holds_content, refers, ClosureLimits, ContextView};
use super::closure_outcome::{
    attributes_walked, bindings_opened, bindings_opener, bindings_page, bindings_pending,
    blob_opened, blob_opener, blob_walked, chunks_walked, extent_opened, extent_opener,
    extent_page, extent_tree_walked, extents_walked, ids_opened, ids_opener, ids_page,
    ids_pending, names_opened, names_opener, names_page, names_pending, pages_walked, read_proved,
    span_page, spans_pending, table_walked, tree_walked, values_walked, PendingBindings,
    PendingIds, PendingNames, PendingSpan, Proved,
};
use super::closure_tree::{
    listed_under, tree_child_of, tree_refers, trees_closed, TreePageView, TreePages,
};
use super::codec::{DecodeLimits, PageView};
use super::extent::{extent_decoded, ExtentChildView, ExtentKindView, ExtentView};
use super::file_table::{table_decoded, RecordView};
use super::namespace::TreeEntryView;
use crate::performance::{left_over, no_work, total, WorkCounters};
use crate::storage::{ObjectKind, ObjectStore, ObjectView, Objects, RequestView};
use vstd::prelude::*;

verus! {

/// Whether a proof under given limits has asked only for objects of a set.
pub open spec fn confined(
    context: ContextView,
    limits: ClosureLimits,
    among: Set<ObjectView>,
) -> bool {
    context.limits == limits && context.objects.subset_of(among)
}

/// Whether opening the pages of a kind, where they are of a set that holds whatever they
/// refer to, asks only for objects of the set and gives only pages of it.
pub open spec fn opens_among<P, A>(
    objects: Objects,
    limits: ClosureLimits,
    among: Set<ObjectView>,
    kind: ObjectKind,
    page_of: spec_fn(P) -> ObjectView,
    open: spec_fn(ContextView, A, P, Seq<u8>) -> Proved<(Seq<P>, A)>,
) -> bool {
    forall|context: ContextView, found: A, next: P, bytes: Seq<u8>|
        confined(context, limits, among) && among.contains(page_of(next)) && page_of(next).kind
            == kind && objects(page_of(next)) == Some(bytes) ==> opened_among(
            #[trigger] open(context, found, next, bytes),
            limits,
            among,
            page_of,
        )
}

/// Whether what opening a page came to keeps to a set.
pub open spec fn opened_among<P, A>(
    opened: Proved<(Seq<P>, A)>,
    limits: ClosureLimits,
    among: Set<ObjectView>,
    page_of: spec_fn(P) -> ObjectView,
) -> bool {
    &&& confined(opened.1, limits, among)
    &&& opened.0 matches Ok((below, _)) ==> all_among(below, among, page_of)
}

/// Whether all pages that wait are of a set.
pub open spec fn all_among<P>(
    pending: Seq<P>,
    among: Set<ObjectView>,
    page_of: spec_fn(P) -> ObjectView,
) -> bool {
    forall|i: int| 0 <= i < pending.len() ==> among.contains(page_of(#[trigger] pending[i]))
}

/// Whether a set of objects holds whatever its pages refer to.
pub open spec fn holds_references(
    objects: Objects,
    limits: DecodeLimits,
    among: Set<ObjectView>,
) -> bool {
    added_closed(objects, limits, Set::empty(), among, Seq::empty())
}

proof fn lemma_held(
    objects: Objects,
    limits: DecodeLimits,
    among: Set<ObjectView>,
    page: ObjectView,
    target: ObjectView,
)
    requires
        holds_references(objects, limits, among),
        among.contains(page),
        refers(objects, limits, page, target),
    ensures
        among.contains(target),
{
    assert(!Seq::<ObjectView>::empty().contains(target));
    assert(!Set::<ObjectView>::empty().contains(page));
}

/// Reading an object of a set keeps to the set, and gives what the store holds.
pub proof fn lemma_read_among<S: ObjectStore>(
    store: &S,
    context: ContextView,
    object: ObjectView,
    page: bool,
    among: Set<ObjectView>,
)
    requires
        confined(context, context.limits, among),
        among.contains(object),
    ensures
        confined(read_proved(store, context, object, page).1, context.limits, among),
        read_proved(store, context, object, page).0 matches Ok(bytes) ==> (store.contents())(object)
            == Some(bytes),
{
    reveal(read_proved);
    let semantic = WorkCounters {
        page_reads: if page {
            1
        } else {
            0
        },
        ..no_work()
    };
    if let Ok(prospective) = total(context.work, semantic) {
        store.answers_from_contents(
            RequestView {
                object,
                maximum_bytes: context.limits.decode.maximum_object_bytes,
                remaining: left_over(prospective, context.budget),
            },
        );
    }
}

/// A walk over pages of a set keeps to the set.
proof fn lemma_walk_among<S: ObjectStore, P, A>(
    store: &S,
    context: ContextView,
    kind: ObjectKind,
    page_of: spec_fn(P) -> ObjectView,
    open: spec_fn(ContextView, A, P, Seq<u8>) -> Proved<(Seq<P>, A)>,
    pending: Seq<P>,
    pages: Set<ObjectView>,
    found: A,
    among: Set<ObjectView>,
)
    requires
        confined(context, context.limits, among),
        opens_among(store.contents(), context.limits, among, kind, page_of, open),
        all_among(pending, among, page_of),
    ensures
        confined(
            pages_walked(store, context, kind, page_of, open, pending, pages, found).1,
            context.limits,
            among,
        ),
    decreases u64::MAX - context.work.page_reads,
{
    reveal(pages_walked);
    if pending.len() > 0 {
        let next = pending.last();
        let page = page_of(next);
        assert(next == pending[pending.len() - 1]);
        if !pages.contains(page) && page.kind == kind {
            lemma_read_among(store, context, page, true, among);
            if let (Ok(bytes), read) = read_proved(store, context, page, true) {
                let opened = open(read, found, next, bytes);
                assert(opened_among(opened, context.limits, among, page_of));
                if let (Ok((below, more)), after) = opened {
                    if after.work.page_reads > context.work.page_reads {
                        let rest = pending.drop_last() + below;
                        assert forall|i: int| 0 <= i < rest.len() implies among.contains(
                            page_of(#[trigger] rest[i]),
                        ) by {
                            if i < pending.len() - 1 {
                                assert(rest[i] == pending[i]);
                            } else {
                                assert(rest[i] == below[i - (pending.len() - 1)]);
                            }
                        }
                        lemma_walk_among(
                            store,
                            after,
                            kind,
                            page_of,
                            open,
                            rest,
                            pages.insert(page),
                            more,
                            among,
                        );
                    }
                }
            }
        }
    }
}

proof fn lemma_chunks_among<S: ObjectStore>(
    store: &S,
    context: ContextView,
    spans: Seq<SpanView>,
    i: int,
    among: Set<ObjectView>,
)
    requires
        confined(context, context.limits, among),
        forall|j: int| 0 <= j < spans.len() ==> among.contains((#[trigger] spans[j]).object),
        0 <= i,
    ensures
        confined(chunks_walked(store, context, spans, i).1, context.limits, among),
    decreases spans.len() - i,
{
    if i < spans.len() {
        if spans[i].object.kind == ObjectKind::BlobChunk {
            lemma_read_among(store, context, spans[i].object, false, among);
            let (outcome, next) = read_proved(store, context, spans[i].object, false);
            lemma_chunks_among(store, next, spans, i + 1, among);
        }
    }
}

/// Proving a blob of a set that holds whatever its pages refer to keeps to the set.
pub proof fn lemma_blob_among<S: ObjectStore>(
    store: &S,
    context: ContextView,
    root: ObjectView,
    among: Set<ObjectView>,
)
    requires
        confined(context, context.limits, among),
        holds_references(store.contents(), context.limits.decode, among),
        among.contains(root),
    ensures
        confined(blob_walked(store, context, root).1, context.limits, among),
{
    reveal(blob_walked);
    let objects = store.contents();
    let limits = context.limits;
    assert forall|
        context: ContextView,
        found: Option<u64>,
        next: PendingSpan,
        bytes: Seq<u8>,
    |
        confined(context, limits, among) && among.contains(span_page()(next)) && span_page()(
            next,
        ).kind == ObjectKind::Blob && objects(span_page()(next)) == Some(
            bytes,
        ) implies opened_among(
        #[trigger] blob_opener(store)(context, found, next, bytes),
        limits,
        among,
        span_page(),
    ) by {
        reveal(blob_opened);
        if let Ok(page) = blob_decoded(bytes, limits.decode) {
            assert forall|j: int| 0 <= j < page.spans.len() implies among.contains(
                (#[trigger] page.spans[j]).object,
            ) by {
                assert(span_of(page.spans, j).object == page.spans[j].object);
                lemma_held(objects, limits.decode, among, next.page, page.spans[j].object);
            }
            lemma_chunks_among(store, context, page.spans, 0, among);
            let below = spans_pending(page.spans);
            assert forall|j: int| 0 <= j < below.len() implies among.contains(
                span_page()(#[trigger] below[j]),
            ) by {
                let at = page.spans.len() - 1 - j;
                assert(below[j].page == page.spans[at].object);
            }
        }
    }
    lemma_walk_among(
        store,
        context,
        ObjectKind::Blob,
        span_page(),
        blob_opener(store),
        seq![PendingSpan { page: root, first: 0, end: None }],
        Set::empty(),
        None,
        among,
    );
}

proof fn lemma_extents_among<S: ObjectStore>(
    store: &S,
    context: ContextView,
    extents: Seq<ExtentView>,
    i: int,
    among: Set<ObjectView>,
)
    requires
        confined(context, context.limits, among),
        holds_references(store.contents(), context.limits.decode, among),
        forall|j: int|
            0 <= j < extents.len() ==> ((
            #[trigger] extents[j]).kind matches ExtentKindView::Content { object, .. }
                ==> among.contains(object)),
        0 <= i,
    ensures
        confined(extents_walked(store, context, extents, i).1, context.limits, among),
    decreases extents.len() - i,
{
    if i < extents.len() {
        if let ExtentKindView::Content { object, .. } = extents[i].kind {
            lemma_blob_among(store, context, object, among);
            let (outcome, next) = blob_walked(store, context, object);
            lemma_extents_among(store, next, extents, i + 1, among);
        } else {
            lemma_extents_among(store, context, extents, i + 1, among);
        }
    }
}

/// Proving an extent tree of such a set keeps to the set.
pub proof fn lemma_extent_tree_among<S: ObjectStore>(
    store: &S,
    context: ContextView,
    root: ObjectView,
    size: u64,
    among: Set<ObjectView>,
)
    requires
        confined(context, context.limits, among),
        holds_references(store.contents(), context.limits.decode, among),
        among.contains(root),
    ensures
        confined(extent_tree_walked(store, context, root, size).1, context.limits, among),
{
    reveal(extent_tree_walked);
    let objects = store.contents();
    let limits = context.limits;
    assert forall|context: ContextView, found: (), next: ExtentChildView, bytes: Seq<u8>|
        confined(context, limits, among) && among.contains(extent_page()(next)) && extent_page()(
            next,
        ).kind == ObjectKind::ExtentPage && objects(extent_page()(next)) == Some(
            bytes,
        ) implies opened_among(
        #[trigger] extent_opener(store)(context, found, next, bytes),
        limits,
        among,
        extent_page(),
    ) by {
        reveal(extent_opened);
        match extent_decoded(bytes, limits.decode) {
            Err(_) => {},
            Ok(PageView::Leaf(extents)) => {
                assert forall|j: int| 0 <= j < extents.len() implies ((
                #[trigger] extents[j]).kind matches ExtentKindView::Content { object, .. }
                    ==> among.contains(object)) by {
                    if let ExtentKindView::Content { object, .. } = extents[j].kind {
                        assert(holds_content(extents[j], object));
                        lemma_held(objects, limits.decode, among, next.page, object);
                    }
                }
                lemma_extents_among(store, context, extents, 0, among);
            },
            Ok(PageView::Internal(children)) => {
                let below = children.reverse();
                assert forall|j: int| 0 <= j < below.len() implies among.contains(
                    extent_page()(#[trigger] below[j]),
                ) by {
                    let at = children.len() - 1 - j;
                    assert(below[j] == children[at]);
                    lemma_held(objects, limits.decode, among, next.page, children[at].page);
                }
            },
        }
    }
    lemma_walk_among(
        store,
        context,
        ObjectKind::ExtentPage,
        extent_page(),
        extent_opener(store),
        seq![ExtentChildView { first_offset: 0, end_offset: size, page: root }],
        Set::empty(),
        (),
        among,
    );
}

proof fn lemma_values_among<S: ObjectStore>(
    store: &S,
    context: ContextView,
    entries: Seq<AttributeEntryView>,
    i: int,
    among: Set<ObjectView>,
)
    requires
        confined(context, context.limits, among),
        holds_references(store.contents(), context.limits.decode, among),
        forall|j: int| 0 <= j < entries.len() ==> among.contains((#[trigger] entries[j]).value),
        0 <= i,
    ensures
        confined(values_walked(store, context, entries, i).1, context.limits, among),
    decreases entries.len() - i,
{
    if i < entries.len() {
        lemma_blob_among(store, context, entries[i].value, among);
        let (outcome, next) = blob_walked(store, context, entries[i].value);
        lemma_values_among(store, next, entries, i + 1, among);
    }
}

/// Proving an attribute tree of such a set keeps to the set.
pub proof fn lemma_attributes_among<S: ObjectStore>(
    store: &S,
    context: ContextView,
    root: ObjectView,
    among: Set<ObjectView>,
)
    requires
        confined(context, context.limits, among),
        holds_references(store.contents(), context.limits.decode, among),
        among.contains(root),
    ensures
        confined(attributes_walked(store, context, root).1, context.limits, among),
{
    reveal(attributes_walked);
    let objects = store.contents();
    let limits = context.limits;
    assert forall|context: ContextView, found: (), next: PendingNames, bytes: Seq<u8>|
        confined(context, limits, among) && among.contains(names_page()(next)) && names_page()(
            next,
        ).kind == ObjectKind::AttributePage && objects(names_page()(next)) == Some(
            bytes,
        ) implies opened_among(
        #[trigger] names_opener(store)(context, found, next, bytes),
        limits,
        among,
        names_page(),
    ) by {
        reveal(names_opened);
        match attribute_decoded(bytes, limits.decode) {
            Err(_) => {},
            Ok(PageView::Leaf(entries)) => {
                assert forall|j: int| 0 <= j < entries.len() implies among.contains(
                    (#[trigger] entries[j]).value,
                ) by {
                    lemma_held(objects, limits.decode, among, next.page, entries[j].value);
                }
                lemma_values_among(store, context, entries, 0, among);
            },
            Ok(PageView::Internal(children)) => {
                let below = names_pending(children, next.upper);
                assert forall|j: int| 0 <= j < below.len() implies among.contains(
                    names_page()(#[trigger] below[j]),
                ) by {
                    let at = children.len() - 1 - j;
                    assert(below[j].page == children[at].page);
                    lemma_held(objects, limits.decode, among, next.page, children[at].page);
                }
            },
        }
    }
    lemma_walk_among(
        store,
        context,
        ObjectKind::AttributePage,
        names_page(),
        names_opener(store),
        seq![PendingNames { page: root, lower: None, upper: None }],
        Set::empty(),
        (),
        among,
    );
}

/// Proving a file table of such a set keeps to the set.
pub proof fn lemma_table_among<S: ObjectStore>(
    store: &S,
    context: ContextView,
    root: ObjectView,
    among: Set<ObjectView>,
)
    requires
        confined(context, context.limits, among),
        holds_references(store.contents(), context.limits.decode, among),
        among.contains(root),
    ensures
        confined(table_walked(store, context, root).1, context.limits, among),
{
    reveal(table_walked);
    let objects = store.contents();
    let limits = context.limits;
    assert forall|
        context: ContextView,
        found: Seq<RecordView>,
        next: PendingIds,
        bytes: Seq<u8>,
    |
        confined(context, limits, among) && among.contains(ids_page()(next)) && ids_page()(
            next,
        ).kind == ObjectKind::FileTablePage && objects(ids_page()(next)) == Some(
            bytes,
        ) implies opened_among(
        #[trigger] ids_opener()(context, found, next, bytes),
        limits,
        among,
        ids_page(),
    ) by {
        reveal(ids_opened);
        if let Ok(PageView::Internal(children)) = table_decoded(bytes, limits.decode) {
            let below = ids_pending(children, next.upper);
            assert forall|j: int| 0 <= j < below.len() implies among.contains(
                ids_page()(#[trigger] below[j]),
            ) by {
                let at = children.len() - 1 - j;
                assert(below[j].page == children[at].page);
                lemma_held(objects, limits.decode, among, next.page, children[at].page);
            }
        }
    }
    lemma_walk_among(
        store,
        context,
        ObjectKind::FileTablePage,
        ids_page(),
        ids_opener(),
        seq![PendingIds { page: root, lower: None, upper: None }],
        Set::empty(),
        Seq::empty(),
        among,
    );
}

/// Proving a directory tree of a set that holds whatever its directory pages refer to
/// keeps to the set.
pub proof fn lemma_tree_among<S: ObjectStore>(
    store: &S,
    context: ContextView,
    trees: TreePages,
    root: ObjectView,
    among: Set<ObjectView>,
)
    requires
        confined(context, context.limits, among),
        trees_closed(trees, Set::empty(), among, Seq::empty()),
        among.contains(root),
    ensures
        confined(tree_walked(store, context, trees, root).1, context.limits, among),
{
    reveal(tree_walked);
    let objects = store.contents();
    let limits = context.limits;
    assert forall|
        context: ContextView,
        found: Seq<TreeEntryView>,
        next: PendingBindings,
        bytes: Seq<u8>,
    |
        confined(context, limits, among) && among.contains(bindings_page()(next))
            && bindings_page()(next).kind == ObjectKind::TreePage && objects(bindings_page()(next))
            == Some(bytes) implies opened_among(
        #[trigger] bindings_opener(trees)(context, found, next, bytes),
        limits,
        among,
        bindings_page(),
    ) by {
        reveal(bindings_opened);
        if let Some(TreePageView::Internal(children)) = listed_under(trees, next.page) {
            let below = bindings_pending(children, next.upper);
            assert forall|j: int| 0 <= j < below.len() implies among.contains(
                bindings_page()(#[trigger] below[j]),
            ) by {
                let at = children.len() - 1 - j;
                assert(below[j].page == children[at].page);
                assert(tree_child_of(children, at).page == children[at].page);
                assert(tree_refers(trees, next.page, children[at].page));
                assert(!Seq::<ObjectView>::empty().contains(children[at].page));
            }
        }
    }
    lemma_walk_among(
        store,
        context,
        ObjectKind::TreePage,
        bindings_page(),
        bindings_opener(trees),
        seq![PendingBindings { page: root, lower: None, upper: None }],
        Set::empty(),
        Seq::empty(),
        among,
    );
}

} // verus!
