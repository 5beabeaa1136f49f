//! What path-copying rewrites of extent trees come to, step by step, over the answers of
//! a store and its replies to puts.

use super::allocation::claimed;
use super::attribute_access::backend_merged;
use super::closure_extent::{extent_children_within, extents_within};
use super::codec::{page_shape, DecodeErrorView, DecodeLimits, DecodedPageKind, PageView};
use super::extent::{
    extent_decoded, extent_encoded, extent_end_of, extent_format, Extent, ExtentChild,
    ExtentChildView, ExtentPageView, ExtentView,
};
use super::extent_mutation::{
    allocation_cause, children_fit_page, extents_fit_page, MutationErrorView,
    EXTENT_CHILD_LOGICAL_BYTES, EXTENT_LOGICAL_BYTES,
};
use super::extent_patch::{extents_rewritten, PatchView};
use super::visited::{visited_added, VisitedView};
use crate::performance::{
    charged, left_over, no_work, total, within, WorkBudget, WorkCounters, WorkError,
};
use crate::storage::{
    object_named, Answers, ObjectFailure, ObjectKind, ObjectReadRetention, ObjectView, Put,
    ReadView, RequestView, OBJECT_DIGEST_ENVELOPE_BYTES,
};
use vstd::prelude::*;

verus! {

/// What a rewrite goes by.
pub struct RewriteTerms {
    /// Bounds on pages.
    pub limits: DecodeLimits,
    /// Work that may be spent.
    pub budget: WorkBudget,
    /// Disjoint patches to lay over the tree.
    pub patches: Seq<PatchView>,
    /// Every put, with the replies.
    pub puts: Seq<Put>,
}

/// Abstract value of a rewrite and the store that it works on.
#[verifier::ext_equal]
pub struct RewriteView {
    /// Work spent.
    pub work: WorkCounters,
    /// Logical bytes held.
    pub live: u64,
    /// Pages visited.
    pub visited: VisitedView,
    /// Levels seen.
    pub seen: u16,
    /// Puts made, of all that there are.
    pub at: nat,
    /// What the store answers now.
    pub answers: Answers,
    /// Whether every put was handed what the rewrite makes.
    pub kept: bool,
}

/// How a step ends: what it gives or why not, and the rewrite then.
pub type Rewritten<T> = (Result<T, MutationErrorView>, RewriteView);

/// Examined items, counted where the budget admits them.
#[verifier::opaque]
pub open spec fn items_counted(terms: RewriteTerms, state: RewriteView, count: u64) -> Rewritten<
    (),
> {
    match charged(state.work, WorkCounters { items_examined: count, ..no_work() }, terms.budget) {
        Ok(work) => (Ok(()), RewriteView { work, ..state }),
        Err(error) => (Err(MutationErrorView::Work(error)), state),
    }
}

/// Examined items, counted even where they exceed the budget.
#[verifier::opaque]
pub open spec fn items_spent(terms: RewriteTerms, state: RewriteView, count: u64) -> Rewritten<()> {
    match total(state.work, WorkCounters { items_examined: count, ..no_work() }) {
        Err(error) => (Err(MutationErrorView::Work(error)), state),
        Ok(work) => (
            if within(work, terms.budget) {
                Ok(())
            } else {
                Err(MutationErrorView::Work(WorkError::Exceeded))
            },
            RewriteView { work, ..state },
        ),
    }
}

/// Bytes claimed, or why not.
pub open spec fn bytes_claimed(
    terms: RewriteTerms,
    state: RewriteView,
    bytes: u64,
    operations: u64,
) -> Rewritten<()> {
    match claimed(state.live, bytes, operations, state.work, terms.budget) {
        Err(error) => (Err(allocation_cause(error)), state),
        Ok(work) => (Ok(()), RewriteView { work, live: (state.live + bytes) as u64, ..state }),
    }
}

/// The request for a page, and the work behind it.
#[verifier::opaque]
pub open spec fn page_asked(terms: RewriteTerms, state: RewriteView, page: ObjectView) -> Result<
    (RequestView, WorkCounters),
    WorkError,
> {
    match total(state.work, WorkCounters { page_reads: 1, ..no_work() }) {
        Err(error) => Err(error),
        Ok(prospective) => if !within(prospective, terms.budget) {
            Err(WorkError::Exceeded)
        } else if state.live > terms.budget.peak_allocation_bytes {
            Err(WorkError::Overflow)
        } else {
            Ok(
                (
                    RequestView {
                        object: page,
                        maximum_bytes: terms.limits.page_object_bytes(),
                        remaining: WorkBudget {
                            peak_allocation_bytes: (terms.budget.peak_allocation_bytes
                                - state.live) as u64,
                            ..left_over(prospective, terms.budget)
                        },
                    },
                    prospective,
                ),
            )
        },
    }
}

/// Bytes that a read holds on to.
pub open spec fn retained(read: ReadView) -> u64 {
    match read.retention {
        ObjectReadRetention::Shared => 0,
        ObjectReadRetention::Owned { logical_bytes } => logical_bytes,
    }
}

/// What comes of the reply to the request for a page: the page and the logical bytes that
/// stay claimed for it.
#[verifier::opaque]
pub open spec fn page_taken(
    terms: RewriteTerms,
    state: RewriteView,
    prospective: WorkCounters,
    reply: Result<ReadView, ObjectFailure>,
) -> Rewritten<(ExtentPageView, u64)> {
    match reply {
        Err(failure) => match backend_merged(prospective, failure.work, state.live) {
            Err(error) => (Err(MutationErrorView::Work(error)), state),
            Ok(work) => (
                Err(MutationErrorView::Storage(failure.error)),
                RewriteView { work, ..state },
            ),
        },
        Ok(read) => match backend_merged(prospective, read.work, state.live) {
            Err(error) => (Err(MutationErrorView::Work(error)), state),
            Ok(work) => {
                let merged = RewriteView { work, ..state };
                if !within(work, terms.budget) {
                    (Err(MutationErrorView::Work(WorkError::Exceeded)), merged)
                } else {
                    match bytes_claimed(terms, merged, retained(read), 0) {
                        (Err(error), next) => (Err(error), next),
                        (Ok(_), next) => page_opened(terms, next, read),
                    }
                }
            },
        },
    }
}

/// What comes of the bytes of a page that was read.
#[verifier::opaque]
pub open spec fn page_opened(terms: RewriteTerms, state: RewriteView, read: ReadView) -> Rewritten<
    (ExtentPageView, u64),
> {
    match page_shape::<Extent, ExtentChild>(read.bytes, extent_format(), terms.limits) {
        Err(error) => (Err(MutationErrorView::Decode(error)), state),
        Ok((kind, items, _)) => match items_counted(terms, state, items as u64) {
            (Err(error), next) => (Err(error), next),
            (Ok(_), next) => {
                let held = (items * (match kind {
                    DecodedPageKind::Leaf => EXTENT_LOGICAL_BYTES,
                    DecodedPageKind::Internal => EXTENT_CHILD_LOGICAL_BYTES,
                })) as u64;
                match bytes_claimed(
                    terms,
                    next,
                    held,
                    if held != 0 {
                        1
                    } else {
                        0
                    },
                ) {
                    (Err(error), next) => (Err(error), next),
                    (Ok(_), next) => match extent_decoded(read.bytes, terms.limits) {
                        Err(error) => (Err(MutationErrorView::Decode(error)), next),
                        Ok(page) => (
                            Ok((page, held)),
                            RewriteView { live: (next.live - retained(read)) as u64, ..next },
                        ),
                    },
                }
            },
        },
    }
}

/// What comes of reading a page.
#[verifier::opaque]
pub open spec fn page_read(terms: RewriteTerms, state: RewriteView, page: ObjectView) -> Rewritten<
    (ExtentPageView, u64),
> {
    match page_asked(terms, state, page) {
        Err(error) => (Err(MutationErrorView::Work(error)), state),
        Ok((request, prospective)) => page_taken(
            terms,
            state,
            prospective,
            (state.answers)(request),
        ),
    }
}

/// The bytes of a page that is to be put, and the work behind the put.
#[verifier::opaque]
pub open spec fn page_encoded(terms: RewriteTerms, state: RewriteView, page: ExtentPageView) -> Rewritten<
    (Seq<u8>, WorkCounters),
> {
    match extent_encoded(page, terms.limits.maximum_page_items) {
        Err(error) => (Err(MutationErrorView::Decode(error)), state),
        Ok(bytes) => if bytes.len() > terms.limits.page_object_bytes() {
            (
                Err(
                    MutationErrorView::Decode(
                        DecodeErrorView::ObjectTooLarge {
                            observed: bytes.len() as u64,
                            maximum: terms.limits.page_object_bytes(),
                        },
                    ),
                ),
                state,
            )
        } else {
            let size = bytes.len() as u64;
            let encoding = WorkCounters { bytes_encoded: size, ..no_work() };
            match charged(state.work, encoding, terms.budget) {
                Err(error) => (Err(MutationErrorView::Work(error)), state),
                Ok(_) => match bytes_claimed(terms, state, size, 1) {
                    (Err(error), next) => (Err(error), next),
                    (Ok(_), next) => page_hashed(terms, next, bytes),
                },
            }
        },
    }
}

/// Work of encoding and hashing a page that memory was claimed for.
#[verifier::opaque]
pub open spec fn page_hashed(terms: RewriteTerms, state: RewriteView, bytes: Seq<u8>) -> Rewritten<
    (Seq<u8>, WorkCounters),
> {
    let size = bytes.len() as u64;
    match total(state.work, WorkCounters { bytes_encoded: size, ..no_work() }) {
        Err(error) => (Err(MutationErrorView::Work(error)), state),
        Ok(work) => {
            let next = RewriteView { work, ..state };
            if !within(work, terms.budget) {
                (Err(MutationErrorView::Work(WorkError::Exceeded)), next)
            } else {
                let hashing = WorkCounters {
                    bytes_hashed: (size + OBJECT_DIGEST_ENVELOPE_BYTES) as u64,
                    ..no_work()
                };
                match charged(work, hashing, terms.budget) {
                    Err(error) => (Err(MutationErrorView::Work(error)), next),
                    Ok(work) => {
                        let next = RewriteView { work, ..state };
                        match total(work, WorkCounters { page_writes: 1, ..no_work() }) {
                            Err(error) => (Err(MutationErrorView::Work(error)), next),
                            Ok(prospective) => if !within(prospective, terms.budget) {
                                (Err(MutationErrorView::Work(WorkError::Exceeded)), next)
                            } else {
                                (Ok((bytes, prospective)), next)
                            },
                        }
                    },
                }
            }
        },
    }
}

/// What comes of the reply to the put of a page of some size.
#[verifier::opaque]
pub open spec fn put_answered(
    terms: RewriteTerms,
    state: RewriteView,
    prospective: WorkCounters,
    size: u64,
    object: ObjectView,
    reply: Result<WorkCounters, ObjectFailure>,
) -> Rewritten<ObjectView> {
    let released = RewriteView { live: (state.live - size) as u64, ..state };
    match reply {
        Ok(spent) => match total(prospective, spent) {
            Err(error) => (Err(MutationErrorView::Work(error)), state),
            Ok(work) => if !within(work, terms.budget) {
                (
                    Err(MutationErrorView::Work(WorkError::Exceeded)),
                    RewriteView { work, ..state },
                )
            } else {
                (Ok(object), RewriteView { work, ..released })
            },
        },
        Err(failure) => match backend_merged(prospective, failure.work, released.live) {
            Err(error) => (Err(MutationErrorView::Work(error)), released),
            Ok(work) => (
                Err(MutationErrorView::Storage(failure.error)),
                RewriteView { work, ..released },
            ),
        },
    }
}

/// A rewrite once its next put was made.
pub open spec fn after_put(
    terms: RewriteTerms,
    state: RewriteView,
    bytes: Seq<u8>,
    prospective: WorkCounters,
) -> RewriteView {
    let put = terms.puts[state.at as int];
    RewriteView {
        at: state.at + 1,
        answers: put.answers,
        kept: state.kept && put.object == object_named(ObjectKind::ExtentPage, bytes) && put.bytes
            == bytes && put.remaining == left_over(prospective, terms.budget),
        ..state
    }
}

/// What comes of writing a page.
#[verifier::opaque]
pub open spec fn page_written(terms: RewriteTerms, state: RewriteView, page: ExtentPageView) -> Rewritten<
    ObjectView,
> {
    match page_encoded(terms, state, page) {
        (Err(error), next) => (Err(error), next),
        (Ok((bytes, prospective)), next) => put_answered(
            terms,
            after_put(terms, next, bytes, prospective),
            prospective,
            bytes.len() as u64,
            object_named(ObjectKind::ExtentPage, bytes),
            terms.puts[next.at as int].reply,
        ),
    }
}

/// Where a page of extents ends that begins at one index and reaches another at least.
pub open spec fn leaf_end(extents: Seq<ExtentView>, start: int, end: int, limits: DecodeLimits) -> int
    decreases extents.len() - end,
{
    if end < extents.len() && extents_fit_page(extents, start, end + 1, limits) {
        leaf_end(extents, start, end + 1, limits)
    } else {
        end
    }
}

/// Where a page of trees ends that begins at one index and reaches another at least.
pub open spec fn internal_end(count: int, start: int, end: int, limits: DecodeLimits) -> int
    decreases count - end,
{
    if end < count && children_fit_page(end + 1 - start, limits) {
        internal_end(count, start, end + 1, limits)
    } else {
        end
    }
}

/// Items looked at to find where a page ends.
pub open spec fn looked_at(count: int, start: int, end: int, limits: DecodeLimits) -> u64 {
    if end < count && end - start < limits.maximum_page_items {
        (end - start + 1) as u64
    } else {
        (end - start) as u64
    }
}

/// What comes of writing extents from an index on, page by page, behind some pages.
#[verifier::opaque]
pub open spec fn leaves_written(
    terms: RewriteTerms,
    state: RewriteView,
    extents: Seq<ExtentView>,
    start: int,
    list: Seq<ExtentChildView>,
) -> Rewritten<Seq<ExtentChildView>>
    decreases extents.len() - start,
    via leaves_end
{
    let end = leaf_end(extents, start, start, terms.limits);
    if start >= extents.len() {
        (Ok(list), state)
    } else if end <= start {
        (Err(MutationErrorView::PageItemTooLarge), state)
    } else {
        match items_counted(
            terms,
            state,
            looked_at(extents.len() as int, start, end, terms.limits),
        ) {
            (Err(error), next) => (Err(error), next),
            (Ok(_), next) => match page_written(
                terms,
                next,
                PageView::Leaf(extents.subrange(start, end)),
            ) {
                (Err(error), next) => (Err(error), next),
                (Ok(page), next) => leaves_written(
                    terms,
                    next,
                    extents,
                    end,
                    list.push(
                        ExtentChildView {
                            first_offset: extents[start].offset,
                            end_offset: extent_end_of(extents[end - 1]) as u64,
                            page,
                        },
                    ),
                ),
            },
        }
    }
}

/// Pages of extents end within the extents.
#[via_fn]
proof fn leaves_end(
    terms: RewriteTerms,
    state: RewriteView,
    extents: Seq<ExtentView>,
    start: int,
    list: Seq<ExtentChildView>,
) {
    if start < extents.len() {
        lemma_leaf_end(extents, start, start, terms.limits);
    }
}

proof fn lemma_leaf_end(extents: Seq<ExtentView>, start: int, end: int, limits: DecodeLimits)
    requires
        end <= extents.len(),
    ensures
        leaf_end(extents, start, end, limits) <= extents.len(),
    decreases extents.len() - end,
{
    if end < extents.len() {
        lemma_leaf_end(extents, start, end + 1, limits);
    }
}

/// Where a list of trees from a cursor on is cut into pages, behind some cuts, and how
/// many trees were looked at for each.
#[verifier::opaque]
pub open spec fn pages_cut(
    terms: RewriteTerms,
    state: RewriteView,
    size: int,
    cursor: int,
    cuts: Seq<usize>,
    examined: Seq<u64>,
) -> Rewritten<(Seq<usize>, Seq<u64>)>
    decreases size - cursor,
    via cuts_end
{
    let end = internal_end(size, cursor, cursor, terms.limits);
    if cursor >= size {
        (Ok((cuts, examined)), state)
    } else if end <= cursor {
        (Err(MutationErrorView::PageItemTooLarge), state)
    } else {
        let looked = looked_at(size, cursor, end, terms.limits);
        match items_counted(terms, state, looked) {
            (Err(error), next) => (Err(error), next),
            (Ok(_), next) => pages_cut(
                terms,
                next,
                size,
                end,
                cuts.push(end as usize),
                examined.push(looked),
            ),
        }
    }
}

/// Pages of trees end within the list.
#[via_fn]
proof fn cuts_end(
    terms: RewriteTerms,
    state: RewriteView,
    size: int,
    cursor: int,
    cuts: Seq<usize>,
    examined: Seq<u64>,
) {
    if cursor < size {
        lemma_internal_end(size, cursor, cursor, terms.limits);
    }
}

proof fn lemma_internal_end(count: int, start: int, end: int, limits: DecodeLimits)
    requires
        end <= count,
    ensures
        internal_end(count, start, end, limits) <= count,
    decreases count - end,
{
    if end < count {
        lemma_internal_end(count, start, end + 1, limits);
    }
}

/// What comes of writing pages over a list of trees from a cut on, behind some pages.
#[verifier::opaque]
pub open spec fn internals_written(
    terms: RewriteTerms,
    state: RewriteView,
    children: Seq<ExtentChildView>,
    cuts: Seq<usize>,
    examined: Seq<u64>,
    step: int,
    list: Seq<ExtentChildView>,
) -> Rewritten<Seq<ExtentChildView>>
    decreases examined.len() - step,
{
    if step >= examined.len() {
        (Ok(list), state)
    } else {
        let start = cuts[step] as int;
        let end = cuts[step + 1] as int;
        match items_counted(terms, state, examined[step]) {
            (Err(error), next) => (Err(error), next),
            (Ok(_), next) => match page_written(
                terms,
                next,
                PageView::Internal(children.subrange(start, end)),
            ) {
                (Err(error), next) => (Err(error), next),
                (Ok(page), next) => internals_written(
                    terms,
                    next,
                    children,
                    cuts,
                    examined,
                    step + 1,
                    list.push(
                        ExtentChildView {
                            first_offset: children[start].first_offset,
                            end_offset: children[end - 1].end_offset,
                            page,
                        },
                    ),
                ),
            },
        }
    }
}

/// What comes of writing one level of pages over a list of trees.
#[verifier::opaque]
pub open spec fn level_written(
    terms: RewriteTerms,
    state: RewriteView,
    children: Seq<ExtentChildView>,
) -> Rewritten<Seq<ExtentChildView>> {
    match pages_cut(terms, state, children.len() as int, 0, seq![0usize], Seq::empty()) {
        (Err(error), next) => (Err(error), next),
        (Ok((cuts, examined)), next) => if children.len() > 1 && examined.len() >= children.len() {
            (Err(MutationErrorView::PageItemTooLarge), next)
        } else {
            internals_written(terms, next, children, cuts, examined, 0, Seq::empty())
        },
    }
}

/// The first patch between two indexes that ends behind a position, by halving, and the
/// comparisons that it takes.
pub open spec fn ends_searched(patches: Seq<PatchView>, start: u64, low: int, high: int) -> (int, int)
    decreases high - low,
{
    if low < high {
        let middle = low + (high - low) / 2;
        let (found, steps) = if patches[middle].end <= start {
            ends_searched(patches, start, middle + 1, high)
        } else {
            ends_searched(patches, start, low, middle)
        };
        (found, steps + 1)
    } else {
        (low, 0)
    }
}

/// The first patch between two indexes that does not begin before a position, by halving,
/// and the comparisons that it takes.
pub open spec fn starts_searched(patches: Seq<PatchView>, end: u64, low: int, high: int) -> (int, int)
    decreases high - low,
{
    if low < high {
        let middle = low + (high - low) / 2;
        let (found, steps) = if patches[middle].offset < end {
            starts_searched(patches, end, middle + 1, high)
        } else {
            starts_searched(patches, end, low, middle)
        };
        (found, steps + 1)
    } else {
        (low, 0)
    }
}

/// The patches that have bytes of a range, from one index to another, and the comparisons
/// that it takes to find them.
pub open spec fn patches_between(patches: Seq<PatchView>, start: u64, end: u64) -> (int, int, int) {
    let (first, one) = ends_searched(patches, start, 0, patches.len() as int);
    let (left, other) = starts_searched(patches, end, 0, patches.len() as int);
    (
        first,
        if left < first {
            first
        } else {
            left
        },
        one + other,
    )
}

/// What comes of rewriting one leaf.
#[verifier::opaque]
pub open spec fn leaf_rewritten(
    terms: RewriteTerms,
    state: RewriteView,
    page: ObjectView,
    extents: Seq<ExtentView>,
    first: u64,
    original_end: u64,
    output_end: u64,
) -> Rewritten<Seq<ExtentChildView>> {
    let (from, to, comparisons) = patches_between(terms.patches, first, output_end);
    let (made, examined) = extents_rewritten(
        extents,
        original_end,
        output_end,
        terms.patches.subrange(from, to),
    );
    if !extents_within(extents, first, original_end) {
        (Err(MutationErrorView::ChildBoundsMismatch), state)
    } else {
        match items_spent(terms, state, comparisons as u64) {
            (Err(error), next) => (Err(error), next),
            (Ok(_), next) => match items_spent(terms, next, examined as u64) {
                (Err(error), next) => (Err(error), next),
                (Ok(_), next) => if made == extents {
                    (
                        Ok(
                            seq![
                                ExtentChildView {
                                    first_offset: first,
                                    end_offset: original_end,
                                    page,
                                },
                            ],
                        ),
                        next,
                    )
                } else {
                    leaves_written(terms, next, made, 0, Seq::empty())
                },
            },
        }
    }
}

/// What comes of rewriting a tree: what patches and the new end touch is written anew,
/// the rest stays as it is.
#[verifier::opaque]
pub open spec fn tree_rewritten(
    terms: RewriteTerms,
    state: RewriteView,
    page: ObjectView,
    first: u64,
    original_end: u64,
    output_end: u64,
    height: u16,
) -> Rewritten<Seq<ExtentChildView>>
    decreases u16::MAX - height, 1int, 0int,
{
    if height > terms.limits.maximum_page_height {
        (Err(MutationErrorView::HeightExceeded), state)
    } else if output_end <= first {
        (Ok(Seq::empty()), state)
    } else {
        let seen = if state.seen < height {
            height
        } else {
            state.seen
        };
        let (outcome, visited, live, work) = visited_added(
            state.visited,
            page,
            state.live,
            state.work,
            terms.budget,
        );
        let next = RewriteView { seen, visited, live, work, ..state };
        match outcome {
            Err(error) => (Err(allocation_cause(error)), next),
            Ok(false) => (Err(MutationErrorView::CycleOrAlias), next),
            Ok(true) => match page_read(terms, next, page) {
                (Err(error), next) => (Err(error), next),
                (Ok((decoded, held)), next) => {
                    let (made, next) = match decoded {
                        PageView::Leaf(extents) => leaf_rewritten(
                            terms,
                            next,
                            page,
                            extents,
                            first,
                            original_end,
                            output_end,
                        ),
                        PageView::Internal(children) => if extent_children_within(
                            children,
                            first,
                            original_end,
                        ) {
                            children_rewritten(
                                terms,
                                next,
                                page,
                                children,
                                first,
                                original_end,
                                output_end,
                                height,
                                0,
                                Seq::empty(),
                            )
                        } else {
                            (Err(MutationErrorView::ChildBoundsMismatch), next)
                        },
                    };
                    (
                        made,
                        if made is Ok {
                            RewriteView { live: (next.live - held) as u64, ..next }
                        } else {
                            next
                        },
                    )
                },
            },
        }
    }
}

/// Where the rewrite of a child ends: where the child ends or the new end cuts it, and at
/// the new end for the last child of a tree that grows.
pub open spec fn child_output(
    child: ExtentChildView,
    last: bool,
    original_end: u64,
    output_end: u64,
) -> u64 {
    if last && output_end > original_end {
        output_end
    } else if child.end_offset <= output_end {
        child.end_offset
    } else {
        output_end
    }
}

/// What comes of rewriting an internal page from a child on, behind some trees.
#[verifier::opaque]
pub open spec fn children_rewritten(
    terms: RewriteTerms,
    state: RewriteView,
    page: ObjectView,
    children: Seq<ExtentChildView>,
    first: u64,
    original_end: u64,
    output_end: u64,
    height: u16,
    i: int,
    list: Seq<ExtentChildView>,
) -> Rewritten<Seq<ExtentChildView>>
    decreases u16::MAX - height, 0int, children.len() - i,
{
    if i >= children.len() {
        page_joined(terms, state, page, children, first, original_end, height, list)
    } else {
        let child = children[i];
        if child.first_offset >= output_end {
            match items_counted(terms, state, 1) {
                (Err(error), next) => (Err(error), next),
                (Ok(_), next) => page_joined(
                    terms,
                    next,
                    page,
                    children,
                    first,
                    original_end,
                    height,
                    list,
                ),
            }
        } else {
            let end = child_output(child, i + 1 == children.len(), original_end, output_end);
            let (from, to, comparisons) = patches_between(terms.patches, child.first_offset, end);
            match items_counted(terms, state, (comparisons + 1) as u64) {
                (Err(error), next) => (Err(error), next),
                (Ok(_), next) => if end != child.end_offset || from < to {
                    if height == u16::MAX {
                        (Err(MutationErrorView::HeightExceeded), next)
                    } else {
                        match tree_rewritten(
                            terms,
                            next,
                            child.page,
                            child.first_offset,
                            child.end_offset,
                            end,
                            (height + 1) as u16,
                        ) {
                            (Err(error), next) => (Err(error), next),
                            (Ok(made), next) => children_rewritten(
                                terms,
                                next,
                                page,
                                children,
                                first,
                                original_end,
                                output_end,
                                height,
                                i + 1,
                                list + made,
                            ),
                        }
                    }
                } else {
                    children_rewritten(
                        terms,
                        next,
                        page,
                        children,
                        first,
                        original_end,
                        output_end,
                        height,
                        i + 1,
                        list + seq![child],
                    )
                },
            }
        }
    }
}

/// What comes of joining rewritten trees to pages: nothing and single trees under a root
/// need none, unchanged trees keep their page.
#[verifier::opaque]
pub open spec fn page_joined(
    terms: RewriteTerms,
    state: RewriteView,
    page: ObjectView,
    children: Seq<ExtentChildView>,
    first: u64,
    original_end: u64,
    height: u16,
    list: Seq<ExtentChildView>,
) -> Rewritten<Seq<ExtentChildView>> {
    if list.len() == 0 {
        (Ok(list), state)
    } else if list == children {
        (
            Ok(seq![ExtentChildView { first_offset: first, end_offset: original_end, page }]),
            state,
        )
    } else if height == 1 && list.len() == 1 {
        (Ok(list), state)
    } else {
        level_written(terms, state, list)
    }
}

/// What comes of making pages over a list of trees until one is left.
#[verifier::opaque]
pub open spec fn root_made(
    terms: RewriteTerms,
    state: RewriteView,
    list: Seq<ExtentChildView>,
    height: u16,
) -> Rewritten<ObjectView>
    decreases list.len(),
{
    if list.len() == 0 {
        page_written(terms, state, PageView::Leaf(Seq::empty()))
    } else if list.len() == 1 {
        (Ok(list[0].page), state)
    } else if height == u16::MAX || height + 1 > terms.limits.maximum_page_height {
        (Err(MutationErrorView::HeightExceeded), state)
    } else {
        match level_written(terms, state, list) {
            (Err(error), next) => (Err(error), next),
            (Ok(made), next) => if 0 < made.len() < list.len() {
                root_made(terms, next, made, (height + 1) as u16)
            } else {
                (Err(MutationErrorView::PageItemTooLarge), next)
            },
        }
    }
}

/// What comes of rewriting the tree of a file and making its new root.
pub open spec fn file_rewritten(
    terms: RewriteTerms,
    state: RewriteView,
    root: ObjectView,
    old_size: u64,
    new_size: u64,
) -> Rewritten<ObjectView> {
    match tree_rewritten(terms, state, root, 0, old_size, new_size, 1) {
        (Err(error), next) => (Err(error), next),
        (Ok(list), next) => root_made(terms, next, list, next.seen),
    }
}

} // verus!
