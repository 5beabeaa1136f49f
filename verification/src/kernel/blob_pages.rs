//! Pages of stored blobs.

use super::blob::{blob_decoded, span_adjoins, spans_cover, SpanView};
use super::blob_read::{blob_holds, lemma_cover_within, span_of};
use super::codec::DecodeLimits;
use crate::storage::{ObjectView, Objects};
use vstd::prelude::*;

verus! {

/// The page that some choices of references lead to from another page.
pub open spec fn page_along(
    objects: Objects,
    limits: DecodeLimits,
    page: ObjectView,
    path: Seq<int>,
) -> Option<ObjectView>
    decreases path.len(),
{
    if path.len() == 0 {
        Some(page)
    } else {
        match objects(page) {
            None => None,
            Some(bytes) => match blob_decoded(bytes, limits) {
                Err(_) => None,
                Ok(view) => if !view.leaf && 0 <= path[0] < view.spans.len() {
                    page_along(
                        objects,
                        limits,
                        span_of(view.spans, path[0]).object,
                        path.drop_first(),
                    )
                } else {
                    None
                },
            },
        }
    }
}

/// Whether a page is an index of at most a given height over a part of a range.
spec fn indexes_within(
    objects: Objects,
    limits: DecodeLimits,
    page: ObjectView,
    first: int,
    end: int,
    height: nat,
) -> bool {
    exists|from: int, to: int, bytes: Seq<u8>| #[trigger]
        blob_holds(objects, limits, page, from, to, bytes, height) && first <= from < to <= end
}

/// References of a page have no byte in common.
proof fn lemma_cover_apart(spans: Seq<SpanView>, first: u64, end: u64, i: int, j: int)
    requires
        spans_cover(spans, first, end),
        0 <= i < j < spans.len(),
    ensures
        spans[i].end <= spans[j].first,
    decreases j,
{
    assert(span_adjoins(spans, j));
    if i + 1 < j {
        lemma_cover_apart(spans, first, end, i, j - 1);
        assert(spans[j - 1].first < spans[j - 1].end);
    }
}

/// Every page of a stored blob indexes a part of it.
proof fn lemma_along_holds(
    objects: Objects,
    limits: DecodeLimits,
    page: ObjectView,
    first: int,
    end: int,
    bytes: Seq<u8>,
    height: nat,
    path: Seq<int>,
)
    requires
        blob_holds(objects, limits, page, first, end, bytes, height),
        first < end,
        page_along(objects, limits, page, path) is Some,
    ensures
        path.len() < height,
        indexes_within(
            objects,
            limits,
            page_along(objects, limits, page, path)->0,
            first,
            end,
            (height - path.len()) as nat,
        ),
    decreases path.len(),
{
    if path.len() > 0 {
        let view = blob_decoded(objects(page)->0, limits)->Ok_0;
        let at = path[0];
        let span = span_of(view.spans, at);
        lemma_cover_within(view.spans, view.first, view.end);
        lemma_along_holds(
            objects,
            limits,
            span.object,
            span.first as int,
            span.end as int,
            bytes.subrange(span.first - first, span.end - first),
            (height - 1) as nat,
            path.drop_first(),
        );
    }
}

/// No page of a stored blob leads back to itself.
proof fn lemma_no_cycle(
    objects: Objects,
    limits: DecodeLimits,
    page: ObjectView,
    first: int,
    end: int,
    height: nat,
    path: Seq<int>,
)
    requires
        indexes_within(objects, limits, page, first, end, height),
        path.len() > 0,
    ensures
        page_along(objects, limits, page, path) != Some(page),
    decreases height,
{
    if page_along(objects, limits, page, path) == Some(page) {
        let (from, to, bytes) = choose|from: int, to: int, bytes: Seq<u8>| #[trigger]
            blob_holds(objects, limits, page, from, to, bytes, height) && first <= from < to <= end;
        lemma_along_holds(objects, limits, page, from, to, bytes, height, path);
        lemma_no_cycle(
            objects,
            limits,
            page,
            from,
            to,
            (height - path.len()) as nat,
            path,
        );
    }
}

/// A stored blob repeats no page: different choices of references lead from its root to
/// different pages.
pub proof fn blob_repeats_no_page(
    objects: Objects,
    limits: DecodeLimits,
    root: ObjectView,
    first: int,
    end: int,
    bytes: Seq<u8>,
    height: nat,
    one: Seq<int>,
    other: Seq<int>,
)
    requires
        blob_holds(objects, limits, root, first, end, bytes, height),
        page_along(objects, limits, root, one) is Some,
        page_along(objects, limits, root, one) == page_along(objects, limits, root, other),
    ensures
        one == other,
    decreases one.len(),
{
    let view = blob_decoded(objects(root)->0, limits)->Ok_0;
    if one.len() == 0 && other.len() == 0 {
        assert(one =~= other);
    } else {
        if one.len() > 0 {
            lemma_cover_within(view.spans, view.first, view.end);
        }
        if other.len() > 0 {
            lemma_cover_within(view.spans, view.first, view.end);
        }
        assert(indexes_within(objects, limits, root, first, end, height));
        if one.len() == 0 {
            lemma_no_cycle(objects, limits, root, first, end, height, other);
        } else if other.len() == 0 {
            lemma_no_cycle(objects, limits, root, first, end, height, one);
        } else {
            let a = span_of(view.spans, one[0]);
            let b = span_of(view.spans, other[0]);
            let part_a = bytes.subrange(a.first - first, a.end - first);
            let part_b = bytes.subrange(b.first - first, b.end - first);
            let below = (height - 1) as nat;
            if one[0] == other[0] {
                blob_repeats_no_page(
                    objects,
                    limits,
                    a.object,
                    a.first as int,
                    a.end as int,
                    part_a,
                    below,
                    one.drop_first(),
                    other.drop_first(),
                );
                assert(one =~= seq![one[0]] + one.drop_first());
                assert(other =~= seq![other[0]] + other.drop_first());
            } else {
                lemma_along_holds(
                    objects,
                    limits,
                    a.object,
                    a.first as int,
                    a.end as int,
                    part_a,
                    below,
                    one.drop_first(),
                );
                lemma_along_holds(
                    objects,
                    limits,
                    b.object,
                    b.first as int,
                    b.end as int,
                    part_b,
                    below,
                    other.drop_first(),
                );
                if one[0] < other[0] {
                    lemma_cover_apart(view.spans, view.first, view.end, one[0], other[0]);
                } else {
                    lemma_cover_apart(view.spans, view.first, view.end, other[0], one[0]);
                }
            }
        }
    }
}

} // verus!
