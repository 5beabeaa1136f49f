//! What a proof of a closure is worth.

use super::blob::{blob_decoded, spans_cover, SpanView};
use super::blob_read::{
    blob_holds, blob_range_reads_back, gives_range, lemma_cover_within, range_begun, range_outcome,
    span_of,
};
use super::closure::{blob_proved, blob_sound};
use super::codec::DecodeLimits;
use super::file_lookup::serves;
use crate::performance::WorkBudget;
use crate::storage::{ByteRange, ImmediateObjectStore, ObjectView, Objects};
use vstd::prelude::*;

verus! {

/// The reference of a page that an offset falls into.
pub open spec fn span_at(spans: Seq<SpanView>, offset: int) -> int {
    choose|i: int| 0 <= i < spans.len() && (#[trigger] spans[i]).first <= offset < spans[i].end
}

/// The bytes below a page of a blob index.
pub open spec fn index_bytes(
    objects: Objects,
    limits: DecodeLimits,
    page: ObjectView,
    height: nat,
) -> Seq<u8>
    decreases height,
{
    let view = blob_decoded(objects(page)->0, limits)->Ok_0;
    Seq::new(
        (view.end - view.first) as nat,
        |k: int|
            {
                let span = view.spans[span_at(view.spans, view.first + k)];
                let at = view.first + k - span.first;
                if view.leaf || height == 0 {
                    objects(span.object)->0[at]
                } else {
                    index_bytes(objects, limits, span.object, (height - 1) as nat)[at]
                }
            },
    )
}

/// Of references that cover a range, the earlier end before the later begin.
proof fn lemma_spans_apart(spans: Seq<SpanView>, first: u64, end: u64, i: int, j: int)
    requires
        spans_cover(spans, first, end),
        0 <= i < j < spans.len(),
    ensures
        spans[i].end <= spans[j].first,
    decreases j - i,
{
    assert(super::blob::span_adjoins(spans, j));
    if i + 1 < j {
        lemma_spans_apart(spans, first, end, i, j - 1);
        assert(spans[j - 1].first < spans[j - 1].end);
    }
}

/// A sound index holds the bytes below it.
proof fn lemma_sound_holds(
    objects: Objects,
    limits: DecodeLimits,
    page: ObjectView,
    first: int,
    end: int,
    height: nat,
)
    requires
        blob_sound(objects, limits, page, first, end, height),
    ensures
        blob_holds(
            objects,
            limits,
            page,
            first,
            end,
            index_bytes(objects, limits, page, height),
            height,
        ),
    decreases height,
{
    let view = blob_decoded(objects(page)->0, limits)->Ok_0;
    let bytes = index_bytes(objects, limits, page, height);
    if view.spans.len() > 0 {
        lemma_cover_within(view.spans, view.first, view.end);
        assert(view.spans[0].first < view.spans[0].end);
    }
    assert(bytes.len() == end - first);
    assert forall|i: int| 0 <= i < view.spans.len() implies {
        let span = #[trigger] span_of(view.spans, i);
        let part = bytes.subrange(span.first - first, span.end - first);
        if view.leaf {
            objects(span.object) == Some(part)
        } else {
            blob_holds(
                objects,
                limits,
                span.object,
                span.first as int,
                span.end as int,
                part,
                (height - 1) as nat,
            )
        }
    } by {
        let span = view.spans[i];
        assert(span == span_of(view.spans, i));
        let part = bytes.subrange(span.first - first, span.end - first);
        let own = if view.leaf {
            objects(span.object)->0
        } else {
            index_bytes(objects, limits, span.object, (height - 1) as nat)
        };
        if !view.leaf {
            lemma_sound_holds(
                objects,
                limits,
                span.object,
                span.first as int,
                span.end as int,
                (height - 1) as nat,
            );
        }
        assert(own.len() == span.end - span.first);
        assert forall|k: int| 0 <= k < part.len() implies part[k] == own[k] by {
            let offset = span.first + k;
            assert(view.spans[i].first <= offset < view.spans[i].end);
            let j = span_at(view.spans, offset);
            assert(0 <= j < view.spans.len() && view.spans[j].first <= offset
                < view.spans[j].end);
            if j < i {
                lemma_spans_apart(view.spans, view.first, view.end, j, i);
            } else if i < j {
                lemma_spans_apart(view.spans, view.first, view.end, i, j);
            }
            assert(part[k] == bytes[span.first - first + k]);
            assert(view.first + (span.first - first + k) == offset);
        }
        assert(part =~= own);
    }
}

/// A blob whose closure has been proved has contents, and reading any range of it
/// gives exactly those of the range. It fails only where the store fails or the
/// budget or the bounds do not admit the read, or the index repeats a page.
pub proof fn proved_blobs_read_back<S: ImmediateObjectStore>(
    store: &S,
    objects: Objects,
    root: ObjectView,
    length: nat,
    limits: DecodeLimits,
)
    requires
        serves(store, objects),
        blob_proved(objects, limits, root, 0, length as int),
    ensures
        exists|bytes: Seq<u8>|
            bytes.len() == length && forall|range: ByteRange, budget: WorkBudget|
                range.offset + range.length <= length && (#[trigger] range_begun(
                    root,
                    range,
                    limits,
                    budget,
                )) is Ok ==> #[trigger] gives_range(
                    range_outcome(store, range_begun(root, range, limits, budget)->Ok_0),
                    bytes,
                    range,
                ),
{
    let height = choose|height: nat| #[trigger]
        blob_sound(objects, limits, root, 0, length as int, height);
    let bytes = index_bytes(objects, limits, root, height);
    lemma_sound_holds(objects, limits, root, 0, length as int, height);
    assert(bytes.len() == length);
    assert forall|range: ByteRange, budget: WorkBudget|
        range.offset + range.length <= length && (#[trigger] range_begun(
            root,
            range,
            limits,
            budget,
        )) is Ok implies #[trigger] gives_range(
        range_outcome(store, range_begun(root, range, limits, budget)->Ok_0),
        bytes,
        range,
    ) by {
        blob_range_reads_back(store, objects, root, range, limits, budget, bytes, height);
    }
}

} // verus!
