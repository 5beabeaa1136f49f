//! Streaming construction of immutable blobs.

use super::attribute_access::{backend_merged, merge_backend_work};
use super::blob::{
    blob_bytes, blob_decoded, blob_page_problem, encode_blob_page, span_adjoins, span_bytes,
    spans_cover, spans_kind, spans_sound, BlobChild, BlobChunkRef, BlobNode, BlobPage,
    BlobPageView, SpanView,
};
use super::blob_read::{
    blob_holds, blob_range_reads_back, gives_range, lemma_cover_within, range_begun, range_outcome,
    span_of,
};
use super::codec::{items_bytes, CanonicalDecodeError, CanonicalItem, DecodeErrorView, DecodeLimits};
use crate::order::views;
use super::blob_outcome::{
    asked_bytes, blob_made, build_begun, build_ended, build_failure_is, chunk_taken, claim_made,
    goes_by, index_finished, index_pushed, leaf_flushed, lemma_goes_by, level_added,
    levels_finished, page_of, page_put, put_made, read_on, reading_work, row_flushed, stands_alone,
    stepped, BuildCause, BuildEnd, BuildTerms, BuildView,
};
use super::blob_plan::{
    blob_root, chunk_reference, chunk_row, grouped, left_on, lemma_chunk_row_next,
    lemma_chunk_row_short, lemma_few_levels, lemma_grouped_none, lemma_grouped_push,
    lemma_grouped_sizes, lemma_level_empty, lemma_level_up, lemma_levels_agree,
    lemma_nothing_above, level_row, page_reference, pages_over, top_page,
};
use crate::performance::{
    addable, larger, left_over, lemma_outside_is_spent_up, no_work, small_work, spent_up, total,
    within, OperationFailure, WorkBudget, WorkCounters, WorkError,
};
use crate::storage::{
    extends, lemma_logged, logged, object_id, object_named, put_refused, put_work, ByteRange,
    ObjectId, ObjectKind, ObjectStore, ObjectStoreError, ObjectView, Objects, Put, RequestView,
    ObjectFailure,
};
use vstd::bytes::*;
use vstd::prelude::*;

verus! {

/// Bytes of a blob page in front of its references.
pub const BLOB_PAGE_HEADER_BYTES: usize = 31;

/// Bytes of one reference of a blob page.
pub const BLOB_PAGE_ITEM_BYTES: usize = 48;

/// Logical bytes of one reference while it waits for its page.
pub const BLOB_ITEM_BYTES: u64 = 56;

/// Logical bytes of one empty index level.
pub const BLOB_LEVEL_BYTES: u64 = 24;

/// Hard bounds for streaming immutable-blob construction.
#[derive(Clone, Copy, Debug, PartialEq, Eq, Structural)]
pub struct BlobBuildOptions {
    /// Positive maximum bytes per authenticated content chunk.
    pub chunk_bytes: u32,
    /// At least two references per blob-index page.
    pub page_items: u32,
    /// Maximum canonical bytes in one authenticated blob-index page.
    pub page_bytes: u32,
    /// Maximum logical bytes consumed from the source.
    pub maximum_blob_bytes: u64,
}

/// Successful streaming blob construction.
#[derive(Clone, Copy, Debug, PartialEq, Eq)]
pub struct BlobBuild {
    /// Authenticated blob-index root.
    pub root: ObjectId,
    /// Exact logical content length.
    pub logical_bytes: u64,
    /// Exact source, encoding, and backend work receipt.
    pub work: WorkCounters,
}

/// Stable streaming blob-build errors.
#[derive(Debug, PartialEq, Eq)]
pub enum BlobBuildError {
    /// Cooperative cancellation occurred before the next source or store operation.
    Cancelled,
    /// Chunk, page, or total-size bounds are invalid.
    InvalidOptions,
    /// Canonical blob-index page exceeds its explicit byte ceiling.
    PageTooLarge {
        /// Canonical encoded bytes.
        observed: u64,
        /// Configured page-byte ceiling.
        maximum: u64,
    },
    /// Incremental index finalization reached an impossible state.
    InvalidIndexState,
    /// Input exceeded the admitted logical size.
    TooLarge,
    /// Source stream failed.
    Source(String),
    /// Canonical blob-index encoding failed.
    Encode(CanonicalDecodeError),
    /// Immutable-object backend failed.
    Storage(ObjectStoreError),
    /// Exact work overflowed or exceeded its budget.
    Work(WorkError),
}

/// Streaming blob-build failure retaining exact completed work.
pub type BlobBuildFailure = OperationFailure<BlobBuildError>;

/// Bytes of a stream.
pub type StreamBytes = Seq<u8>;

/// What a stream says of its failure.
pub type StreamMessage = Seq<char>;

/// A bounded byte source.
pub trait BlobSource {
    /// Every byte handed out so far.
    spec fn taken(&self) -> StreamBytes;

    /// Whether the stream has come to its end.
    spec fn ended(&self) -> bool;

    /// What the stream has failed with, if it has.
    spec fn broken(&self) -> Option<StreamMessage>;

    /// Hands out some bytes, none only at the end of the stream.
    fn read(&mut self, maximum: usize) -> (r: Result<Vec<u8>, String>)
        ensures
            match r {
                Ok(bytes) => {
                    &&& bytes@.len() <= maximum
                    &&& final(self).taken() == old(self).taken() + bytes@
                    &&& maximum > 0 && bytes@.len() == 0 ==> final(self).ended()
                    &&& final(self).broken() == old(self).broken()
                },
                Err(message) => final(self).taken() == old(self).taken() && final(self).broken()
                    == Some(message@),
            },
    ;
}

/// Bytes held in memory, handed out in turn.
pub struct MemoryBlobSource {
    bytes: Vec<u8>,
    cursor: usize,
}

impl MemoryBlobSource {
    #[verifier::type_invariant]
    spec fn within(self) -> bool {
        self.cursor <= self.bytes@.len()
    }

    /// Every byte of the source.
    pub closed spec fn all(&self) -> Seq<u8> {
        self.bytes@
    }

    /// A source that has handed out nothing.
    pub fn new(bytes: Vec<u8>) -> (r: Self)
        ensures
            r.all() == bytes@,
            r.taken() == Seq::<u8>::empty(),
    {
        let r = MemoryBlobSource { bytes, cursor: 0 };
        assert(r.taken() =~= Seq::<u8>::empty());
        r
    }
}

impl BlobSource for MemoryBlobSource {
    closed spec fn taken(&self) -> StreamBytes {
        self.bytes@.take(self.cursor as int)
    }

    open spec fn ended(&self) -> bool {
        self.taken().len() == self.all().len()
    }

    open spec fn broken(&self) -> Option<StreamMessage> {
        None
    }

    fn read(&mut self, maximum: usize) -> (r: Result<Vec<u8>, String>)
        ensures
            final(self).all() == old(self).all(),
            r is Ok,
            r matches Ok(bytes) ==> bytes@.len() == (if maximum <= old(self).all().len() - old(
                self,
            ).taken().len() {
                maximum as int
            } else {
                old(self).all().len() - old(self).taken().len()
            }),
            final(self).taken() == final(self).all().take(final(self).taken().len() as int),
    {
        proof {
            use_type_invariant(&*self);
        }
        let left: usize = self.bytes.len() - self.cursor;
        let count: usize = if maximum <= left {
            maximum
        } else {
            left
        };
        let end: usize = self.cursor + count;
        let piece = vstd::slice::slice_subrange(self.bytes.as_slice(), self.cursor, end);
        let bytes = vstd::slice::slice_to_vec(piece);
        let ghost before = self.taken();
        self.cursor = end;
        assert(self.taken() =~= before + bytes@);
        Ok(bytes)
    }
}

/// References that fit a page, if at least two do.
pub open spec fn page_width(options: BlobBuildOptions) -> Option<int> {
    let byte_bound = (options.page_bytes - BLOB_PAGE_HEADER_BYTES) / 48;
    let width = if options.page_items <= byte_bound {
        options.page_items as int
    } else {
        byte_bound
    };
    if options.page_bytes >= BLOB_PAGE_HEADER_BYTES && width >= 2 {
        Some(width)
    } else {
        None
    }
}

/// Finds how many references fit a page.
pub fn effective_page_width(options: BlobBuildOptions) -> (r: Option<usize>)
    ensures
        match page_width(options) {
            Some(width) => r == Some(width as usize) && width <= usize::MAX && 31 + 48 * width
                <= options.page_bytes,
            None => r is None,
        },
{
    if (options.page_bytes as usize) < BLOB_PAGE_HEADER_BYTES {
        return None;
    }
    let byte_bound: usize = (options.page_bytes as usize - BLOB_PAGE_HEADER_BYTES)
        / BLOB_PAGE_ITEM_BYTES;
    let item_bound: usize = options.page_items as usize;
    let width = if item_bound <= byte_bound {
        item_bound
    } else {
        byte_bound
    };
    if width >= 2 {
        Some(width)
    } else {
        None
    }
}

/// Whether a build can begin.
pub open spec fn build_admitted(options: BlobBuildOptions) -> bool {
    options.chunk_bytes != 0 && page_width(options) is Some && options.maximum_blob_bytes != 0
}

/// Decoding bounds that every page of a build meets.
pub open spec fn build_limits(options: BlobBuildOptions) -> DecodeLimits {
    DecodeLimits {
        maximum_object_bytes: options.page_bytes as u64,
        maximum_name_bytes: 0,
        maximum_page_items: options.page_items,
        maximum_page_bytes: options.page_bytes,
        maximum_page_height: u16::MAX,
        maximum_visited_pages: u32::MAX,
    }
}

/// Whether a reference leads to its part of given bytes: to the part itself, or
/// to an index of a given height over it.
pub open spec fn span_holds(
    objects: Objects,
    limits: DecodeLimits,
    span: SpanView,
    content: Seq<u8>,
    height: nat,
) -> bool {
    &&& span.first < span.end <= content.len()
    &&& span.object.digest.len() == 32
    &&& if height == 0 {
        span.object.kind == ObjectKind::BlobChunk && objects(span.object) == Some(
            content.subrange(span.first as int, span.end as int),
        )
    } else {
        span.object.kind == ObjectKind::Blob && blob_holds(
            objects,
            limits,
            span.object,
            span.first as int,
            span.end as int,
            content.subrange(span.first as int, span.end as int),
            height,
        )
    }
}

/// Whether references cover a part of given bytes in turn and lead to it.
pub open spec fn run_holds(
    objects: Objects,
    limits: DecodeLimits,
    spans: Seq<SpanView>,
    from: int,
    to: int,
    content: Seq<u8>,
    height: nat,
) -> bool {
    &&& 0 <= from <= to <= content.len() <= u64::MAX
    &&& spans.len() == 0 ==> from == to
    &&& spans.len() > 0 ==> spans_cover(spans, from as u64, to as u64)
    &&& forall|i: int|
        0 <= i < spans.len() ==> span_holds(
            objects,
            limits,
            #[trigger] spans[i],
            content,
            height,
        )
}

proof fn lemma_blob_holds_grows(
    before: Objects,
    after: Objects,
    limits: DecodeLimits,
    page: ObjectView,
    first: int,
    end: int,
    bytes: Seq<u8>,
    height: nat,
)
    requires
        extends(before, after),
        blob_holds(before, limits, page, first, end, bytes, height),
    ensures
        blob_holds(after, limits, page, first, end, bytes, height),
    decreases height,
{
    assert(after(page) == before(page));
    let view = blob_decoded(before(page)->0, limits)->Ok_0;
    assert forall|i: int| 0 <= i < view.spans.len() implies ({
        let span = #[trigger] span_of(view.spans, i);
        let part = bytes.subrange(span.first - first, span.end - first);
        if view.leaf {
            after(span.object) == Some(part)
        } else {
            blob_holds(
                after,
                limits,
                span.object,
                span.first as int,
                span.end as int,
                part,
                (height - 1) as nat,
            )
        }
    }) by {
        let span = span_of(view.spans, i);
        let part = bytes.subrange(span.first - first, span.end - first);
        if view.leaf {
            assert(before(span.object) is Some);
        } else {
            lemma_blob_holds_grows(
                before,
                after,
                limits,
                span.object,
                span.first as int,
                span.end as int,
                part,
                (height - 1) as nat,
            );
        }
    }
}

/// What led to bytes still does once a store holds more and the bytes go on.
proof fn lemma_span_holds_grows(
    before: Objects,
    after: Objects,
    limits: DecodeLimits,
    span: SpanView,
    content: Seq<u8>,
    more: Seq<u8>,
    height: nat,
)
    requires
        extends(before, after),
        span_holds(before, limits, span, content, height),
    ensures
        span_holds(after, limits, span, content + more, height),
{
    let part = content.subrange(span.first as int, span.end as int);
    assert((content + more).subrange(span.first as int, span.end as int) =~= part);
    if height == 0 {
        assert(before(span.object) is Some);
    } else {
        lemma_blob_holds_grows(
            before,
            after,
            limits,
            span.object,
            span.first as int,
            span.end as int,
            part,
            height,
        );
    }
}

proof fn lemma_run_holds_grows(
    before: Objects,
    after: Objects,
    limits: DecodeLimits,
    spans: Seq<SpanView>,
    from: int,
    to: int,
    content: Seq<u8>,
    more: Seq<u8>,
    height: nat,
)
    requires
        extends(before, after),
        run_holds(before, limits, spans, from, to, content, height),
        content.len() + more.len() <= u64::MAX,
    ensures
        run_holds(after, limits, spans, from, to, content + more, height),
{
    assert forall|i: int| 0 <= i < spans.len() implies span_holds(
        after,
        limits,
        #[trigger] spans[i],
        content + more,
        height,
    ) by {
        lemma_span_holds_grows(before, after, limits, spans[i], content, more, height);
    }
}

/// A run goes on with a reference that begins where it ends.
proof fn lemma_run_holds_push(
    objects: Objects,
    limits: DecodeLimits,
    spans: Seq<SpanView>,
    from: int,
    content: Seq<u8>,
    height: nat,
    span: SpanView,
)
    requires
        run_holds(objects, limits, spans, from, span.first as int, content, height),
        span_holds(objects, limits, span, content, height),
    ensures
        run_holds(objects, limits, spans.push(span), from, span.end as int, content, height),
{
    let longer = spans.push(span);
    assert forall|i: int| 0 < i < longer.len() implies #[trigger] span_adjoins(longer, i) by {
        if i < spans.len() {
            assert(span_adjoins(spans, i));
        }
    }
    assert forall|i: int| 0 <= i < longer.len() implies span_holds(
        objects,
        limits,
        #[trigger] longer[i],
        content,
        height,
    ) by {
        if i < spans.len() {
            assert(longer[i] == spans[i]);
        }
    }
    assert(spans_cover(longer, from as u64, span.end));
}

proof fn lemma_items_length<T: CanonicalItem<V = SpanView>>(spans: Seq<SpanView>)
    requires
        spans_sound(spans),
        forall|span: SpanView| #[trigger] T::item_bytes(span) == span_bytes(span),
    ensures
        items_bytes::<T>(spans).len() == 48 * spans.len(),
    decreases spans.len(),
{
    lemma_auto_spec_u64_to_from_le_bytes();
    if spans.len() > 0 {
        let rest = spans.drop_last();
        assert forall|i: int| 0 <= i < rest.len() implies (
        #[trigger] rest[i]).object.digest.len() == 32 by {
            assert(rest[i] == spans[i]);
        }
        lemma_items_length::<T>(rest);
        assert(spans.last() == spans[spans.len() - 1]);
        assert(T::item_bytes(spans.last()).len() == 48);
    }
}

/// Canonical bytes of a page: 31, and 48 for each reference.
pub proof fn blob_page_length_is_exact(page: BlobPageView)
    requires
        spans_sound(page.spans),
    ensures
        blob_bytes(page).len() == 31 + 48 * page.spans.len(),
{
    lemma_auto_spec_u16_to_from_le_bytes();
    lemma_auto_spec_u32_to_from_le_bytes();
    lemma_auto_spec_u64_to_from_le_bytes();
    lemma_items_length::<BlobChunkRef>(page.spans);
    lemma_items_length::<BlobChild>(page.spans);
}

/// The page over a run.
pub open spec fn page_over(spans: Seq<SpanView>, from: int, to: int, height: nat) -> BlobPageView {
    BlobPageView { first: from as u64, end: to as u64, leaf: height == 0, spans }
}

/// A run fits a page.
proof fn lemma_run_fits(
    objects: Objects,
    options: BlobBuildOptions,
    spans: Seq<SpanView>,
    from: int,
    to: int,
    content: Seq<u8>,
    height: nat,
)
    requires
        build_admitted(options),
        run_holds(objects, build_limits(options), spans, from, to, content, height),
        spans.len() == 0 ==> from == 0,
        spans.len() <= page_width(options)->0,
    ensures
        spans_sound(spans),
        blob_page_problem(page_over(spans, from, to, height), options.page_items) is None,
        blob_bytes(page_over(spans, from, to, height)).len() <= options.page_bytes,
        blob_decoded(
            blob_bytes(page_over(spans, from, to, height)),
            build_limits(options),
        ) == Ok::<BlobPageView, DecodeErrorView>(page_over(spans, from, to, height)),
{
    let page = page_over(spans, from, to, height);
    assert forall|i: int| 0 <= i < spans.len() implies (
    #[trigger] spans[i]).object.digest.len() == 32 by {
        assert(span_holds(objects, build_limits(options), spans[i], content, height));
    }
    assert(spans_kind(spans, page.leaf)) by {
        assert forall|i: int| 0 <= i < spans.len() implies (#[trigger] spans[i]).object.kind == (
        if page.leaf {
            ObjectKind::BlobChunk
        } else {
            ObjectKind::Blob
        }) by {
            assert(span_holds(objects, build_limits(options), spans[i], content, height));
        }
    }
    blob_page_length_is_exact(page);
    super::blob::blob_page_round_trip(page, options.page_items, build_limits(options));
}

/// A page over a run leads to what the run leads to.
proof fn lemma_page_holds(
    objects: Objects,
    options: BlobBuildOptions,
    spans: Seq<SpanView>,
    from: int,
    to: int,
    content: Seq<u8>,
    height: nat,
    page: ObjectView,
)
    requires
        build_admitted(options),
        run_holds(objects, build_limits(options), spans, from, to, content, height),
        spans.len() == 0 ==> from == 0,
        spans.len() <= page_width(options)->0,
        objects(page) == Some(blob_bytes(page_over(spans, from, to, height))),
    ensures
        blob_holds(
            objects,
            build_limits(options),
            page,
            from,
            to,
            content.subrange(from, to),
            height + 1,
        ),
{
    let limits = build_limits(options);
    lemma_run_fits(objects, options, spans, from, to, content, height);
    let view = page_over(spans, from, to, height);
    let bytes = content.subrange(from, to);
    if spans.len() > 0 {
        lemma_cover_within(spans, from as u64, to as u64);
    }
    assert forall|i: int| 0 <= i < view.spans.len() implies ({
        let span = #[trigger] span_of(view.spans, i);
        let part = bytes.subrange(span.first - from, span.end - from);
        if view.leaf {
            objects(span.object) == Some(part)
        } else {
            blob_holds(
                objects,
                limits,
                span.object,
                span.first as int,
                span.end as int,
                part,
                height,
            )
        }
    }) by {
        let span = span_of(view.spans, i);
        assert(span_holds(objects, limits, spans[i], content, height));
        assert(bytes.subrange(span.first - from, span.end - from) =~= content.subrange(
            span.first as int,
            span.end as int,
        ));
    }
}

/// References of every level.
pub open spec fn level_views(levels: Seq<Vec<BlobChild>>) -> Seq<Seq<SpanView>> {
    Seq::new(levels.len(), |i: int| views(levels[i]@))
}

/// Where the bytes end that the levels from a given one up lead to.
pub open spec fn reach(levels: Seq<Seq<SpanView>>, level: nat) -> int
    decreases levels.len() - level,
{
    if level >= levels.len() {
        0
    } else if levels[level as int].len() == 0 {
        reach(levels, level + 1)
    } else {
        levels[level as int].last().end as int
    }
}

/// Whether every level leads to its part of given bytes, higher levels to earlier
/// parts.
pub open spec fn levels_hold(
    objects: Objects,
    limits: DecodeLimits,
    levels: Seq<Seq<SpanView>>,
    content: Seq<u8>,
) -> bool {
    forall|level: nat|
        level < levels.len() ==> run_holds(
            objects,
            limits,
            levels[level as int],
            #[trigger] reach(levels, level + 1),
            reach(levels, level),
            content,
            level + 1,
        )
}

/// Whether a level leads to its part.
pub open spec fn level_holds(
    objects: Objects,
    limits: DecodeLimits,
    levels: Seq<Seq<SpanView>>,
    content: Seq<u8>,
    level: nat,
) -> bool {
    run_holds(
        objects,
        limits,
        levels[level as int],
        reach(levels, level + 1),
        reach(levels, level),
        content,
        level + 1,
    )
}

/// References that wait on all levels.
pub open spec fn waiting(levels: Seq<Seq<SpanView>>) -> nat
    decreases levels.len(),
{
    if levels.len() == 0 {
        0
    } else {
        waiting(levels.drop_last()) + levels.last().len()
    }
}

proof fn lemma_waiting_update(levels: Seq<Seq<SpanView>>, at: int, row: Seq<SpanView>)
    requires
        0 <= at < levels.len(),
    ensures
        waiting(levels.update(at, row)) == waiting(levels) - levels[at].len() + row.len(),
        waiting(levels) >= levels[at].len(),
    decreases levels.len(),
{
    let changed = levels.update(at, row);
    if at == levels.len() - 1 {
        assert(changed.drop_last() =~= levels.drop_last());
    } else {
        lemma_waiting_update(levels.drop_last(), at, row);
        assert(changed.drop_last() =~= levels.drop_last().update(at, row));
    }
}

/// Levels from a given one up decide how far they reach.
proof fn lemma_reach_above(a: Seq<Seq<SpanView>>, b: Seq<Seq<SpanView>>, level: nat)
    requires
        a.len() == b.len(),
        forall|i: int| level <= i < a.len() ==> a[i] == b[i],
    ensures
        reach(a, level) == reach(b, level),
    decreases a.len() - level,
{
    if level < a.len() {
        lemma_reach_above(a, b, level + 1);
    }
}

/// Empty levels do not reach further than those above.
proof fn lemma_reach_below(levels: Seq<Seq<SpanView>>, low: nat, level: nat)
    requires
        low <= level,
        forall|i: int| low <= i < level && i < levels.len() ==> (#[trigger] levels[i]).len() == 0,
    ensures
        reach(levels, low) == reach(levels, level),
    decreases level - low,
{
    if low < level {
        lemma_reach_below(levels, low + 1, level);
        if low < levels.len() {
            assert(levels[low as int].len() == 0);
        }
    }
}

/// An empty level on top changes nothing.
proof fn lemma_reach_push(levels: Seq<Seq<SpanView>>, level: nat)
    ensures
        reach(levels.push(Seq::empty()), level) == reach(levels, level),
    decreases levels.len() + 1 - level,
{
    let taller = levels.push(Seq::<SpanView>::empty());
    if level < levels.len() {
        lemma_reach_push(levels, level + 1);
        assert(taller[level as int] == levels[level as int]);
    } else if level == levels.len() {
        assert(reach(taller, level + 1) == 0);
    }
}

/// A change to one level whose lower levels are empty keeps the others, once the
/// level itself holds up to a new end.
proof fn lemma_levels_replace(
    objects: Objects,
    limits: DecodeLimits,
    levels: Seq<Seq<SpanView>>,
    content: Seq<u8>,
    at: nat,
    row: Seq<SpanView>,
)
    requires
        at < levels.len(),
        levels_hold(objects, limits, levels, content),
        forall|i: int| 0 <= i < at ==> (#[trigger] levels[i]).len() == 0,
        row.len() > 0 ==> run_holds(
            objects,
            limits,
            row,
            reach(levels, at + 1),
            row.last().end as int,
            content,
            at + 1,
        ),
    ensures
        levels_hold(objects, limits, levels.update(at as int, row), content),
        reach(levels.update(at as int, row), 0) == reach(levels.update(at as int, row), at),
        reach(levels.update(at as int, row), at + 1) == reach(levels, at + 1),
        row.len() > 0 ==> reach(levels.update(at as int, row), at) == row.last().end,
        row.len() == 0 ==> reach(levels.update(at as int, row), at) == reach(levels, at + 1),
{
    let changed = levels.update(at as int, row);
    lemma_reach_above(changed, levels, at + 1);
    lemma_reach_below(changed, 0, at);
    assert(level_holds(objects, limits, levels, content, at));
    assert forall|level: nat| level < changed.len() implies run_holds(
        objects,
        limits,
        changed[level as int],
        #[trigger] reach(changed, level + 1),
        reach(changed, level),
        content,
        level + 1,
    ) by {
        assert(level_holds(objects, limits, levels, content, level));
        assert(reach(levels, level + 1) == reach(levels, level + 1));
        if level > at {
            lemma_reach_above(changed, levels, level);
            lemma_reach_above(changed, levels, level + 1);
        } else if level < at {
            lemma_reach_below(changed, level, at);
            lemma_reach_below(changed, level + 1, at);
        }
    }
}

/// What the levels held still holds once a store holds more and the bytes go on.
proof fn lemma_levels_grow(
    before: Objects,
    after: Objects,
    limits: DecodeLimits,
    levels: Seq<Seq<SpanView>>,
    content: Seq<u8>,
    more: Seq<u8>,
)
    requires
        extends(before, after),
        levels_hold(before, limits, levels, content),
        content.len() + more.len() <= u64::MAX,
    ensures
        levels_hold(after, limits, levels, content + more),
{
    assert forall|level: nat| level < levels.len() implies run_holds(
        after,
        limits,
        levels[level as int],
        #[trigger] reach(levels, level + 1),
        reach(levels, level),
        content + more,
        level + 1,
    ) by {
        lemma_run_holds_grows(
            before,
            after,
            limits,
            levels[level as int],
            reach(levels, level + 1),
            reach(levels, level),
            content,
            more,
            level + 1,
        );
    }
}

/// Bytes that an index takes while it is built, at most.
pub const INDEX_BYTES: u64 = 0x100_0000_0000;

/// Whether work cannot be put on top of other work.
pub open spec fn unabsorbed(work: WorkCounters, spent: WorkCounters) -> bool {
    !addable(work, spent) || spent.peak_allocation_bytes + 2 * INDEX_BYTES > u64::MAX
}

/// Whether storing objects fails for a reason: the last object was refused, or the
/// work is spent up, or the work of the last object cannot be counted.
pub open spec fn storing_failed(
    error: BlobBuildError,
    work: WorkCounters,
    before: Seq<Put>,
    after: Seq<Put>,
    budget: WorkBudget,
) -> bool {
    match error {
        BlobBuildError::Storage(refusal) => put_refused(before, after, refusal),
        BlobBuildError::Work(_) => spent_up(work, u32::MAX as u64, budget) || (before.len()
            < after.len() && unabsorbed(work, put_work(after.last()))),
        _ => false,
    }
}

/// Work with some more spent while given bytes are live, or the failure for it.
pub open spec fn admitted(
    work: WorkCounters,
    more: WorkCounters,
    live: u64,
    budget: WorkBudget,
) -> Result<WorkCounters, (BlobBuildError, WorkCounters)> {
    match total(work, more) {
        Err(error) => Err((BlobBuildError::Work(error), work)),
        Ok(sum) => {
            let raised = WorkCounters {
                peak_allocation_bytes: larger(sum.peak_allocation_bytes, live),
                ..sum
            };
            if within(raised, budget) {
                Ok(raised)
            } else {
                Err((BlobBuildError::Work(WorkError::Exceeded), raised))
            }
        },
    }
}

fn take_on(work: WorkCounters, more: WorkCounters, live: u64, budget: WorkBudget) -> (r: Result<
    WorkCounters,
    BlobBuildFailure,
>)
    ensures
        match admitted(work, more, live, budget) {
            Ok(sum) => r == Ok::<WorkCounters, BlobBuildFailure>(sum),
            Err((error, spent)) => r == Err::<WorkCounters, BlobBuildFailure>(
                OperationFailure { error, work: spent },
            ),
        },
        r matches Ok(sum) ==> within(sum, budget) && sum.peak_allocation_bytes >= live,
        small_work(more, u32::MAX as u64) ==> (r matches Err(failure) ==> failure.error is Work
            && spent_up(failure.work, u32::MAX as u64, budget)),
{
    proof {
        if let Err((_, spent)) = admitted(work, more, live, budget) {
            if addable(work, more) {
                lemma_outside_is_spent_up(spent, u32::MAX as u64, budget);
            }
        }
    }
    match work.checked_add(more) {
        Err(error) => Err(OperationFailure::new(BlobBuildError::Work(error), work)),
        Ok(sum) => {
            let mut raised = sum;
            if raised.peak_allocation_bytes < live {
                raised.peak_allocation_bytes = live;
            }
            match raised.verify(budget) {
                Ok(()) => Ok(raised),
                Err(error) => Err(OperationFailure::new(BlobBuildError::Work(error), raised)),
            }
        },
    }
}

/// Claims room for some bytes on top of live ones: the bytes that are live then, and
/// the work.
fn claim(live: u64, bytes: u64, work: WorkCounters, budget: WorkBudget) -> (r: Result<
    (u64, WorkCounters),
    BlobBuildFailure,
>)
    ensures
        r == claim_made(live, bytes, work, budget),
        r matches Ok(claimed) ==> claimed.0 == live + bytes,
        live + bytes <= u64::MAX ==> (r matches Ok(claimed) ==> within(claimed.1, budget)
            && claimed.1.peak_allocation_bytes >= claimed.0),
        live + bytes <= u64::MAX ==> (r matches Err(failure) ==> failure.error is Work && spent_up(
            failure.work,
            u32::MAX as u64,
            budget,
        )),
{
    proof {
        reveal(claim_made);
    }
    if bytes > u64::MAX - live {
        return Err(OperationFailure::new(BlobBuildError::TooLarge, work));
    }
    let next: u64 = live + bytes;
    match take_on(work, WorkCounters::of_allocation_operations(1), next, budget) {
        Ok(sum) => Ok((next, sum)),
        Err(failure) => Err(failure),
    }
}

/// What a reply of a store comes to on top of earlier work.
pub open spec fn put_settled(
    reply: Result<WorkCounters, ObjectFailure>,
    work: WorkCounters,
    live: u64,
) -> Result<WorkCounters, BlobBuildFailure> {
    match reply {
        Ok(spent) => match backend_merged(work, spent, live) {
            Ok(sum) => Ok(sum),
            Err(error) => Err(OperationFailure { error: BlobBuildError::Work(error), work }),
        },
        Err(failure) => match total(work, failure.work) {
            Ok(sum) => Err(
                OperationFailure { error: BlobBuildError::Storage(failure.error), work: sum },
            ),
            Err(error) => Err(OperationFailure { error: BlobBuildError::Work(error), work }),
        },
    }
}

/// Settles a reply of a store.
pub fn settle_put(
    reply: Result<WorkCounters, ObjectFailure>,
    work: WorkCounters,
    live: u64,
) -> (r: Result<WorkCounters, BlobBuildFailure>)
    ensures
        r == put_settled(reply, work, live),
{
    match reply {
        Ok(spent) => match merge_backend_work(work, spent, live) {
            Ok(sum) => Ok(sum),
            Err(error) => Err(OperationFailure::new(BlobBuildError::Work(error), work)),
        },
        Err(failure) => match work.checked_add(failure.work) {
            Ok(sum) => Err(OperationFailure::new(BlobBuildError::Storage(failure.error), sum)),
            Err(error) => Err(OperationFailure::new(BlobBuildError::Work(error), work)),
        },
    }
}

/// Adds one object to a store within what is left of a budget.
fn build_put<S: ObjectStore>(
    store: &mut S,
    object: ObjectId,
    bytes: &[u8],
    live: u64,
    budget: WorkBudget,
    work: WorkCounters,
) -> (r: Result<WorkCounters, BlobBuildFailure>)
    requires
        object@ == object_named(object.kind, bytes@),
        live <= work.peak_allocation_bytes,
        live <= 2 * INDEX_BYTES,
    ensures
        extends(old(store).contents(), final(store).contents()),
        r is Ok ==> (final(store).contents())(object@) == Some(bytes@),
        !within(work, budget) ==> *final(store) == *old(store) && r == Err::<
            WorkCounters,
            BlobBuildFailure,
        >(OperationFailure { error: BlobBuildError::Work(WorkError::Exceeded), work }),
        within(work, budget) ==> {
            let put = final(store).puts().last();
            &&& final(store).puts() == old(store).puts().push(put)
            &&& put.object == object@ && put.bytes == bytes@
            &&& put.remaining == (WorkBudget {
                peak_allocation_bytes: (budget.peak_allocation_bytes - live) as u64,
                ..left_over(work, budget)
            })
            &&& r == put_settled(put.reply, work, live)
        },
        r is Ok ==> final(store).puts().len() == old(store).puts().len() + 1,
        forall|terms: BuildTerms| #[trigger]
            logged(final(store).puts(), terms.puts) && terms.budget == budget ==> r == put_made(
                terms,
                old(store).puts().len(),
                work,
                live,
            ),
        logged(old(store).puts(), final(store).puts()),
        r matches Err(failure) ==> storing_failed(
            failure.error,
            failure.work,
            old(store).puts(),
            final(store).puts(),
            budget,
        ),
{
    proof {
        reveal(put_made);
    }
    let ghost before = store.puts();
    let mut remaining = match work.remaining(budget) {
        Ok(remaining) => remaining,
        Err(error) => {
            proof {
                lemma_outside_is_spent_up(work, u32::MAX as u64, budget);
                assert(before.take(before.len() as int) =~= before);
            }
            return Err(OperationFailure::new(BlobBuildError::Work(error), work));
        },
    };
    remaining.peak_allocation_bytes = budget.peak_allocation_bytes - live;
    let reply = store.put(object, bytes, remaining);
    assert(store.puts().take(before.len() as int) =~= before);
    assert(store.puts().drop_last() =~= before);
    proof {
        assert forall|terms: BuildTerms| #[trigger]
            logged(store.puts(), terms.puts) implies terms.puts[before.len() as int]
            == store.puts().last() by {
            lemma_put_made(terms, before.len(), store.puts());
        }
    }
    settle_put(reply, work, live)
}

/// Encodes a page and adds it to a store.
fn put_blob_page<S: ObjectStore>(
    store: &mut S,
    page: &BlobPage,
    options: BlobBuildOptions,
    live: u64,
    budget: WorkBudget,
    work: &mut WorkCounters,
) -> (r: Result<ObjectId, BlobBuildFailure>)
    requires
        blob_page_problem(page@, options.page_items) is None,
        blob_bytes(page@).len() <= options.page_bytes,
        live <= INDEX_BYTES,
    ensures
        extends(old(store).contents(), final(store).contents()),
        logged(old(store).puts(), final(store).puts()),
        r matches Ok(object) ==> object@ == object_named(ObjectKind::Blob, blob_bytes(page@))
            && object.kind == ObjectKind::Blob && (final(store).contents())(object@) == Some(
            blob_bytes(page@),
        ),
        r is Ok ==> final(store).puts().len() == old(store).puts().len() + 1,
        forall|terms: BuildTerms| #[trigger]
            goes_by(terms, options, budget, final(store).puts()) ==> page_put(
                terms,
                old(store).puts().len(),
                *old(work),
                live,
                page@,
            ) == (match r {
                Ok(_) => Ok(*final(work)),
                Err(failure) => Err(failure),
            }),
        r matches Err(failure) ==> storing_failed(
            failure.error,
            failure.work,
            old(store).puts(),
            final(store).puts(),
            budget,
        ),
{
    proof {
        reveal(page_put);
    }
    assert(store.puts().take(store.puts().len() as int) =~= store.puts());
    let encoded = match encode_blob_page(page, options.page_items) {
        Ok(encoded) => encoded,
        Err(error) => {
            return Err(OperationFailure::new(BlobBuildError::Encode(error), *work));
        },
    };
    if encoded.len() > options.page_bytes as usize {
        return Err(
            OperationFailure::new(
                BlobBuildError::PageTooLarge {
                    observed: encoded.len() as u64,
                    maximum: options.page_bytes as u64,
                },
                *work,
            ),
        );
    }
    let object = object_id(ObjectKind::Blob, encoded.as_slice());
    let size = encoded.len() as u64;
    if size > u64::MAX - live {
        return Err(OperationFailure::new(BlobBuildError::TooLarge, *work));
    }
    let simultaneous: u64 = live + size;
    let mut counted = WorkCounters::of_page_writes(1);
    counted.bytes_encoded = size;
    counted.allocation_operations = 1;
    let prospective = match take_on(*work, counted, simultaneous, budget) {
        Ok(prospective) => prospective,
        Err(failure) => {
            return Err(failure);
        },
    };
    match build_put(store, object, encoded.as_slice(), simultaneous, budget, prospective) {
        Ok(sum) => {
            *work = sum;
            Ok(object)
        },
        Err(failure) => Err(failure),
    }
}

proof fn lemma_put_made(terms: BuildTerms, at: nat, puts: Seq<Put>)
    requires
        logged(puts, terms.puts),
    ensures
        at < puts.len() ==> terms.puts[at as int] == puts[at as int],
{
    if at < puts.len() {
        assert(terms.puts.take(puts.len() as int)[at as int] == puts[at as int]);
    }
}

/// Incremental index over chunks that come in order.
struct BlobIndexBuilder {
    options: BlobBuildOptions,
    width: usize,
    leaf: Vec<BlobChunkRef>,
    reserved: bool,
    levels: Vec<Vec<BlobChild>>,
    live: u64,
}

impl BlobIndexBuilder {
    /// References of every level.
    spec fn rows(&self) -> Seq<Seq<SpanView>> {
        level_views(self.levels@)
    }

    /// State of the build, given its work and the puts so far.
    spec fn state(&self, work: WorkCounters, puts: Seq<Put>) -> BuildView {
        BuildView {
            work,
            live: self.live,
            reserved: self.reserved,
            leaf: views(self.leaf@),
            rows: self.rows(),
            at: puts.len(),
        }
    }

    spec fn sized(&self) -> bool {
        &&& build_admitted(self.options)
        &&& self.width == page_width(self.options)->0
        &&& forall|i: int|
            0 <= i < self.levels@.len() ==> (#[trigger] self.levels@[i])@.len() < self.width
    }

    /// Whether the levels from one up are those above a row of references.
    spec fn stacked(&self, base: Seq<SpanView>, start: nat) -> bool {
        let width = self.width as int;
        let rows = self.rows();
        &&& start <= rows.len()
        &&& forall|k: nat|
            start + k < rows.len() ==> rows[(start + k) as int] == #[trigger] left_on(
                base,
                width,
                start + 1,
                k,
            )
        &&& level_row(base, width, start + 1, (rows.len() - start) as nat).len() == 0
        &&& start < rows.len() ==> level_row(
            base,
            width,
            start + 1,
            (rows.len() - start - 1) as nat,
        ).len() > 0
    }

    /// Whether the builder holds the chunks of a row.
    spec fn stands(&self, row: Seq<SpanView>) -> bool {
        let (pages, left) = grouped(row, self.width as int, 0);
        views(self.leaf@) == left && self.stacked(pages, 0)
    }

    /// Whether the builder takes little room.
    spec fn light(&self) -> bool {
        self.levels@.len() <= 66 && self.live <= 5_100_000_000 * (self.levels@.len() + if self.reserved {
            1int
        } else {
            0int
        })
    }

    /// Whether the builder leads to given bytes.
    spec fn leads_to(&self, objects: Objects, content: Seq<u8>) -> bool {
        &&& self.sized()
        &&& self.leaf@.len() <= self.width
        &&& levels_hold(objects, build_limits(self.options), self.rows(), content)
        &&& run_holds(
            objects,
            build_limits(self.options),
            views(self.leaf@),
            reach(self.rows(), 0),
            content.len() as int,
            content,
            0,
        )
        &&& self.levels@.len() > 0 ==> content.len() > 0
    }

    /// Whether the builder leads to given bytes together with a reference that is
    /// to go to a level, below which nothing waits.
    spec fn leads_with(
        &self,
        objects: Objects,
        content: Seq<u8>,
        level: nat,
        child: SpanView,
    ) -> bool {
        &&& self.sized()
        &&& self.leaf@.len() == 0
        &&& level <= self.levels@.len()
        &&& levels_hold(objects, build_limits(self.options), self.rows(), content)
        &&& forall|i: int| 0 <= i < level ==> (#[trigger] self.rows()[i]).len() == 0
        &&& child.first == reach(self.rows(), level)
        &&& child.end == content.len()
        &&& span_holds(objects, build_limits(self.options), child, content, level + 1)
    }

    /// Makes the page over the references of a level, which then has none.
    fn flush_internal<S: ObjectStore>(
        &mut self,
        store: &mut S,
        level: usize,
        budget: WorkBudget,
        work: &mut WorkCounters,
        Ghost(content): Ghost<Seq<u8>>,
    ) -> (r: Result<BlobChild, BlobBuildFailure>)
        requires
            build_admitted(old(self).options),
            old(self).width == page_width(old(self).options)->0,
            old(self).leaf@.len() == 0,
            level < old(self).levels@.len(),
            0 < old(self).rows()[level as int].len() <= old(self).width,
            forall|i: int|
                0 <= i < old(self).levels@.len() && i != level ==> (
                #[trigger] old(self).levels@[i])@.len() < old(self).width,
            levels_hold(
                old(store).contents(),
                build_limits(old(self).options),
                old(self).rows(),
                content,
            ),
            forall|i: int| 0 <= i < level ==> (#[trigger] old(self).rows()[i]).len() == 0,
            reach(old(self).rows(), level as nat) == content.len(),
            old(self).light(),
        ensures
            extends(old(store).contents(), final(store).contents()),
            logged(old(store).puts(), final(store).puts()),
            final(self).width == old(self).width,
            r is Ok ==> final(self).light() && final(self).reserved == old(self).reserved,
            r matches Ok(child) ==> child@ == page_reference(
                old(self).rows()[level as int],
                (level + 1) as nat,
            ),
            r is Ok ==> final(store).puts().len() == old(store).puts().len() + 1,
            forall|terms: BuildTerms| #[trigger]
                goes_by(terms, old(self).options, budget, final(store).puts()) ==> row_flushed(
                    terms,
                    old(self).state(*old(work), old(store).puts()),
                    level as int,
                ) == stepped(r, final(self).state(*final(work), final(store).puts())),
            match r {
                Ok(child) => final(self).leads_with(
                    final(store).contents(),
                    content,
                    (level + 1) as nat,
                    child@,
                ) && final(self).rows() == old(self).rows().update(level as int, Seq::empty())
                    && final(self).options == old(self).options,
                Err(failure) => storing_failed(
                    failure.error,
                    failure.work,
                    old(store).puts(),
                    final(store).puts(),
                    budget,
                ),
            },
    {
        let ghost rows = self.rows();
        let ghost limits = build_limits(self.options);
        let ghost objects = store.contents();
        let mut items: Vec<BlobChild> = Vec::new();
        std::mem::swap(&mut items, &mut self.levels[level]);
        let ghost spans = views(items@);
        let ghost from = reach(rows, (level + 1) as nat);
        let ghost to = content.len() as int;
        proof {
            assert(rows[level as int] == spans);
            assert(level_holds(objects, limits, rows, content, level as nat));
            assert(views(self.levels@[level as int]@) =~= Seq::<SpanView>::empty());
            assert(self.rows() =~= rows.update(level as int, Seq::<SpanView>::empty()));
            lemma_run_fits(
                objects,
                self.options,
                spans,
                from,
                to,
                content,
                (level + 1) as nat,
            );
        }
        let last = items.len() - 1;
        assert(spans[0] == items@[0]@);
        assert(spans.last() == items@[last as int]@);
        let page = BlobPage {
            first_offset: items[0].first_offset,
            end_offset: items[last].end_offset,
            node: BlobNode::Internal(items),
        };
        assert(page@ =~= page_over(spans, from, to, (level + 1) as nat));
        assert(page@ =~= page_of(spans, (level + 1) as nat));
        let object = match put_blob_page(store, &page, self.options, self.live, budget, work) {
            Ok(object) => object,
            Err(failure) => {
                return Err(failure);
            },
        };
        let child = BlobChild {
            first_offset: page.first_offset,
            end_offset: page.end_offset,
            page: object,
        };
        proof {
            let after = store.contents();
            let nothing = Seq::<u8>::empty();
            assert(content + nothing =~= content);
            lemma_run_holds_grows(
                objects,
                after,
                limits,
                spans,
                from,
                to,
                content,
                nothing,
                (level + 1) as nat,
            );
            lemma_page_holds(
                after,
                self.options,
                spans,
                from,
                to,
                content,
                (level + 1) as nat,
                object@,
            );
            lemma_levels_grow(objects, after, limits, rows, content, nothing);
            lemma_levels_replace(
                after,
                limits,
                rows,
                content,
                level as nat,
                Seq::<SpanView>::empty(),
            );
            let now = self.rows();
            lemma_reach_above(now, rows, (level + 1) as nat);
            assert(spans[0].first < spans[0].end);
            lemma_cover_within(spans, from as u64, to as u64);
        }
        Ok(child)
    }

    /// Puts a reference on a level, and makes pages of the levels that fill up.
    #[verifier::rlimit(100)]
    fn push_child<S: ObjectStore>(
        &mut self,
        store: &mut S,
        start: usize,
        first: BlobChild,
        budget: WorkBudget,
        work: &mut WorkCounters,
        Ghost(content): Ghost<Seq<u8>>,
        Ghost(base): Ghost<Seq<SpanView>>,
    ) -> (r: Result<(), BlobBuildFailure>)
        requires
            old(self).leads_with(old(store).contents(), content, start as nat, first@),
            old(self).stacked(base, start as nat),
            old(self).light(),
            old(self).levels@.len() <= 65,
        ensures
            extends(old(store).contents(), final(store).contents()),
            logged(old(store).puts(), final(store).puts()),
            final(self).width == old(self).width,
            forall|terms: BuildTerms| #[trigger]
                goes_by(terms, old(self).options, budget, final(store).puts()) ==> index_pushed(
                    terms,
                    old(self).state(*old(work), old(store).puts()),
                    start as int,
                    first@,
                ) == stepped(r, final(self).state(*final(work), final(store).puts())),
            match r {
                Ok(()) => {
                    &&& final(self).stacked(base.push(first@), start as nat)
                    &&& final(self).light()
                    &&& final(self).reserved == old(self).reserved
                    &&& final(self).rows().len() <= old(self).rows().len() + 1
                    &&& final(self).rows().len() > old(self).rows().len() ==> waiting(
                        final(self).rows(),
                    ) == 1
                    &&& final(self).leads_to(final(store).contents(), content)
                    &&& final(self).leaf@.len() == 0
                    &&& final(self).options == old(self).options
                    &&& forall|i: int|
                        0 <= i < start ==> (#[trigger] final(self).rows()[i]).len() == 0
                    &&& final(self).rows().len() > start
                    &&& waiting(final(self).rows()) <= waiting(old(self).rows()) + 1
                    &&& waiting(final(self).rows()) == waiting(old(self).rows()) + 1
                        ==> final(self).rows().len() == (if start < old(self).rows().len() {
                        old(self).rows().len()
                    } else {
                        start as nat + 1
                    })
                },
                Err(failure) => storing_failed(
                    failure.error,
                    failure.work,
                    old(store).puts(),
                    final(store).puts(),
                    budget,
                ),
            },
    {
        let ghost begun = self.rows();
        let ghost before = store.contents();
        let ghost log = store.puts();
        let ghost options = self.options;
        let ghost width = self.width as int;
        let ghost height = (start + 1) as nat;
        let ghost longer_base = base.push(first@);
        let ghost mut flushed: bool = false;
        let ghost first_state = self.state(*work, log);
        proof {
            assert(log.take(log.len() as int) =~= log);
            assert(level_row(longer_base, width, height, 0) == level_row(base, width, height, 0).push(
                first@,
            ));
        }
        let mut level: usize = start;
        let mut child = first;
        loop
            invariant
                forall|terms: BuildTerms| #[trigger]
                    goes_by(terms, options, budget, store.puts()) ==> index_pushed(
                        terms,
                        first_state,
                        start as int,
                        first@,
                    ) == index_pushed(
                        terms,
                        self.state(*work, store.puts()),
                        level as int,
                        child@,
                    ),
                first_state == old(self).state(*old(work), old(store).puts()),
                self.leads_with(store.contents(), content, level as nat, child@),
                extends(before, store.contents()),
                before == old(store).contents(),
                begun == old(self).rows(),
                self.options == options,
                options == old(self).options,
                start <= level,
                waiting(self.rows()) <= waiting(begun),
                flushed ==> waiting(self.rows()) < waiting(begun),
                !flushed ==> level == start && self.rows() == begun,
                logged(log, store.puts()),
                log == old(store).puts(),
                self.light(),
                self.levels@.len() <= 65,
                self.levels@.len() == begun.len(),
                self.width == width,
                width == old(self).width,
                self.reserved == old(self).reserved,
                height == start + 1,
                longer_base == base.push(first@),
                level_row(longer_base, width, height, (level - start) as nat) == level_row(
                    base,
                    width,
                    height,
                    (level - start) as nat,
                ).push(child@),
                forall|k: nat|
                    k < level - start ==> (#[trigger] left_on(longer_base, width, height, k)).len()
                        == 0,
                forall|k: nat|
                    level <= start + k && start + k < self.rows().len() ==> self.rows()[(start
                        + k) as int] == #[trigger] left_on(base, width, height, k),
                level_row(base, width, height, (self.rows().len() - start) as nat).len() == 0,
                start < self.rows().len() ==> level_row(
                    base,
                    width,
                    height,
                    (self.rows().len() - start - 1) as nat,
                ).len() > 0,
            decreases self.levels@.len() + 1 - level,
        {
            let ghost at = (level - start) as nat;
            let ghost grown = level == self.levels@.len();
            let ghost begins = self.state(*work, store.puts());
            proof {
                assert forall|terms: BuildTerms| #[trigger]
                    goes_by(terms, options, budget, store.puts()) implies index_pushed(
                    terms,
                    first_state,
                    start as int,
                    first@,
                ) == pushed_step(terms, begins, level as int, child@) by {
                    lemma_pushed_step(terms, begins, level as int, child@);
                }
            }
            let ghost objects = store.contents();
            let ghost limits = build_limits(self.options);
            if level == self.levels.len() {
                let ghost rows = self.rows();
                let (live, spent) = match claim(self.live, BLOB_LEVEL_BYTES, *work, budget) {
                    Ok(claimed) => claimed,
                    Err(failure) => {
                        return Err(failure);
                    },
                };
                let bytes: u64 = self.width as u64 * BLOB_ITEM_BYTES;
                let (live, spent) = match claim(live, bytes, spent, budget) {
                    Ok(claimed) => claimed,
                    Err(failure) => {
                        return Err(failure);
                    },
                };
                self.live = live;
                *work = spent;
                self.levels.push(Vec::new());
                proof {
                    let taller = self.rows();
                    assert(views(self.levels@[level as int]@) =~= Seq::<SpanView>::empty());
                    assert(taller =~= rows.push(Seq::<SpanView>::empty()));
                    lemma_levels_push(objects, limits, rows, content);
                    lemma_reach_push(rows, level as nat);
                    assert(taller.drop_last() =~= rows);
                    lemma_waiting_none(rows);
                    assert(left_on(base, width, height, at) =~= Seq::<SpanView>::empty());
                    assert(level_row(base, width, height, at + 1).len() == 0);
                }
            }
            let ghost rows = self.rows();
            let ghost row = rows[level as int];
            self.levels[level].push(child);
            let ghost laid = self.state(*work, store.puts());
            assert(grown ==> row.len() == 0);
            assert(!grown ==> rows == begins.rows && laid == BuildView {
                rows: laid.rows,
                ..begins
            });
            proof {
                assert(views(self.levels@[level as int]@) =~= row.push(child@));
                assert(self.rows() =~= rows.update(level as int, row.push(child@)));
                assert(laid.rows == rows.update(level as int, row.push(child@)));
                assert(row.push(child@) =~= Seq::<SpanView>::empty().push(child@) || row.len() > 0);
                assert(views(self.levels@[level as int]@) =~= row.push(child@));
                assert(self.rows() =~= rows.update(level as int, row.push(child@)));
                assert(level_holds(objects, limits, rows, content, level as nat));
                lemma_run_holds_push(
                    objects,
                    limits,
                    row,
                    reach(rows, (level + 1) as nat),
                    content,
                    (level + 1) as nat,
                    child@,
                );
                lemma_levels_replace(
                    objects,
                    limits,
                    rows,
                    content,
                    level as nat,
                    row.push(child@),
                );
                lemma_waiting_update(rows, level as int, row.push(child@));
                assert(start + at == level);
                assert(row == left_on(base, width, height, at));
                lemma_grouped_push(
                    level_row(base, width, height, at),
                    child@,
                    width,
                    height + at,
                );
                assert(level_row(longer_base, width, height, at + 1) == grouped(
                    level_row(longer_base, width, height, at),
                    width,
                    height + at,
                ).0);
                assert(level_row(base, width, height, at + 1) == grouped(
                    level_row(base, width, height, at),
                    width,
                    height + at,
                ).0);
            }
            if self.levels[level].len() < self.width {
                proof {
                    let nothing = views(self.leaf@);
                    assert(nothing.len() == 0);
                    let now = self.rows();
                    assert forall|k: nat| start + k < now.len() implies now[(start + k) as int]
                        == #[trigger] left_on(longer_base, width, height, k) by {
                        if k < at {
                            assert(left_on(longer_base, width, height, k).len() == 0);
                            assert(rows[(start + k) as int].len() == 0);
                            assert(now[(start + k) as int] =~= left_on(
                                longer_base,
                                width,
                                height,
                                k,
                            ));
                        } else if k > at {
                            lemma_levels_agree(longer_base, base, width, height, at + 1, k);
                            assert(rows[(start + k) as int] == left_on(base, width, height, k));
                        }
                    }
                    let top = (now.len() - start) as nat;
                    lemma_levels_agree(longer_base, base, width, height, at + 1, top);
                    if top > at + 1 {
                        lemma_levels_agree(
                            longer_base,
                            base,
                            width,
                            height,
                            at + 1,
                            (top - 1) as nat,
                        );
                    }
                    assert(self.stacked(longer_base, start as nat));
                }
                return Ok(());
            }
            let ghost full = self.rows();
            let ghost mid = store.puts();
            assert(row.push(child@).len() == width);
            let flushing = self.flush_internal(store, level, budget, work, Ghost(content));
            proof {
                lemma_logged(log, mid, store.puts());
                assert forall|terms: BuildTerms| #[trigger]
                    goes_by(terms, options, budget, store.puts()) implies index_pushed(
                    terms,
                    first_state,
                    start as int,
                    first@,
                ) == (match stepped(flushing, self.state(*work, store.puts())) {
                    Err(failure) => Err(failure),
                    Ok(after) => index_pushed(
                        terms,
                        after,
                        level + 1,
                        page_reference(row.push(child@), (level + 1) as nat),
                    ),
                }) by {
                    lemma_goes_by(terms, options, budget, mid, store.puts());
                    assert(!grown);
                }
            }
            child = match flushing {
                Ok(child) => child,
                Err(failure) => {
                    return Err(failure);
                },
            };
            proof {
                lemma_waiting_update(full, level as int, Seq::<SpanView>::empty());
                flushed = true;
                assert(height + at == level + 1);
                assert(left_on(longer_base, width, height, at).len() == 0);
                let now = self.rows();
                assert forall|k: nat|
                    level + 1 <= start + k && start + k < now.len() implies now[(start + k) as int]
                    == #[trigger] left_on(base, width, height, k) by {
                    assert(rows[(start + k) as int] == left_on(base, width, height, k));
                }
            }
            level = level + 1;
        }
    }

    /// Makes the page over the chunks that wait.
    fn flush_leaf<S: ObjectStore>(
        &mut self,
        store: &mut S,
        budget: WorkBudget,
        work: &mut WorkCounters,
        Ghost(content): Ghost<Seq<u8>>,
        Ghost(base): Ghost<Seq<SpanView>>,
    ) -> (r: Result<(), BlobBuildFailure>)
        requires
            old(self).leads_to(old(store).contents(), content),
            old(self).stacked(base, 0),
            old(self).light(),
            old(self).levels@.len() <= 65,
        ensures
            extends(old(store).contents(), final(store).contents()),
            logged(old(store).puts(), final(store).puts()),
            final(self).width == old(self).width,
            forall|terms: BuildTerms| #[trigger]
                goes_by(terms, old(self).options, budget, final(store).puts()) ==> leaf_flushed(
                    terms,
                    old(self).state(*old(work), old(store).puts()),
                ) == stepped(r, final(self).state(*final(work), final(store).puts())),
            match r {
                Ok(()) => {
                    &&& final(self).leads_to(final(store).contents(), content)
                    &&& final(self).leaf@.len() == 0
                    &&& final(self).options == old(self).options
                    &&& final(self).light()
                    &&& final(self).reserved == old(self).reserved
                    &&& final(self).stacked(
                        if old(self).leaf@.len() == 0 {
                            base
                        } else {
                            base.push(page_reference(views(old(self).leaf@), 0))
                        },
                        0,
                    )
                },
                Err(failure) => storing_failed(
                    failure.error,
                    failure.work,
                    old(store).puts(),
                    final(store).puts(),
                    budget,
                ),
            },
    {
        proof {
            reveal(leaf_flushed);
        }
        assert(store.puts().take(store.puts().len() as int) =~= store.puts());
        if self.leaf.len() == 0 {
            return Ok(());
        }
        let ghost log = store.puts();
        let ghost rows = self.rows();
        let ghost limits = build_limits(self.options);
        let ghost objects = store.contents();
        let ghost from = reach(rows, 0);
        let ghost to = content.len() as int;
        let mut items: Vec<BlobChunkRef> = Vec::new();
        std::mem::swap(&mut items, &mut self.leaf);
        let ghost spans = views(items@);
        proof {
            lemma_run_fits(objects, self.options, spans, from, to, content, 0);
        }
        let last = items.len() - 1;
        assert(spans[0] == items@[0]@);
        assert(spans.last() == items@[last as int]@);
        let page = BlobPage {
            first_offset: items[0].first_offset,
            end_offset: items[last].end_offset,
            node: BlobNode::Leaf(items),
        };
        assert(page@ =~= page_over(spans, from, to, 0));
        assert(page@ =~= page_of(spans, 0));
        let object = match put_blob_page(store, &page, self.options, self.live, budget, work) {
            Ok(object) => object,
            Err(failure) => {
                return Err(failure);
            },
        };
        let child = BlobChild {
            first_offset: page.first_offset,
            end_offset: page.end_offset,
            page: object,
        };
        proof {
            let after = store.contents();
            let nothing = Seq::<u8>::empty();
            assert(content + nothing =~= content);
            lemma_run_holds_grows(objects, after, limits, spans, from, to, content, nothing, 0);
            lemma_page_holds(after, self.options, spans, from, to, content, 0, object@);
            lemma_levels_grow(objects, after, limits, rows, content, nothing);
            assert(spans[0].first < spans[0].end);
            lemma_cover_within(spans, from as u64, to as u64);
        }
        let ghost mid = store.puts();
        let ghost swapped = self.state(*work, mid);
        let ghost options = self.options;
        assert(views(self.leaf@) =~= Seq::<SpanView>::empty());
        let pushed = self.push_child(store, 0, child, budget, work, Ghost(content), Ghost(base));
        proof {
            lemma_logged(log, mid, store.puts());
            assert forall|terms: BuildTerms| #[trigger]
                goes_by(terms, options, budget, store.puts()) implies leaf_flushed(
                terms,
                old(self).state(*old(work), log),
            ) == index_pushed(terms, swapped, 0, child@) by {
                lemma_goes_by(terms, options, budget, mid, store.puts());
            }
        }
        pushed
    }

    /// Takes the next chunk.
    fn push_chunk<S: ObjectStore>(
        &mut self,
        store: &mut S,
        chunk: BlobChunkRef,
        budget: WorkBudget,
        work: &mut WorkCounters,
        Ghost(content): Ghost<Seq<u8>>,
        Ghost(more): Ghost<Seq<u8>>,
        Ghost(row): Ghost<Seq<SpanView>>,
    ) -> (r: Result<(), BlobBuildFailure>)
        requires
            old(self).stands(row),
            old(self).light(),
            row.len() <= u64::MAX,
            old(self).leads_to(old(store).contents(), content),
            old(self).leaf@.len() < old(self).width,
            chunk.first_offset == content.len(),
            chunk.end_offset == content.len() + more.len(),
            more.len() > 0,
            chunk.chunk.kind == ObjectKind::BlobChunk,
            (old(store).contents())(chunk.chunk@) == Some(more),
        ensures
            extends(old(store).contents(), final(store).contents()),
            logged(old(store).puts(), final(store).puts()),
            forall|terms: BuildTerms| #[trigger]
                goes_by(terms, old(self).options, budget, final(store).puts()) ==> chunk_taken(
                    terms,
                    old(self).state(*old(work), old(store).puts()),
                    chunk@,
                ) == stepped(r, final(self).state(*final(work), final(store).puts())),
            match r {
                Ok(()) => final(self).leads_to(final(store).contents(), content + more)
                    && final(self).leaf@.len() < final(self).width && final(self).options
                    == old(self).options && final(self).stands(row.push(chunk@))
                    && final(self).light(),
                Err(failure) => storing_failed(
                    failure.error,
                    failure.work,
                    old(store).puts(),
                    final(store).puts(),
                    budget,
                ),
            },
    {
        let ghost pages = grouped(row, self.width as int, 0).0;
        proof {
            reveal(chunk_taken);
            assert(store.puts().take(store.puts().len() as int) =~= store.puts());
            lemma_grouped_sizes(row, self.width as int, 0);
            lemma_grouped_push(row, chunk@, self.width as int, 0);
            if self.rows().len() > 0 {
                lemma_few_levels(
                    pages,
                    self.width as int,
                    1,
                    (self.rows().len() - 1) as nat,
                );
            }
        }
        if !self.reserved {
            let bytes: u64 = self.width as u64 * BLOB_ITEM_BYTES;
            let (live, spent) = match claim(self.live, bytes, *work, budget) {
                Ok(claimed) => claimed,
                Err(failure) => {
                    return Err(failure);
                },
            };
            self.live = live;
            *work = spent;
            self.reserved = true;
        }
        let ghost objects = store.contents();
        let ghost limits = build_limits(self.options);
        let ghost spans = views(self.leaf@);
        let ghost from = reach(self.rows(), 0);
        let ghost whole = content + more;
        self.leaf.push(chunk);
        proof {
            assert(views(self.leaf@) =~= spans.push(chunk@));
            assert(whole.subrange(content.len() as int, whole.len() as int) =~= more);
            lemma_levels_grow(objects, objects, limits, self.rows(), content, more);
            lemma_run_holds_grows(
                objects,
                objects,
                limits,
                spans,
                from,
                content.len() as int,
                content,
                more,
                0,
            );
            lemma_run_holds_push(objects, limits, spans, from, whole, 0, chunk@);
        }
        assert(self.stacked(pages, 0));
        if self.leaf.len() == self.width {
            let flushed = self.flush_leaf(store, budget, work, Ghost(whole), Ghost(pages));
            assert(views(self.leaf@).len() == 0 ==> views(self.leaf@) =~= Seq::<SpanView>::empty());
            flushed
        } else {
            Ok(())
        }
    }

    /// Tells whether nothing waits above a level.
    fn higher_is_empty(&self, level: usize) -> (r: bool)
        requires
            level < self.levels@.len(),
        ensures
            r == forall|i: int|
                level < i < self.rows().len() ==> (#[trigger] self.rows()[i]).len() == 0,
    {
        let size: usize = self.levels.len();
        let mut i: usize = level + 1;
        while i < size
            invariant
                level < i <= self.levels@.len(),
                size == self.levels@.len(),
                forall|j: int| level < j < i ==> (#[trigger] self.rows()[j]).len() == 0,
            decreases size - i,
        {
            assert(self.rows()[i as int].len() == self.levels@[i as int]@.len());
            if self.levels[i].len() != 0 {
                return false;
            }
            i = i + 1;
        }
        true
    }

    /// Makes the pages over everything that waits, up to the root.
    fn finish<S: ObjectStore>(
        &mut self,
        store: &mut S,
        budget: WorkBudget,
        work: &mut WorkCounters,
        Ghost(content): Ghost<Seq<u8>>,
        Ghost(row): Ghost<Seq<SpanView>>,
    ) -> (r: Result<ObjectId, BlobBuildFailure>)
        requires
            old(self).leads_to(old(store).contents(), content),
            old(self).stands(row),
            old(self).light(),
            row.len() <= u64::MAX,
        ensures
            extends(old(store).contents(), final(store).contents()),
            logged(old(store).puts(), final(store).puts()),
            forall|terms: BuildTerms| #[trigger]
                goes_by(terms, old(self).options, budget, final(store).puts()) ==> index_finished(
                    terms,
                    old(self).state(*old(work), old(store).puts()),
                ) == (match r {
                    Ok(root) => Ok((root@, *final(work))),
                    Err(failure) => Err(failure),
                }),
            r matches Ok(root) ==> root@ == if row.len() == 0 {
                object_named(ObjectKind::Blob, blob_bytes(page_over(Seq::empty(), 0, 0, 0)))
            } else {
                top_page(
                    pages_over(row, old(self).width as int, 0),
                    old(self).width as int,
                    1,
                )
            },
            match r {
                Ok(root) => root.kind == ObjectKind::Blob && exists|height: nat| #[trigger]
                    blob_holds(
                        final(store).contents(),
                        build_limits(old(self).options),
                        root@,
                        0,
                        content.len() as int,
                        content,
                        height,
                    ),
                Err(failure) => storing_failed(
                    failure.error,
                    failure.work,
                    old(store).puts(),
                    final(store).puts(),
                    budget,
                ),
            },
    {
        let ghost options = self.options;
        let ghost limits = build_limits(options);
        let ghost before = store.contents();
        let ghost log = store.puts();
        let ghost width = self.width as int;
        let ghost pages = grouped(row, width, 0).0;
        let ghost first_state = self.state(*work, log);
        proof {
            reveal(index_finished);
            assert(log.take(log.len() as int) =~= log);
            lemma_grouped_sizes(row, width, 0);
            lemma_grouped_none(row, width, 0);
            if self.rows().len() > 0 {
                lemma_few_levels(pages, width, 1, (self.rows().len() - 1) as nat);
            }
        }
        if self.leaf.len() == 0 && self.levels.len() == 0 {
            assert(row.len() == 0);
            let page = BlobPage {
                first_offset: 0,
                end_offset: 0,
                node: BlobNode::Leaf(Vec::new()),
            };
            let ghost spans = Seq::<SpanView>::empty();
            proof {
                assert(page@ =~= page_over(spans, 0, 0, 0));
                lemma_run_fits(before, options, spans, 0, 0, content, 0);
            }
            let root = put_blob_page(store, &page, self.options, self.live, budget, work);
            proof {
                if let Ok(object) = root {
                    let after = store.contents();
                    lemma_page_holds(after, options, spans, 0, 0, content, 0, object@);
                    assert(content.subrange(0, 0) =~= content);
                }
            }
            return root;
        }
        assert(content.len() > 0) by {
            if self.leaf@.len() > 0 {
                let spans = views(self.leaf@);
                assert(span_holds(before, limits, spans[0], content, 0));
            }
        }
        assert(row.len() > 0) by {
            if row.len() == 0 {
                assert(level_row(pages, width, 1, 0).len() == 0);
                if self.rows().len() > 0 {
                    lemma_level_empty(pages, width, 1, 0, (self.rows().len() - 1) as nat);
                }
                assert(views(self.leaf@).len() == 0);
            }
        }
        if let Err(failure) = self.flush_leaf(store, budget, work, Ghost(content), Ghost(pages)) {
            return Err(failure);
        }
        let ghost mut base = pages_over(row, width, 0);
        let ghost goal = top_page(base, width, 1);
        proof {
            if self.rows().len() > 0 {
                lemma_grouped_sizes(row, width, 0);
                lemma_few_levels(base, width, 1, (self.rows().len() - 1) as nat);
            }
        }
        let mut level: usize = 0;
        while level < self.levels.len()
            invariant
                forall|terms: BuildTerms| #[trigger]
                    goes_by(terms, options, budget, store.puts()) ==> index_finished(
                        terms,
                        first_state,
                    ) == levels_finished(terms, self.state(*work, store.puts()), level as int),
                first_state == old(self).state(*old(work), old(store).puts()),
                self.leads_to(store.contents(), content),
                self.leaf@.len() == 0,
                self.options == options,
                options == old(self).options,
                limits == build_limits(options),
                extends(before, store.contents()),
                before == old(store).contents(),
                content.len() > 0,
                level <= self.levels@.len(),
                forall|i: int| 0 <= i < level ==> (#[trigger] self.rows()[i]).len() == 0,
                logged(log, store.puts()),
                log == old(store).puts(),
                self.width == width,
                width == old(self).width,
                self.light(),
                self.levels@.len() <= 65 || waiting(self.rows()) == 1,
                self.stacked(base, level as nat),
                base.len() > 0,
                row.len() > 0,
                top_page(base, width, (level + 1) as nat) == goal,
                goal == top_page(pages_over(row, width, 0), width, 1),
            decreases waiting(self.rows()), self.levels@.len() - level,
        {
            let ghost height = (level + 1) as nat;
            let ghost above = pages_over(base, width, height);
            let ghost begins = self.state(*work, store.puts());
            let ghost here = store.puts();
            proof {
                assert forall|terms: BuildTerms| #[trigger]
                    goes_by(terms, options, budget, here) implies index_finished(
                    terms,
                    first_state,
                ) == finish_step(terms, begins, level as int) by {
                    lemma_finish_step(terms, begins, level as int);
                }
                lemma_grouped_sizes(base, width, height);
                lemma_grouped_none(base, width, height);
                assert(left_on(base, width, height, 0) == grouped(base, width, height).1);
                assert(self.rows()[(level + 0) as int] == left_on(base, width, height, 0));
            }
            let ghost rows = self.rows();
            let ghost objects = store.contents();
            assert(rows[level as int].len() == self.levels@[level as int]@.len());
            if self.levels[level].len() == 0 {
                proof {
                    if base.len() == 1 {
                        assert(grouped(base, width, height).0.len() == 0);
                    }
                    lemma_stacked_up(*self, base, level as nat);
                    base = above;
                }
                level = level + 1;
            } else {
                proof {
                    lemma_reach_below(rows, 0, level as nat);
                    assert(level_holds(objects, limits, rows, content, level as nat));
                }
                let count = self.levels[level].len();
                let alone = self.higher_is_empty(level);
                if alone && count == 1 {
                    let root = self.levels[level][0].page;
                    proof {
                        let spans = rows[level as int];
                        lemma_reach_below(rows, (level + 1) as nat, rows.len());
                        assert(spans[0] == self.levels@[level as int]@[0]@);
                        assert(span_holds(objects, limits, spans[0], content, (level + 1) as nat));
                        assert(content.subrange(0, content.len() as int) =~= content);
                        let top = (rows.len() - level) as nat;
                        assert forall|k: nat| 1 <= k < top implies (
                        #[trigger] left_on(base, width, height, k)).len() == 0 by {
                            assert(rows[(level + k) as int].len() == 0);
                        }
                        lemma_nothing_above(base, width, height, 1, top);
                        assert(level_row(base, width, height, 1) == grouped(
                            base,
                            width,
                            height,
                        ).0) by {
                            assert(level_row(base, width, height, 0) == base);
                        }
                        assert(base == spans);
                    }
                    return Ok(root);
                }
                proof {
                    if base.len() == 1 {
                        lemma_alone(*self, base, level as nat);
                    }
                    if waiting(rows) == 1 {
                        lemma_waiting_alone(rows, level as int);
                    }
                    lemma_stacked_up(*self, base, level as nat);
                }
                let ghost full = *self;
                let ghost mid = store.puts();
                let flushing = self.flush_internal(store, level, budget, work, Ghost(content));
                proof {
                    lemma_logged(log, mid, store.puts());
                    assert forall|terms: BuildTerms| #[trigger]
                        goes_by(terms, options, budget, store.puts()) implies index_finished(
                        terms,
                        first_state,
                    ) == finish_pushed(
                        terms,
                        begins,
                        level as int,
                        stepped(flushing, self.state(*work, store.puts())),
                    ) by {
                        lemma_goes_by(terms, options, budget, here, store.puts());
                    }
                }
                let child = match flushing {
                    Ok(child) => child,
                    Err(failure) => {
                        return Err(failure);
                    },
                };
                let ghost flushed_at = self.state(*work, store.puts());
                let ghost lower = grouped(base, width, height).0;
                proof {
                    lemma_waiting_update(rows, level as int, Seq::<SpanView>::empty());
                    let now = self.rows();
                    assert forall|k: nat| level + 1 + k < now.len() implies now[(level + 1
                        + k) as int] == #[trigger] left_on(lower, width, (level + 2) as nat, k) by {
                        assert(full.rows()[(level + 1 + k) as int] == left_on(
                            lower,
                            width,
                            (level + 2) as nat,
                            k,
                        ));
                    }
                    assert(self.stacked(lower, (level + 1) as nat));
                }
                let ghost mid = store.puts();
                let pushing = self.push_child(
                    store,
                    level + 1,
                    child,
                    budget,
                    work,
                    Ghost(content),
                    Ghost(lower),
                );
                proof {
                    lemma_logged(log, mid, store.puts());
                    assert forall|terms: BuildTerms| #[trigger]
                        goes_by(terms, options, budget, store.puts()) implies index_finished(
                        terms,
                        first_state,
                    ) == finish_on(
                        terms,
                        begins,
                        level as int,
                        stepped(pushing, self.state(*work, store.puts())),
                    ) by {
                        lemma_goes_by(terms, options, budget, mid, store.puts());
                    }
                }
                if let Err(failure) = pushing {
                    return Err(failure);
                }
                proof {
                    base = above;
                }
                level = level + 1;
            }
        }
        proof {
            lemma_reach_below(self.rows(), 0, self.rows().len());
        }
        proof {
            assert forall|terms: BuildTerms| #[trigger]
                goes_by(terms, options, budget, store.puts()) implies index_finished(
                terms,
                first_state,
            ) == finish_step(terms, self.state(*work, store.puts()), level as int) by {
                lemma_finish_step(terms, self.state(*work, store.puts()), level as int);
            }
        }
        Err(OperationFailure::new(BlobBuildError::InvalidIndexState, *work))
    }
}

/// What comes of putting a reference on a level, in terms of the next level.
spec fn pushed_step(terms: BuildTerms, state: BuildView, level: int, child: SpanView) -> Result<
    BuildView,
    BlobBuildFailure,
> {
    if !(0 <= level < state.rows.len()) {
        match level_added(terms, state) {
            Err(failure) => Err(failure),
            Ok(next) => Ok(BuildView { rows: next.rows.update(level, seq![child]), ..next }),
        }
    } else {
        let row = state.rows[level].push(child);
        let next = BuildView { rows: state.rows.update(level, row), ..state };
        if row.len() < page_width(terms.options)->0 {
            Ok(next)
        } else {
            match row_flushed(terms, next, level) {
                Err(failure) => Err(failure),
                Ok(after) => index_pushed(
                    terms,
                    after,
                    level + 1,
                    page_reference(row, (level + 1) as nat),
                ),
            }
        }
    }
}

proof fn lemma_pushed_step(terms: BuildTerms, state: BuildView, level: int, child: SpanView)
    ensures
        index_pushed(terms, state, level, child) == pushed_step(terms, state, level, child),
{
    reveal(index_pushed);
}

/// What comes of making pages from a level on, in terms of the next level.
spec fn finish_step(terms: BuildTerms, state: BuildView, level: int) -> Result<
    (ObjectView, WorkCounters),
    BlobBuildFailure,
> {
    if level >= state.rows.len() {
        Err(OperationFailure { error: BlobBuildError::InvalidIndexState, work: state.work })
    } else if state.rows[level].len() == 0 {
        levels_finished(terms, state, level + 1)
    } else if stands_alone(state.rows, level) {
        Ok((state.rows[level][0].object, state.work))
    } else {
        finish_pushed(terms, state, level, row_flushed(terms, state, level))
    }
}

/// What comes of a level whose page was put.
spec fn finish_pushed(
    terms: BuildTerms,
    state: BuildView,
    level: int,
    flushed: Result<BuildView, BlobBuildFailure>,
) -> Result<(ObjectView, WorkCounters), BlobBuildFailure> {
    match flushed {
        Err(failure) => Err(failure),
        Ok(next) => finish_on(
            terms,
            state,
            level,
            index_pushed(
                terms,
                next,
                level + 1,
                page_reference(state.rows[level], (level + 1) as nat),
            ),
        ),
    }
}

/// What comes of a level whose page went to the next one.
spec fn finish_on(
    terms: BuildTerms,
    state: BuildView,
    level: int,
    pushed: Result<BuildView, BlobBuildFailure>,
) -> Result<(ObjectView, WorkCounters), BlobBuildFailure> {
    match pushed {
        Err(failure) => Err(failure),
        Ok(after) => if state.at < after.at <= terms.puts.len() {
            levels_finished(terms, after, level + 1)
        } else {
            Err(
                OperationFailure { error: BlobBuildError::InvalidIndexState, work: after.work },
            )
        },
    }
}

proof fn lemma_finish_step(terms: BuildTerms, state: BuildView, level: int)
    ensures
        levels_finished(terms, state, level) == finish_step(terms, state, level),
{
    reveal(levels_finished);
}

/// What stands above a row stands above its full pages, a level higher.
proof fn lemma_stacked_up(builder: BlobIndexBuilder, base: Seq<SpanView>, start: nat)
    requires
        builder.stacked(base, start),
        start < builder.rows().len(),
    ensures
        builder.stacked(grouped(base, builder.width as int, start + 1).0, start + 1),
{
    let width = builder.width as int;
    let height = start + 1;
    let rows = builder.rows();
    let pages = grouped(base, width, height).0;
    assert forall|k: nat| start + 1 + k < rows.len() implies rows[(start + 1 + k) as int]
        == #[trigger] left_on(pages, width, height + 1, k) by {
        lemma_level_up(base, width, height, k);
        assert(start + (k + 1) == start + 1 + k);
        assert(rows[(start + (k + 1)) as int] == left_on(base, width, height, k + 1));
    }
    let top = (rows.len() - start - 1) as nat;
    lemma_level_up(base, width, height, top);
    if top > 0 {
        lemma_level_up(base, width, height, (top - 1) as nat);
    }
}

/// Above a single reference nothing waits.
proof fn lemma_alone(builder: BlobIndexBuilder, base: Seq<SpanView>, start: nat)
    requires
        builder.stacked(base, start),
        start < builder.rows().len(),
        builder.width >= 2,
        base.len() == 1,
    ensures
        builder.rows()[start as int].len() == 1,
        forall|i: int| start < i < builder.rows().len() ==> (#[trigger] builder.rows()[i]).len() == 0,
{
    let width = builder.width as int;
    let height = start + 1;
    let rows = builder.rows();
    lemma_grouped_sizes(base, width, height);
    lemma_grouped_none(base, width, height);
    assert(level_row(base, width, height, 0) == base);
    assert(rows[(start + 0) as int] == left_on(base, width, height, 0));
    assert forall|i: int| start < i < rows.len() implies (#[trigger] rows[i]).len() == 0 by {
        let k = (i - start) as nat;
        assert(level_row(base, width, height, 1).len() == 0);
        lemma_level_empty(base, width, height, 1, k);
        assert(rows[(start + k) as int] == left_on(base, width, height, k));
    }
}

proof fn lemma_waiting_none(levels: Seq<Seq<SpanView>>)
    requires
        forall|i: int| 0 <= i < levels.len() ==> (#[trigger] levels[i]).len() == 0,
    ensures
        waiting(levels) == 0,
        waiting(levels.push(Seq::empty())) == 0,
    decreases levels.len(),
{
    assert(levels.push(Seq::<SpanView>::empty()).drop_last() =~= levels);
    if levels.len() > 0 {
        lemma_waiting_none(levels.drop_last());
    }
}

/// Where one reference waits, all other levels are empty.
proof fn lemma_waiting_alone(levels: Seq<Seq<SpanView>>, at: int)
    requires
        0 <= at < levels.len(),
        waiting(levels) == 1,
        levels[at].len() > 0,
    ensures
        levels[at].len() == 1,
        forall|i: int| at < i < levels.len() ==> (#[trigger] levels[i]).len() == 0,
{
    let nothing = Seq::<SpanView>::empty();
    lemma_waiting_update(levels, at, nothing);
    assert forall|i: int| at < i < levels.len() implies (#[trigger] levels[i]).len() == 0 by {
        lemma_waiting_update(levels.update(at, nothing), i, nothing);
        assert(levels.update(at, nothing)[i] == levels[i]);
    }
}

/// An empty level on top leads to nothing more.
proof fn lemma_levels_push(
    objects: Objects,
    limits: DecodeLimits,
    levels: Seq<Seq<SpanView>>,
    content: Seq<u8>,
)
    requires
        levels_hold(objects, limits, levels, content),
        content.len() <= u64::MAX,
    ensures
        levels_hold(objects, limits, levels.push(Seq::empty()), content),
{
    let taller = levels.push(Seq::<SpanView>::empty());
    assert forall|level: nat| level < taller.len() implies run_holds(
        objects,
        limits,
        taller[level as int],
        #[trigger] reach(taller, level + 1),
        reach(taller, level),
        content,
        level + 1,
    ) by {
        lemma_reach_push(levels, level);
        lemma_reach_push(levels, level + 1);
        if level < levels.len() {
            assert(level_holds(objects, limits, levels, content, level));
        }
    }
}

/// Whether a byte stream goes on from another.
pub open spec fn continues(earlier: Seq<u8>, later: Seq<u8>) -> bool {
    earlier.len() <= later.len() && later.take(earlier.len() as int) == earlier
}

/// Bytes read in two pieces count as those read at once.
proof fn lemma_reading_adds(first: WorkCounters, now: WorkCounters, a: int, b: int)
    requires
        total(first, reading_work(a)) == Ok::<WorkCounters, WorkError>(now),
        0 <= a <= u32::MAX,
        0 <= b <= u32::MAX,
    ensures
        total(now, reading_work(b)) == total(first, reading_work(a + b)),
        read_on(first, now),
{
}

/// Reads until a buffer is full or the stream ends.
fn read_chunk<R: BlobSource>(
    source: &mut R,
    allocation: usize,
    budget: WorkBudget,
    work: &mut WorkCounters,
) -> (r: Result<Vec<u8>, BlobBuildFailure>)
    requires
        allocation <= u32::MAX,
        within(*old(work), budget),
    ensures
        continues(old(source).taken(), final(source).taken()),
        final(work).peak_allocation_bytes == old(work).peak_allocation_bytes,
        final(source).taken().len() <= old(source).taken().len() + allocation,
        !(r matches Err(failure) && failure.error is Source) ==> final(source).broken() == old(
            source,
        ).broken(),
        ({
            let count = final(source).taken().len() - old(source).taken().len();
            let counted = total(*old(work), reading_work(count));
            match r {
                Ok(bytes) => {
                    &&& bytes@.len() <= allocation
                    &&& final(source).taken() == old(source).taken() + bytes@
                    &&& bytes@.len() < allocation ==> final(source).ended()
                    &&& counted == Ok::<WorkCounters, WorkError>(*final(work))
                    &&& within(*final(work), budget)
                },
                Err(failure) => match failure.error {
                    BlobBuildError::Source(message) => {
                        &&& final(source).broken() == Some(message@)
                        &&& count < allocation
                        &&& counted == Ok::<WorkCounters, WorkError>(failure.work)
                        &&& within(failure.work, budget)
                    },
                    BlobBuildError::Work(WorkError::Exceeded) => {
                        &&& counted == Ok::<WorkCounters, WorkError>(failure.work)
                        &&& !within(failure.work, budget)
                    },
                    BlobBuildError::Work(WorkError::Overflow) => counted is Err && read_on(
                        *old(work),
                        failure.work,
                    ),
                    _ => false,
                },
            }
        }),
        r matches Err(failure) ==> failure.error is Work ==> spent_up(
            failure.work,
            u32::MAX as u64,
            budget,
        ),
{
    let ghost base = source.taken();
    let mut bytes: Vec<u8> = Vec::new();
    let mut ended = false;
    assert(base + bytes@ =~= base);
    assert(total(*work, reading_work(0)) == Ok::<WorkCounters, WorkError>(*work));
    while bytes.len() < allocation && !ended
        invariant
            base == old(source).taken(),
            bytes@.len() <= allocation,
            allocation <= u32::MAX,
            source.taken() == base + bytes@,
            ended ==> source.ended(),
            work.peak_allocation_bytes == old(work).peak_allocation_bytes,
            total(*old(work), reading_work(bytes@.len() as int)) == Ok::<WorkCounters, WorkError>(
                *work,
            ),
            within(*work, budget),
            source.broken() == old(source).broken(),
        decreases
                (if ended {
                    0int
                } else {
                    allocation - bytes@.len() + 1
                }),
    {
        let ghost so_far = bytes@;
        let room: usize = allocation - bytes.len();
        match source.read(room) {
            Err(message) => {
                assert(source.taken().take(base.len() as int) =~= base);
                return Err(OperationFailure::new(BlobBuildError::Source(message), *work));
            },
            Ok(piece) => {
                if piece.len() == 0 {
                    ended = true;
                    assert(so_far + piece@ =~= so_far);
                    assert(source.taken() =~= base + bytes@);
                } else {
                    let count = piece.len() as u64;
                    bytes.extend_from_slice(piece.as_slice());
                    assert(bytes@ =~= so_far + piece@);
                    assert(source.taken() =~= base + bytes@);
                    assert(source.taken().take(base.len() as int) =~= base);
                    proof {
                        let first = *old(work);
                        let so_far_count = so_far.len() as int;
                        lemma_reading_adds(first, *work, so_far_count, count as int);
                    }
                    match work.checked_add(WorkCounters::of_source_bytes_read(count)) {
                        Err(error) => {
                            assert(small_work(
                                WorkCounters { source_bytes_read: count, ..no_work() },
                                u32::MAX as u64,
                            ));
                            return Err(OperationFailure::new(BlobBuildError::Work(error), *work));
                        },
                        Ok(sum) => {
                            *work = sum;
                            if let Err(error) = sum.verify(budget) {
                                proof {
                                    lemma_outside_is_spent_up(sum, u32::MAX as u64, budget);
                                }
                                return Err(
                                    OperationFailure::new(BlobBuildError::Work(error), sum),
                                );
                            }
                        },
                    }
                }
            },
        }
    }
    assert(source.taken().take(base.len() as int) =~= base);
    Ok(bytes)
}

/// Whether a store holds every chunk of some bytes.
pub open spec fn chunks_stored(
    objects: Objects,
    content: Seq<u8>,
    options: BlobBuildOptions,
) -> bool {
    row_stored(objects, content, chunk_row(content, options.chunk_bytes as int))
}

/// Whether a store holds the parts of some bytes under their references.
pub open spec fn row_stored(objects: Objects, content: Seq<u8>, row: Seq<SpanView>) -> bool {
    forall|i: int|
        0 <= i < row.len() ==> objects((#[trigger] row[i]).object) == Some(
            content.subrange(row[i].first as int, row[i].end as int),
        ) && row[i].first <= row[i].end <= content.len()
}

/// Whether a build ends as its bounds, its budget, the bytes and the end of its source
/// and the replies to its puts say, behind some earlier puts.
pub open spec fn build_goes(
    r: Result<BlobBuild, BlobBuildFailure>,
    terms: BuildTerms,
    at: nat,
) -> bool {
    match blob_made(terms, build_begun(at), 0) {
        Ok((root, work)) => r matches Ok(build) && build.root@ == root && build.work == work,
        Err((cause, work)) => r matches Err(failure) && build_failure_is(failure, cause, work),
    }
}

/// Whether a build goes by given terms, as far as its puts and the bytes read show.
spec fn reads_by(
    terms: BuildTerms,
    options: BlobBuildOptions,
    budget: WorkBudget,
    puts: Seq<Put>,
    content: Seq<u8>,
) -> bool {
    goes_by(terms, options, budget, puts) && continues(content, terms.content)
}

/// The terms that a build went by, from what its source has handed out.
spec fn build_terms(
    options: BlobBuildOptions,
    budget: WorkBudget,
    puts: Seq<Put>,
    taken: Seq<u8>,
    base: Seq<u8>,
    broken: bool,
) -> BuildTerms {
    BuildTerms { options, budget, puts, content: taken.skip(base.len() as int), broken }
}

proof fn lemma_reads_by(
    terms: BuildTerms,
    options: BlobBuildOptions,
    budget: WorkBudget,
    earlier: Seq<Put>,
    puts: Seq<Put>,
    content: Seq<u8>,
)
    requires
        terms.options == options,
        terms.budget == budget,
        terms.puts == puts,
        logged(earlier, puts) || earlier == puts,
        continues(content, terms.content) || terms.content == content,
    ensures
        reads_by(terms, options, budget, earlier, content),
        reads_by(terms, options, budget, puts, content),
{
    assert(puts.take(puts.len() as int) =~= puts);
    assert(content.take(content.len() as int) =~= content);
}

/// How a build goes on once a chunk of some bytes was read, of those asked for.
spec fn chunk_read(
    terms: BuildTerms,
    state: BuildView,
    offset: int,
    live: u64,
    read: WorkCounters,
    count: int,
    asked: int,
) -> BuildEnd {
    if count <= 0 {
        build_ended(index_finished(terms, BuildView { work: read, ..state }))
    } else if offset + count > terms.options.maximum_blob_bytes {
        Err((BuildCause::Step(BlobBuildError::TooLarge), read))
    } else {
        match put_made(terms, state.at, read, live) {
            Err(failure) => Err((BuildCause::Step(failure.error), failure.work)),
            Ok(work) => chunk_taken_up(
                terms,
                chunk_taken(
                    terms,
                    BuildView { work, at: state.at + 1, ..state },
                    chunk_reference(terms.content, offset, offset + count),
                ),
                offset + count,
                count < asked,
            ),
        }
    }
}

/// How a build goes on once a chunk was taken up, which is the last one or not.
spec fn chunk_taken_up(
    terms: BuildTerms,
    taken: Result<BuildView, BlobBuildFailure>,
    offset: int,
    last: bool,
) -> BuildEnd {
    match taken {
        Err(failure) => Err((BuildCause::Step(failure.error), failure.work)),
        Ok(next) => if last {
            build_ended(index_finished(terms, next))
        } else {
            blob_made(terms, next, offset)
        },
    }
}

proof fn lemma_blob_step(terms: BuildTerms, state: BuildView, offset: int)
    ensures
        blob_made(terms, state, offset) == ({
            let asked = asked_bytes(terms.options, offset);
            let left = terms.content.len() - offset;
            let count = if left < asked {
                left
            } else {
                asked
            };
            match claim_made(state.live, asked as u64, state.work, terms.budget) {
                Err(failure) => Err((BuildCause::Step(failure.error), failure.work)),
                Ok((live, spent)) => match total(spent, reading_work(count)) {
                    Err(_) => Err((BuildCause::Uncounted, spent)),
                    Ok(read) => if !within(read, terms.budget) {
                        Err((BuildCause::Step(BlobBuildError::Work(WorkError::Exceeded)), read))
                    } else if count < asked && terms.broken {
                        Err((BuildCause::Source, read))
                    } else {
                        chunk_read(terms, state, offset, live, read, count, asked)
                    },
                },
            }
        }),
{
    reveal(blob_made);
}

/// A build goes on with a chunk that was read.
proof fn lemma_chunk_read(
    terms: BuildTerms,
    state: BuildView,
    puts: Seq<Put>,
    content: Seq<u8>,
    more: Seq<u8>,
    claimed: (u64, WorkCounters),
    read: WorkCounters,
)
    requires
        reads_by(terms, terms.options, terms.budget, puts, content + more),
        more.len() <= asked_bytes(terms.options, content.len() as int),
        more.len() < asked_bytes(terms.options, content.len() as int) ==> terms.content == content
            + more && !terms.broken,
        claim_made(
            state.live,
            asked_bytes(terms.options, content.len() as int) as u64,
            state.work,
            terms.budget,
        ) == Ok::<(u64, WorkCounters), BlobBuildFailure>(claimed),
        total(claimed.1, reading_work(more.len() as int)) == Ok::<WorkCounters, WorkError>(read),
        within(read, terms.budget),
    ensures
        reads_by(terms, terms.options, terms.budget, puts, content),
        blob_made(terms, state, content.len() as int) == chunk_read(
            terms,
            state,
            content.len() as int,
            claimed.0,
            read,
            more.len() as int,
            asked_bytes(terms.options, content.len() as int),
        ),
{
    let offset = content.len() as int;
    assert(terms.content.take(offset) =~= (content + more).take(offset)) by {
        assert(terms.content.take((content + more).len() as int) == content + more);
        assert forall|i: int| 0 <= i < offset implies terms.content[i] == (content + more)[i] by {
            assert(terms.content.take((content + more).len() as int)[i] == terms.content[i]);
        }
    }
    assert((content + more).take(offset) =~= content);
    lemma_blob_step(terms, state, offset);
}

/// A chunk that was put is that of the whole source, and what held before holds on.
proof fn lemma_chunk_put(
    terms: BuildTerms,
    here: Seq<Put>,
    mid: Seq<Put>,
    puts: Seq<Put>,
    whole: Seq<u8>,
    offset: int,
)
    requires
        reads_by(terms, terms.options, terms.budget, puts, whole),
        logged(here, mid),
        logged(mid, puts),
        0 <= offset <= whole.len(),
    ensures
        reads_by(terms, terms.options, terms.budget, here, whole),
        goes_by(terms, terms.options, terms.budget, mid),
        logged(mid, terms.puts),
        goes_by(terms, terms.options, terms.budget, puts),
        chunk_reference(terms.content, offset, whole.len() as int) == chunk_reference(
            whole,
            offset,
            whole.len() as int,
        ),
{
    lemma_logged(here, mid, puts);
    lemma_goes_by(terms, terms.options, terms.budget, here, puts);
    lemma_goes_by(terms, terms.options, terms.budget, mid, puts);
    assert(terms.content.subrange(offset, whole.len() as int) =~= whole.subrange(
        offset,
        whole.len() as int,
    )) by {
        assert forall|i: int| offset <= i < whole.len() implies terms.content[i] == whole[i] by {
            assert(terms.content.take(whole.len() as int)[i] == terms.content[i]);
        }
    }
}

/// Streams a source into fixed-size authenticated chunks and a bounded index.
///
/// Invalid options are refused before anything is read. What is built holds the
/// whole source under the root that its bytes have, and everything that the store
/// held stays. A build fails only where the source is too long or breaks, where the
/// store refuses an object, or where the work cannot be done or counted. How a
/// build from an unbroken source ends, and the work, follow from its options, its
/// budget, the bytes that the source handed out and the replies of the store.
#[verifier::rlimit(100)]
pub fn build_blob<S: ObjectStore, R: BlobSource>(
    store: &mut S,
    source: &mut R,
    options: BlobBuildOptions,
    budget: WorkBudget,
) -> (r: Result<BlobBuild, BlobBuildFailure>)
    ensures
        extends(old(store).contents(), final(store).contents()),
        logged(old(store).puts(), final(store).puts()),
        continues(old(source).taken(), final(source).taken()),
        !build_admitted(options) ==> r == Err::<BlobBuild, BlobBuildFailure>(
            OperationFailure { error: BlobBuildError::InvalidOptions, work: no_work() },
        ) && *final(store) == *old(store) && *final(source) == *old(source),
        build_admitted(options) ==> {
            let content = final(source).taken().skip(old(source).taken().len() as int);
            match r {
                Ok(build) => {
                    &&& final(source).ended()
                    &&& build.logical_bytes == content.len() <= options.maximum_blob_bytes
                    &&& build.root@ == blob_root(content, options)
                    &&& build.root.kind == ObjectKind::Blob
                    &&& chunks_stored(final(store).contents(), content, options)
                    &&& exists|height: nat| #[trigger]
                        blob_holds(
                            final(store).contents(),
                            build_limits(options),
                            build.root@,
                            0,
                            content.len() as int,
                            content,
                            height,
                        )
                },
                Err(failure) => match failure.error {
                    BlobBuildError::TooLarge => content.len() > options.maximum_blob_bytes,
                    BlobBuildError::Source(message) => final(source).broken() == Some(message@),
                    error => storing_failed(
                        error,
                        failure.work,
                        old(store).puts(),
                        final(store).puts(),
                        budget,
                    ),
                },
            }
        },
        build_admitted(options) && old(source).broken() is None ==> {
            let terms = BuildTerms {
                options,
                budget,
                puts: final(store).puts(),
                content: final(source).taken().skip(old(source).taken().len() as int),
                broken: final(source).broken() is Some,
            };
            build_goes(r, terms, old(store).puts().len())
        },
{
    let ghost base = source.taken();
    let ghost unbroken = source.broken() is None;
    let ghost before = store.contents();
    let ghost log = store.puts();
    let ghost size = options.chunk_bytes as int;
    assert(base.take(base.len() as int) =~= base);
    assert(log.take(log.len() as int) =~= log);
    let width = match effective_page_width(options) {
        Some(width) => width,
        None => {
            return Err(OperationFailure::before_work(BlobBuildError::InvalidOptions));
        },
    };
    if options.chunk_bytes == 0 || options.maximum_blob_bytes == 0 {
        return Err(OperationFailure::before_work(BlobBuildError::InvalidOptions));
    }
    let mut index = BlobIndexBuilder {
        options,
        width,
        leaf: Vec::new(),
        reserved: false,
        levels: Vec::new(),
        live: 0,
    };
    let ghost mut content = Seq::<u8>::empty();
    let mut logical_bytes: u64 = 0;
    let mut work = WorkCounters::default();
    let mut ended = false;
    let ghost begun = build_begun(log.len());
    assert(base + content =~= base);
    assert(index.rows() =~= Seq::<Seq<SpanView>>::empty());
    assert(views(index.leaf@) =~= Seq::<SpanView>::empty());
    assert(index.state(work, log) == begun);
    proof {
        assert(chunk_row(content, size) =~= Seq::<SpanView>::empty());
        assert(level_row(Seq::<SpanView>::empty(), width as int, 1, 0).len() == 0);
        assert(views(index.leaf@) =~= Seq::<SpanView>::empty());
        assert(index.stands(chunk_row(content, size)));
        assert(content.len() as nat % size as nat == 0) by (nonlinear_arith)
            requires
                content.len() == 0,
                size > 0,
        ;
    }
    while !ended
        invariant
            begun == build_begun(log.len()),
            unbroken == (old(source).broken() is None),
            source.broken() == old(source).broken(),
            forall|terms: BuildTerms| #[trigger]
                reads_by(terms, options, budget, store.puts(), content) && (ended
                    ==> terms.content == content && !terms.broken) ==> blob_made(terms, begun, 0)
                    == (if ended {
                    build_ended(index_finished(terms, index.state(work, store.puts())))
                } else {
                    blob_made(terms, index.state(work, store.puts()), content.len() as int)
                }),
            build_admitted(options),
            size == options.chunk_bytes,
            logged(log, store.puts()),
            log == old(store).puts(),
            index.stands(chunk_row(content, size)),
            index.light(),
            !ended ==> content.len() % size as nat == 0,
            ended ==> source.ended(),
            row_stored(store.contents(), content, chunk_row(content, size)),
            base == old(source).taken(),
            before == old(store).contents(),
            extends(before, store.contents()),
            source.taken() == base + content,
            index.options == options,
            index.leads_to(store.contents(), content),
            index.leaf@.len() < index.width,
            logical_bytes == content.len(),
            content.len() <= options.maximum_blob_bytes,
        decreases
                (if ended {
                    0int
                } else {
                    options.maximum_blob_bytes - content.len() + 1
                }),
    {
        let detection: u64 = if options.maximum_blob_bytes - logical_bytes == u64::MAX {
            u64::MAX
        } else {
            options.maximum_blob_bytes - logical_bytes + 1
        };
        let allocation: usize = if (options.chunk_bytes as u64) < detection {
            options.chunk_bytes as usize
        } else {
            detection as usize
        };
        let ghost begins = index.state(work, store.puts());
        let ghost here = store.puts();
        let ghost offset = content.len() as int;
        let ghost began = content;
        assert(allocation == asked_bytes(options, offset));
        assert(continues(base, source.taken())) by {
            assert(source.taken().take(base.len() as int) =~= base);
        }
        let (simultaneous, spent) = match claim(index.live, allocation as u64, work, budget) {
            Ok(claimed) => claimed,
            Err(failure) => {
                proof {
                    let terms = build_terms(options, budget, here, source.taken(), base, false);
                    assert(source.taken().skip(base.len() as int) =~= content);
                    lemma_reads_by(terms, options, budget, here, here, content);
                    lemma_blob_step(terms, begins, offset);
                }
                return Err(failure);
            },
        };
        work = spent;
        let ghost row = chunk_row(content, size);
        let ghost earlier = source.taken();
        let bytes = match read_chunk(source, allocation, budget, &mut work) {
            Ok(bytes) => bytes,
            Err(failure) => {
                assert(source.taken().take(base.len() as int) =~= earlier.take(base.len() as int));
                proof {
                    let terms = build_terms(
                        options,
                        budget,
                        here,
                        source.taken(),
                        base,
                        source.broken() is Some,
                    );
                    assert(terms.content.take(offset) =~= content) by {
                        assert(source.taken().take(earlier.len() as int) == earlier);
                        assert forall|i: int| 0 <= i < offset implies terms.content[i]
                            == content[i] by {
                            assert(source.taken()[base.len() + i] == source.taken().take(
                                earlier.len() as int,
                            )[base.len() + i]);
                        }
                    }
                    lemma_reads_by(terms, options, budget, here, here, content);
                    lemma_blob_step(terms, begins, offset);
                }
                return Err(failure);
            },
        };
        assert(source.taken() =~= base + (content + bytes@));
        assert(source.taken().take(base.len() as int) =~= base);
        assert(source.taken().skip(base.len() as int) =~= content + bytes@);
        let ghost read = work;
        proof {
            assert forall|terms: BuildTerms| #[trigger]
                reads_by(terms, options, budget, here, content + bytes@) && (bytes@.len()
                    < allocation ==> terms.content == content + bytes@ && !terms.broken) implies
                blob_made(terms, begun, 0) == chunk_read(
                terms,
                begins,
                offset,
                simultaneous,
                read,
                bytes@.len() as int,
                allocation as int,
            ) by {
                lemma_chunk_read(
                    terms,
                    begins,
                    here,
                    content,
                    bytes@,
                    (simultaneous, spent),
                    read,
                );
            }
            let terms = build_terms(options, budget, here, source.taken(), base, false);
            lemma_reads_by(terms, options, budget, here, here, content + bytes@);
        }
        let filled = bytes.len();
        if filled == 0 {
            ended = true;
            assert(content + bytes@ =~= content);
        } else {
            if filled as u64 > u64::MAX - logical_bytes {
                return Err(OperationFailure::new(BlobBuildError::TooLarge, work));
            }
            let first_offset = logical_bytes;
            logical_bytes = logical_bytes + filled as u64;
            if logical_bytes > options.maximum_blob_bytes {
                return Err(OperationFailure::new(BlobBuildError::TooLarge, work));
            }
            let chunk = object_id(ObjectKind::BlobChunk, bytes.as_slice());
            let ghost held = store.contents();
            let ghost mid = store.puts();
            let putting = build_put(store, chunk, bytes.as_slice(), simultaneous, budget, work);
            proof {
                lemma_logged(log, mid, store.puts());
                let terms = build_terms(
                    options,
                    budget,
                    store.puts(),
                    source.taken(),
                    base,
                    false,
                );
                lemma_reads_by(terms, options, budget, here, store.puts(), content + bytes@);
                assert(putting == put_made(terms, here.len(), read, simultaneous));
            }
            work =
            match putting {
                Ok(work) => work,
                Err(failure) => {
                    return Err(failure);
                },
            };
            proof {
                let nothing = Seq::<u8>::empty();
                assert(content + nothing =~= content);
                let limits = build_limits(options);
                lemma_levels_grow(held, store.contents(), limits, index.rows(), content, nothing);
                lemma_run_holds_grows(
                    held,
                    store.contents(),
                    limits,
                    views(index.leaf@),
                    reach(index.rows(), 0),
                    content.len() as int,
                    content,
                    nothing,
                    0,
                );
            }
            let ghost mid = store.puts();
            let ghost stored = store.contents();
            let ghost put_then = work;
            proof {
                lemma_chunk_row_short(content, size);
            }
            let reference = BlobChunkRef { first_offset, end_offset: logical_bytes, chunk };
            let pushing = index.push_chunk(
                store,
                reference,
                budget,
                &mut work,
                Ghost(content),
                Ghost(bytes@),
                Ghost(row),
            );
            proof {
                lemma_logged(log, mid, store.puts());
            }
            proof {
                let whole = content + bytes@;
                assert(whole.subrange(offset, whole.len() as int) =~= bytes@);
                assert(reference@ == chunk_reference(whole, offset, whole.len() as int));
                assert forall|terms: BuildTerms| #[trigger]
                    reads_by(terms, options, budget, store.puts(), whole) && (bytes@.len()
                        < allocation ==> terms.content == whole && !terms.broken) implies
                    blob_made(terms, begun, 0) == chunk_taken_up(
                    terms,
                    stepped(pushing, index.state(work, store.puts())),
                    whole.len() as int,
                    bytes@.len() < allocation,
                ) by {
                    lemma_chunk_put(terms, here, mid, store.puts(), whole, offset);
                    assert(put_made(terms, here.len(), read, simultaneous)
                        == Ok::<WorkCounters, BlobBuildFailure>(put_then));
                }
                let terms = build_terms(
                    options,
                    budget,
                    store.puts(),
                    source.taken(),
                    base,
                    false,
                );
                lemma_reads_by(terms, options, budget, store.puts(), store.puts(), whole);
            }
            if let Err(failure) = pushing {
                return Err(failure);
            }
            proof {
                let whole = content + bytes@;
                lemma_chunk_row_next(content, bytes@, size);
                assert(whole.subrange(content.len() as int, whole.len() as int) =~= bytes@);
                assert(reference@ == chunk_reference(
                    whole,
                    content.len() as int,
                    whole.len() as int,
                ));
                let longer = chunk_row(whole, size);
                assert forall|i: int| 0 <= i < longer.len() implies store.contents()(
                    (#[trigger] longer[i]).object,
                ) == Some(whole.subrange(longer[i].first as int, longer[i].end as int))
                    && longer[i].first <= longer[i].end <= whole.len() by {
                    if i < row.len() {
                        assert(longer[i] == row[i]);
                        assert(whole.subrange(row[i].first as int, row[i].end as int)
                            =~= content.subrange(row[i].first as int, row[i].end as int));
                        assert(held(row[i].object) is Some);
                        assert(stored(row[i].object) is Some);
                    } else {
                        assert(stored(longer[i].object) is Some);
                    }
                }
                content = whole;
            }
            if filled < allocation {
                ended = true;
            }
        }
    }
    assert(source.taken().take(base.len() as int) =~= base);
    assert(source.taken().skip(base.len() as int) =~= content);
    let ghost mid = store.puts();
    let ghost stored = store.contents();
    let ghost row = chunk_row(content, size);
    proof {
        lemma_chunk_row_short(content, size);
    }
    let ghost finishing = index.state(work, mid);
    let finished = index.finish(store, budget, &mut work, Ghost(content), Ghost(row));
    proof {
        lemma_logged(log, mid, store.puts());
        let terms = build_terms(options, budget, store.puts(), source.taken(), base, false);
        lemma_reads_by(terms, options, budget, mid, store.puts(), content);
        assert(blob_made(terms, begun, 0) == build_ended(index_finished(terms, finishing)));
        lemma_goes_by(terms, options, budget, store.puts(), store.puts());
        assert forall|i: int| 0 <= i < row.len() implies store.contents()((#[trigger] row[i]).object)
            == Some(content.subrange(row[i].first as int, row[i].end as int)) by {
            assert(stored(row[i].object) is Some);
        }
    }
    match finished {
        Ok(root) => Ok(BlobBuild { root, logical_bytes, work }),
        Err(failure) => Err(failure),
    }
}

/// An index that is sound under some bounds is sound under wider ones.
pub proof fn wider_limits_keep_a_blob(
    objects: Objects,
    limits: DecodeLimits,
    wider: DecodeLimits,
    page: ObjectView,
    first: int,
    end: int,
    bytes: Seq<u8>,
    height: nat,
)
    requires
        blob_holds(objects, limits, page, first, end, bytes, height),
        limits.maximum_page_items <= wider.maximum_page_items,
        limits.page_object_bytes() <= wider.page_object_bytes(),
    ensures
        blob_holds(objects, wider, page, first, end, bytes, height),
    decreases height,
{
    let encoded = objects(page)->0;
    let view = blob_decoded(encoded, limits)->Ok_0;
    super::blob::blob_bytes_are_canonical(encoded, limits);
    super::blob::blob_page_round_trip(view, limits.maximum_page_items, wider);
    assert forall|i: int| 0 <= i < view.spans.len() implies ({
        let span = #[trigger] span_of(view.spans, i);
        let part = bytes.subrange(span.first - first, span.end - first);
        if view.leaf {
            objects(span.object) == Some(part)
        } else {
            blob_holds(
                objects,
                wider,
                span.object,
                span.first as int,
                span.end as int,
                part,
                (height - 1) as nat,
            )
        }
    }) by {
        let span = span_of(view.spans, i);
        if !view.leaf {
            wider_limits_keep_a_blob(
                objects,
                limits,
                wider,
                span.object,
                span.first as int,
                span.end as int,
                bytes.subrange(span.first - first, span.end - first),
                (height - 1) as nat,
            );
        }
    }
}

/// A store that holds an index over given bytes reads any range of them back,
/// under bounds that admit its pages.
pub proof fn built_blob_reads_back<S: ObjectStore>(
    store: &S,
    options: BlobBuildOptions,
    root: ObjectView,
    range: ByteRange,
    limits: DecodeLimits,
    budget: WorkBudget,
    content: Seq<u8>,
    height: nat,
)
    requires
        blob_holds(
            store.contents(),
            build_limits(options),
            root,
            0,
            content.len() as int,
            content,
            height,
        ),
        options.page_items <= limits.maximum_page_items,
        options.page_bytes <= limits.page_object_bytes(),
        range.offset + range.length <= content.len(),
        range_begun(root, range, limits, budget) is Ok,
    ensures
        gives_range(
            range_outcome(store, range_begun(root, range, limits, budget)->Ok_0),
            content,
            range,
        ),
{
    let objects = store.contents();
    wider_limits_keep_a_blob(
        objects,
        build_limits(options),
        limits,
        root,
        0,
        content.len() as int,
        content,
        height,
    );
    assert forall|request: RequestView|
        (#[trigger] store.answers(request)) matches Ok(read) implies objects(request.object)
        == Some(store.answers(request)->Ok_0.bytes) by {
        store.answers_from_contents(request);
    }
    blob_range_reads_back(store, objects, root, range, limits, budget, content, height);
}

} // verus!
