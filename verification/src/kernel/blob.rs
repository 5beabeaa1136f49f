//! Authenticated blob-index pages.

use super::codec::{
    header, header_at, items_at, items_bytes, items_fit, items_read_back, items_write_back,
    read_items, run_reads_back, skip_items, skips_at, stands_for, take_at, u32_at, u32_reads_back,
    u32_writes_back, u64_at, u64_reads_back, u64_writes_back, u8_at, write_items,
    CanonicalDecodeError, CanonicalItem, DecodeErrorView, DecodeLimits, DecodedPageKind,
    DecodedPageShape, Decoder, Encoder, Field,
};
use crate::foundation::Digest;
use crate::order::{views, Replicate};
use crate::storage::{object_id, object_named, ObjectId, ObjectKind, ObjectView};
use vstd::bytes::*;
use vstd::prelude::*;
use vstd::string::*;

verus! {

/// One authenticated fixed-size content chunk reference.
#[derive(Clone, Copy, Debug, PartialEq, Eq)]
pub struct BlobChunkRef {
    /// Inclusive logical offset.
    pub first_offset: u64,
    /// Exclusive logical end.
    pub end_offset: u64,
    /// Complete immutable chunk object.
    pub chunk: ObjectId,
}

/// One authenticated blob-index child reference.
#[derive(Clone, Copy, Debug, PartialEq, Eq)]
pub struct BlobChild {
    /// Inclusive logical offset.
    pub first_offset: u64,
    /// Exclusive logical end.
    pub end_offset: u64,
    /// Child blob-index page.
    pub page: ObjectId,
}

/// Abstract value of a chunk or child reference: a range and an object.
#[verifier::ext_equal]
pub struct SpanView {
    /// Inclusive logical offset.
    pub first: u64,
    /// Exclusive logical end.
    pub end: u64,
    /// Object that holds the range.
    pub object: ObjectView,
}

impl View for BlobChunkRef {
    type V = SpanView;

    open spec fn view(&self) -> SpanView {
        SpanView { first: self.first_offset, end: self.end_offset, object: self.chunk@ }
    }
}

impl View for BlobChild {
    type V = SpanView;

    open spec fn view(&self) -> SpanView {
        SpanView { first: self.first_offset, end: self.end_offset, object: self.page@ }
    }
}

impl Replicate for BlobChunkRef {
    fn replicate(&self) -> (r: Self) {
        *self
    }
}

impl Replicate for BlobChild {
    fn replicate(&self) -> (r: Self) {
        *self
    }
}

/// Canonical bytes of a reference.
pub open spec fn span_bytes(span: SpanView) -> Seq<u8> {
    spec_u64_to_le_bytes(span.first) + spec_u64_to_le_bytes(span.end) + span.object.digest
}

/// The reference at a position.
pub open spec fn span_at(bytes: Seq<u8>, at: int, kind: ObjectKind) -> Field<SpanView> {
    match u64_at(bytes, at) {
        Err(error) => Err(error),
        Ok((first, at)) => match u64_at(bytes, at) {
            Err(error) => Err(error),
            Ok((end, at)) => match take_at(bytes, at, 32) {
                Err(error) => Err(error),
                Ok((digest, next)) => Ok(
                    (SpanView { first, end, object: ObjectView { kind, digest } }, next),
                ),
            },
        },
    }
}

proof fn span_reads_back(span: SpanView, before: Seq<u8>, after: Seq<u8>)
    requires
        span.object.digest.len() == 32,
        before.len() + span_bytes(span).len() + after.len() <= usize::MAX,
    ensures
        span_at(before + span_bytes(span) + after, before.len() as int, span.object.kind) == Ok::<
            (SpanView, int),
            DecodeErrorView,
        >((span, (before.len() + span_bytes(span).len()) as int)),
{
    lemma_auto_spec_u64_to_from_le_bytes();
    let first = spec_u64_to_le_bytes(span.first);
    let end = spec_u64_to_le_bytes(span.end);
    let digest = span.object.digest;
    let whole = before + span_bytes(span) + after;
    u64_reads_back(span.first, before, end + digest + after);
    assert(whole =~= before + first + (end + digest + after));
    u64_reads_back(span.end, before + first, digest + after);
    assert(whole =~= (before + first) + end + (digest + after));
    run_reads_back(digest, before + first + end, after);
    assert(whole =~= (before + first + end) + digest + after);
}

proof fn span_writes_back(bytes: Seq<u8>, at: int, kind: ObjectKind)
    requires
        0 <= at,
        span_at(bytes, at, kind) is Ok,
    ensures
        ({
            let (span, end) = span_at(bytes, at, kind)->Ok_0;
            &&& at <= end <= bytes.len()
            &&& span.object.kind == kind
            &&& span.object.digest.len() == 32
            &&& span_bytes(span) == bytes.subrange(at, end)
        }),
{
    u64_writes_back(bytes, at);
    u64_writes_back(bytes, at + 8);
    let (span, end) = span_at(bytes, at, kind)->Ok_0;
    assert(span_bytes(span) =~= bytes.subrange(at, end));
}

fn write_span(encoder: &mut Encoder, first: u64, end: u64, object: &ObjectId)
    ensures
        final(encoder)@ == old(encoder)@ + span_bytes(SpanView { first, end, object: object@ }),
{
    let ghost start = encoder@;
    encoder.u64(first);
    encoder.u64(end);
    encoder.fixed(object.digest.bytes.as_slice());
    assert(encoder@ =~= start + span_bytes(SpanView { first, end, object: object@ }));
}

fn read_span(decoder: &mut Decoder<'_>, kind: ObjectKind) -> (r: Result<
    (u64, u64, ObjectId),
    CanonicalDecodeError,
>)
    requires
        old(decoder).wf(),
    ensures
        final(decoder).bytes@ == old(decoder).bytes@,
        final(decoder).wf(),
        match span_at(old(decoder).bytes@, old(decoder).cursor as int, kind) {
            Ok((span, end)) => r matches Ok(found) && found.0 == span.first && found.1 == span.end
                && found.2@ == span.object && final(decoder).cursor == end,
            Err(e) => r matches Err(error) && error@ == e,
        },
{
    let first = match decoder.u64() {
        Ok(first) => first,
        Err(error) => {
            return Err(error);
        },
    };
    let end = match decoder.u64() {
        Ok(end) => end,
        Err(error) => {
            return Err(error);
        },
    };
    match decoder.fixed32() {
        Ok(digest) => Ok((first, end, ObjectId { kind, digest: Digest::from_bytes(digest) })),
        Err(error) => Err(error),
    }
}

impl CanonicalItem for BlobChunkRef {
    open spec fn item_fits(value: SpanView, limits: DecodeLimits) -> bool {
        value.object.kind == ObjectKind::BlobChunk && value.object.digest.len() == 32
    }

    open spec fn item_writable(value: SpanView) -> bool {
        true
    }

    open spec fn item_bytes(value: SpanView) -> Seq<u8> {
        span_bytes(value)
    }

    open spec fn item_at(bytes: Seq<u8>, at: int, limits: DecodeLimits) -> Field<SpanView> {
        span_at(bytes, at, ObjectKind::BlobChunk)
    }

    open spec fn skip_at(bytes: Seq<u8>, at: int, limits: DecodeLimits) -> Field<nat> {
        match span_at(bytes, at, ObjectKind::BlobChunk) {
            Err(error) => Err(error),
            Ok((_, end)) => Ok((0, end)),
        }
    }

    open spec fn nested(value: SpanView) -> nat {
        0
    }

    proof fn item_reads_back(
        value: SpanView,
        before: Seq<u8>,
        after: Seq<u8>,
        limits: DecodeLimits,
    ) {
        span_reads_back(value, before, after);
    }

    proof fn item_writes_back(bytes: Seq<u8>, at: int, limits: DecodeLimits) {
        span_writes_back(bytes, at, ObjectKind::BlobChunk);
    }

    proof fn skip_stays_within(bytes: Seq<u8>, at: int, limits: DecodeLimits) {
        span_writes_back(bytes, at, ObjectKind::BlobChunk);
    }

    fn write_item(&self, encoder: &mut Encoder) -> (r: Result<(), CanonicalDecodeError>) {
        write_span(encoder, self.first_offset, self.end_offset, &self.chunk);
        Ok(())
    }

    fn read_item(decoder: &mut Decoder<'_>, limits: DecodeLimits) -> (r: Result<
        Self,
        CanonicalDecodeError,
    >) {
        match read_span(decoder, ObjectKind::BlobChunk) {
            Ok((first_offset, end_offset, chunk)) => Ok(
                BlobChunkRef { first_offset, end_offset, chunk },
            ),
            Err(error) => Err(error),
        }
    }

    fn skip_item(decoder: &mut Decoder<'_>, limits: DecodeLimits) -> (r: Result<
        usize,
        CanonicalDecodeError,
    >) {
        match read_span(decoder, ObjectKind::BlobChunk) {
            Ok(_) => Ok(0),
            Err(error) => Err(error),
        }
    }
}

impl CanonicalItem for BlobChild {
    open spec fn item_fits(value: SpanView, limits: DecodeLimits) -> bool {
        value.object.kind == ObjectKind::Blob && value.object.digest.len() == 32
    }

    open spec fn item_writable(value: SpanView) -> bool {
        true
    }

    open spec fn item_bytes(value: SpanView) -> Seq<u8> {
        span_bytes(value)
    }

    open spec fn item_at(bytes: Seq<u8>, at: int, limits: DecodeLimits) -> Field<SpanView> {
        span_at(bytes, at, ObjectKind::Blob)
    }

    open spec fn skip_at(bytes: Seq<u8>, at: int, limits: DecodeLimits) -> Field<nat> {
        match span_at(bytes, at, ObjectKind::Blob) {
            Err(error) => Err(error),
            Ok((_, end)) => Ok((0, end)),
        }
    }

    open spec fn nested(value: SpanView) -> nat {
        0
    }

    proof fn item_reads_back(
        value: SpanView,
        before: Seq<u8>,
        after: Seq<u8>,
        limits: DecodeLimits,
    ) {
        span_reads_back(value, before, after);
    }

    proof fn item_writes_back(bytes: Seq<u8>, at: int, limits: DecodeLimits) {
        span_writes_back(bytes, at, ObjectKind::Blob);
    }

    proof fn skip_stays_within(bytes: Seq<u8>, at: int, limits: DecodeLimits) {
        span_writes_back(bytes, at, ObjectKind::Blob);
    }

    fn write_item(&self, encoder: &mut Encoder) -> (r: Result<(), CanonicalDecodeError>) {
        write_span(encoder, self.first_offset, self.end_offset, &self.page);
        Ok(())
    }

    fn read_item(decoder: &mut Decoder<'_>, limits: DecodeLimits) -> (r: Result<
        Self,
        CanonicalDecodeError,
    >) {
        match read_span(decoder, ObjectKind::Blob) {
            Ok((first_offset, end_offset, page)) => Ok(BlobChild { first_offset, end_offset, page }),
            Err(error) => Err(error),
        }
    }

    fn skip_item(decoder: &mut Decoder<'_>, limits: DecodeLimits) -> (r: Result<
        usize,
        CanonicalDecodeError,
    >) {
        match read_span(decoder, ObjectKind::Blob) {
            Ok(_) => Ok(0),
            Err(error) => Err(error),
        }
    }
}

/// Contents of one blob-index page.
#[derive(Debug, PartialEq, Eq)]
pub enum BlobNode {
    /// Ordered chunk references.
    Leaf(Vec<BlobChunkRef>),
    /// Ordered index-page references.
    Internal(Vec<BlobChild>),
}

/// One self-bounded authenticated blob-index page.
#[derive(Debug, PartialEq, Eq)]
pub struct BlobPage {
    /// Inclusive logical offset represented by this page.
    pub first_offset: u64,
    /// Exclusive logical end represented by this page.
    pub end_offset: u64,
    /// Leaf chunks or internal children.
    pub node: BlobNode,
}

/// Abstract value of [`BlobPage`].
#[verifier::ext_equal]
pub struct BlobPageView {
    /// Inclusive logical offset represented by this page.
    pub first: u64,
    /// Exclusive logical end represented by this page.
    pub end: u64,
    /// Whether the references are chunks.
    pub leaf: bool,
    /// References in order.
    pub spans: Seq<SpanView>,
}

impl View for BlobPage {
    type V = BlobPageView;

    open spec fn view(&self) -> BlobPageView {
        BlobPageView {
            first: self.first_offset,
            end: self.end_offset,
            leaf: self.node is Leaf,
            spans: match self.node {
                BlobNode::Leaf(items) => views(items@),
                BlobNode::Internal(items) => views(items@),
            },
        }
    }
}

/// Whether a reference begins where the one before it ends.
pub open spec fn span_adjoins(spans: Seq<SpanView>, i: int) -> bool {
    spans[i - 1].end == spans[i].first
}

/// Whether references cover a range, each in turn, without gaps.
pub open spec fn spans_cover(spans: Seq<SpanView>, first: u64, end: u64) -> bool {
    &&& spans.len() > 0
    &&& spans[0].first == first
    &&& spans.last().end == end
    &&& forall|i: int| 0 <= i < spans.len() ==> (#[trigger] spans[i]).first < spans[i].end
    &&& forall|i: int| 0 < i < spans.len() ==> #[trigger] span_adjoins(spans, i)
}

/// Whether every reference has the class that its page asks for.
pub open spec fn spans_kind(spans: Seq<SpanView>, leaf: bool) -> bool {
    forall|i: int|
        0 <= i < spans.len() ==> (#[trigger] spans[i]).object.kind == (if leaf {
            ObjectKind::BlobChunk
        } else {
            ObjectKind::Blob
        })
}

/// Why a page is not valid.
pub open spec fn blob_page_problem(page: BlobPageView, maximum_items: u32) -> Option<
    DecodeErrorView,
> {
    if page.spans.len() > maximum_items {
        Some(
            DecodeErrorView::FieldTooLarge {
                observed: if page.spans.len() > u32::MAX {
                    u32::MAX
                } else {
                    page.spans.len() as u32
                },
                maximum: maximum_items,
            },
        )
    } else if page.spans.len() == 0 && (page.first != 0 || page.end != 0) {
        Some(DecodeErrorView::Invariant("non-empty blob bounds require entries"@))
    } else if page.spans.len() != 0 && !spans_cover(page.spans, page.first, page.end) {
        Some(DecodeErrorView::Invariant("blob ranges are not positive and contiguous"@))
    } else if !spans_kind(page.spans, page.leaf) {
        Some(DecodeErrorView::Invariant("blob reference has the wrong object kind"@))
    } else {
        None
    }
}

/// A reference to a range.
pub trait Span: View<V = SpanView> + Sized {
    /// The range and the object.
    fn span(&self) -> (r: (u64, u64, ObjectId))
        ensures
            self@ == (SpanView { first: r.0, end: r.1, object: r.2@ }),
    ;
}

impl Span for BlobChunkRef {
    fn span(&self) -> (r: (u64, u64, ObjectId)) {
        (self.first_offset, self.end_offset, self.chunk)
    }
}

impl Span for BlobChild {
    fn span(&self) -> (r: (u64, u64, ObjectId)) {
        (self.first_offset, self.end_offset, self.page)
    }
}

/// Tells whether references cover a range without gaps.
fn contiguous<T: Span>(items: &Vec<T>, first: u64, end: u64) -> (r: bool)
    requires
        items@.len() > 0,
    ensures
        r == spans_cover(views(items@), first, end),
{
    let ghost all = views(items@);
    let mut prior: u64 = first;
    let mut i: usize = 0;
    while i < items.len()
        invariant
            i <= items@.len(),
            all == views(items@),
            all.len() > 0,
            i == 0 ==> prior == first,
            i > 0 ==> prior == all[i - 1].end && all[0].first == first,
            forall|j: int| 0 <= j < i ==> (#[trigger] all[j]).first < all[j].end,
            forall|j: int| 0 < j < i ==> #[trigger] span_adjoins(all, j),
        decreases items@.len() - i,
    {
        let (own_first, own_end, _) = items[i].span();
        assert(all[i as int] == items@[i as int]@);
        if own_first != prior || own_first >= own_end {
            proof {
                if spans_cover(all, first, end) && i > 0 {
                    assert(span_adjoins(all, i as int));
                }
            }
            return false;
        }
        prior = own_end;
        i = i + 1;
    }
    prior == end
}

/// Tells whether every reference has a given class.
fn kinds_match<T: Span>(items: &Vec<T>, kind: ObjectKind) -> (r: bool)
    ensures
        r == forall|i: int|
            0 <= i < items@.len() ==> (#[trigger] views(items@)[i]).object.kind == kind,
{
    let ghost all = views(items@);
    let mut i: usize = 0;
    while i < items.len()
        invariant
            i <= items@.len(),
            all == views(items@),
            forall|j: int| 0 <= j < i ==> (#[trigger] all[j]).object.kind == kind,
        decreases items@.len() - i,
    {
        let (_, _, object) = items[i].span();
        assert(all[i as int] == items@[i as int]@);
        if object.kind != kind {
            return false;
        }
        i = i + 1;
    }
    true
}

fn validate_spans<T: Span>(
    items: &Vec<T>,
    first: u64,
    end: u64,
    kind: ObjectKind,
    maximum_items: u32,
    leaf: bool,
) -> (r: Result<(), CanonicalDecodeError>)
    requires
        kind == (if leaf {
            ObjectKind::BlobChunk
        } else {
            ObjectKind::Blob
        }),
    ensures
        match blob_page_problem(
            BlobPageView { first, end, leaf, spans: views(items@) },
            maximum_items,
        ) {
            Some(e) => r matches Err(error) && error@ == e,
            None => r is Ok,
        },
{
    if items.len() > maximum_items as usize {
        let observed: u32 = if items.len() > u32::MAX as usize {
            u32::MAX
        } else {
            items.len() as u32
        };
        return Err(CanonicalDecodeError::FieldTooLarge { observed, maximum: maximum_items });
    }
    if items.len() == 0 {
        if first != 0 || end != 0 {
            return Err(
                CanonicalDecodeError::Invariant("non-empty blob bounds require entries".to_owned()),
            );
        }
    } else if !contiguous(items, first, end) {
        return Err(
            CanonicalDecodeError::Invariant(
                "blob ranges are not positive and contiguous".to_owned(),
            ),
        );
    }
    if !kinds_match(items, kind) {
        return Err(
            CanonicalDecodeError::Invariant("blob reference has the wrong object kind".to_owned()),
        );
    }
    Ok(())
}

impl BlobPage {
    /// Checks bounds, coverage and classes of a page.
    pub fn validate(&self, maximum_items: u32) -> (r: Result<(), CanonicalDecodeError>)
        ensures
            match blob_page_problem(self@, maximum_items) {
                Some(e) => r matches Err(error) && error@ == e,
                None => r is Ok,
            },
    {
        match &self.node {
            BlobNode::Leaf(items) => validate_spans(
                items,
                self.first_offset,
                self.end_offset,
                ObjectKind::BlobChunk,
                maximum_items,
                true,
            ),
            BlobNode::Internal(items) => validate_spans(
                items,
                self.first_offset,
                self.end_offset,
                ObjectKind::Blob,
                maximum_items,
                false,
            ),
        }
    }
}

/// First bytes of every blob page, `ACYFSBLB`.
pub open spec fn blob_domain() -> Seq<u8> {
    seq![65u8, 67, 89, 70, 83, 66, 76, 66]
}

/// Bounds, tag and number of references in front of them.
pub open spec fn blob_front(page: BlobPageView) -> Seq<u8> {
    header(blob_domain(), 1) + spec_u64_to_le_bytes(page.first) + spec_u64_to_le_bytes(page.end)
        + seq![
        if page.leaf {
            1u8
        } else {
            2u8
        },
    ] + spec_u32_to_le_bytes(page.spans.len() as u32)
}

/// Canonical bytes of a page.
pub open spec fn blob_bytes(page: BlobPageView) -> Seq<u8> {
    blob_front(page) + (if page.leaf {
        items_bytes::<BlobChunkRef>(page.spans)
    } else {
        items_bytes::<BlobChild>(page.spans)
    })
}

/// The canonical bytes of a page, or why it has none.
pub open spec fn blob_encoded(page: BlobPageView, maximum_items: u32) -> Result<
    Seq<u8>,
    DecodeErrorView,
> {
    match blob_page_problem(page, maximum_items) {
        Some(error) => Err(error),
        None => Ok(blob_bytes(page)),
    }
}

/// Bounds, tag, count and position of the first reference of a page.
pub open spec fn blob_start(bytes: Seq<u8>, limits: DecodeLimits) -> Result<
    (u64, u64, u8, u32, int),
    DecodeErrorView,
> {
    match header_at(bytes, blob_domain(), 1, limits.page_object_bytes()) {
        Err(error) => Err(error),
        Ok(at) => match u64_at(bytes, at) {
            Err(error) => Err(error),
            Ok((first, at)) => match u64_at(bytes, at) {
                Err(error) => Err(error),
                Ok((end, at)) => match u8_at(bytes, at) {
                    Err(error) => Err(error),
                    Ok((tag, at)) => match u32_at(bytes, at) {
                        Err(error) => Err(error),
                        Ok((count, at)) => if count > limits.maximum_page_items {
                            Err(
                                DecodeErrorView::FieldTooLarge {
                                    observed: count,
                                    maximum: limits.maximum_page_items,
                                },
                            )
                        } else {
                            Ok((first, end, tag, count, at))
                        },
                    },
                },
            },
        },
    }
}

/// The page that bytes stand for, or why they stand for none.
pub open spec fn blob_decoded(bytes: Seq<u8>, limits: DecodeLimits) -> Result<
    BlobPageView,
    DecodeErrorView,
> {
    match blob_start(bytes, limits) {
        Err(error) => Err(error),
        Ok((first, end, tag, count, at)) => if tag != 1 && tag != 2 {
            Err(DecodeErrorView::UnknownTag { field: "blob_page"@, tag })
        } else {
            let found = if tag == 1 {
                items_at::<BlobChunkRef>(bytes, at, limits, count as nat)
            } else {
                items_at::<BlobChild>(bytes, at, limits, count as nat)
            };
            match found {
                Err(error) => Err(error),
                Ok((spans, next)) => if next != bytes.len() {
                    Err(DecodeErrorView::TrailingBytes)
                } else {
                    let page = BlobPageView { first, end, leaf: tag == 1, spans };
                    match blob_page_problem(page, limits.maximum_page_items) {
                        Some(error) => Err(error),
                        None => Ok(page),
                    }
                },
            }
        },
    }
}

/// The extent of the page that bytes stand for.
pub open spec fn blob_shape(bytes: Seq<u8>, limits: DecodeLimits) -> Result<
    (DecodedPageKind, nat),
    DecodeErrorView,
> {
    match blob_start(bytes, limits) {
        Err(error) => Err(error),
        Ok((_, _, tag, count, at)) => if tag != 1 && tag != 2 {
            Err(DecodeErrorView::UnknownTag { field: "blob_page"@, tag })
        } else {
            let passed = if tag == 1 {
                skips_at::<BlobChunkRef>(bytes, at, limits, count as nat)
            } else {
                skips_at::<BlobChild>(bytes, at, limits, count as nat)
            };
            match passed {
                Err(error) => Err(error),
                Ok((_, next)) => if next != bytes.len() {
                    Err(DecodeErrorView::TrailingBytes)
                } else {
                    Ok(
                        (
                            if tag == 1 {
                                DecodedPageKind::Leaf
                            } else {
                                DecodedPageKind::Internal
                            },
                            count as nat,
                        ),
                    )
                },
            }
        },
    }
}

fn domain() -> (r: [u8; 8])
    ensures
        r@ == blob_domain(),
{
    let r = [65u8, 67, 89, 70, 83, 66, 76, 66];
    assert(r@ =~= blob_domain());
    r
}

/// Encodes one canonical blob-index page.
pub fn encode_blob_page(page: &BlobPage, maximum_items: u32) -> (r: Result<
    Vec<u8>,
    CanonicalDecodeError,
>)
    ensures
        stands_for(r, blob_encoded(page@, maximum_items)),
{
    if let Err(error) = page.validate(maximum_items) {
        return Err(error);
    }
    let mut encoder = Encoder::new(domain().as_slice(), 1);
    encoder.u64(page.first_offset);
    encoder.u64(page.end_offset);
    let done = match &page.node {
        BlobNode::Leaf(items) => {
            encoder.u8(1);
            encoder.u32(items.len() as u32);
            assert(encoder@ =~= blob_front(page@));
            write_items(items, &mut encoder)
        },
        BlobNode::Internal(items) => {
            encoder.u8(2);
            encoder.u32(items.len() as u32);
            assert(encoder@ =~= blob_front(page@));
            write_items(items, &mut encoder)
        },
    };
    match done {
        Ok(()) => Ok(encoder.finish()),
        Err(error) => Err(error),
    }
}

fn read_start<'a>(bytes: &'a [u8], limits: DecodeLimits) -> (r: Result<
    (u64, u64, u8, u32, Decoder<'a>),
    CanonicalDecodeError,
>)
    ensures
        match blob_start(bytes@, limits) {
            Ok((first, end, tag, count, at)) => r matches Ok(found) && found.0 == first && found.1
                == end && found.2 == tag && found.3 == count && found.4.wf() && found.4.bytes@
                == bytes@ && found.4.cursor == at,
            Err(e) => r matches Err(error) && error@ == e,
        },
{
    let mut decoder = match Decoder::new(
        bytes,
        domain().as_slice(),
        1,
        limits.maximum_page_object_bytes(),
    ) {
        Ok(decoder) => decoder,
        Err(error) => {
            return Err(error);
        },
    };
    let first = match decoder.u64() {
        Ok(first) => first,
        Err(error) => {
            return Err(error);
        },
    };
    let end = match decoder.u64() {
        Ok(end) => end,
        Err(error) => {
            return Err(error);
        },
    };
    let tag = match decoder.u8() {
        Ok(tag) => tag,
        Err(error) => {
            return Err(error);
        },
    };
    let count = match decoder.u32() {
        Ok(count) => count,
        Err(error) => {
            return Err(error);
        },
    };
    if count > limits.maximum_page_items {
        return Err(
            CanonicalDecodeError::FieldTooLarge {
                observed: count,
                maximum: limits.maximum_page_items,
            },
        );
    }
    Ok((first, end, tag, count, decoder))
}

/// Decodes one canonical blob-index page under hard allocation limits.
pub fn decode_blob_page(bytes: &[u8], limits: DecodeLimits) -> (r: Result<
    BlobPage,
    CanonicalDecodeError,
>)
    ensures
        stands_for(r, blob_decoded(bytes@, limits)),
{
    let (first_offset, end_offset, tag, count, mut decoder) = match read_start(bytes, limits) {
        Ok(found) => found,
        Err(error) => {
            return Err(error);
        },
    };
    let node = if tag == 1 {
        match read_items::<BlobChunkRef>(&mut decoder, limits, count) {
            Ok(items) => BlobNode::Leaf(items),
            Err(error) => {
                return Err(error);
            },
        }
    } else if tag == 2 {
        match read_items::<BlobChild>(&mut decoder, limits, count) {
            Ok(items) => BlobNode::Internal(items),
            Err(error) => {
                return Err(error);
            },
        }
    } else {
        return Err(CanonicalDecodeError::UnknownTag { field: "blob_page", tag });
    };
    if let Err(error) = decoder.finish() {
        return Err(error);
    }
    let page = BlobPage { first_offset, end_offset, node };
    match page.validate(limits.maximum_page_items) {
        Ok(()) => Ok(page),
        Err(error) => Err(error),
    }
}

/// Finds the extent of a blob page without building it.
pub fn blob_page_decode_shape(bytes: &[u8], limits: DecodeLimits) -> (r: Result<
    DecodedPageShape,
    CanonicalDecodeError,
>)
    ensures
        match blob_shape(bytes@, limits) {
            Ok((kind, items)) => r matches Ok(shape) && shape.kind == kind && shape.items == items
                && shape.nested_bytes == 0,
            Err(e) => r matches Err(error) && error@ == e,
        },
{
    let (_, _, tag, count, mut decoder) = match read_start(bytes, limits) {
        Ok(found) => found,
        Err(error) => {
            return Err(error);
        },
    };
    if tag != 1 && tag != 2 {
        return Err(CanonicalDecodeError::UnknownTag { field: "blob_page", tag });
    }
    let passed = if tag == 1 {
        skip_items::<BlobChunkRef>(&mut decoder, limits, count)
    } else {
        skip_items::<BlobChild>(&mut decoder, limits, count)
    };
    match passed {
        Err(error) => Err(error),
        Ok(_) => match decoder.finish() {
            Err(error) => Err(error),
            Ok(()) => Ok(
                DecodedPageShape {
                    kind: if tag == 1 {
                        DecodedPageKind::Leaf
                    } else {
                        DecodedPageKind::Internal
                    },
                    items: count as usize,
                    nested_bytes: 0,
                },
            ),
        },
    }
}

/// Computes the typed identity of one canonical blob-index page.
pub fn blob_page_id(page: &BlobPage, maximum_items: u32) -> (r: Result<
    ObjectId,
    CanonicalDecodeError,
>)
    ensures
        stands_for(
            r,
            match blob_encoded(page@, maximum_items) {
                Ok(bytes) => Ok(object_named(ObjectKind::Blob, bytes)),
                Err(error) => Err(error),
            },
        ),
{
    match encode_blob_page(page, maximum_items) {
        Ok(bytes) => Ok(object_id(ObjectKind::Blob, bytes.as_slice())),
        Err(error) => Err(error),
    }
}

/// Whether the digests of a page can be read back.
pub open spec fn spans_sound(spans: Seq<SpanView>) -> bool {
    forall|i: int| 0 <= i < spans.len() ==> (#[trigger] spans[i]).object.digest.len() == 32
}

/// A page that can be encoded and fits the bounds decodes to itself.
pub proof fn blob_page_round_trip(page: BlobPageView, maximum_items: u32, limits: DecodeLimits)
    requires
        blob_encoded(page, maximum_items) is Ok,
        spans_sound(page.spans),
        page.spans.len() <= limits.maximum_page_items,
        blob_bytes(page).len() <= limits.page_object_bytes(),
        blob_bytes(page).len() <= usize::MAX,
    ensures
        blob_decoded(blob_encoded(page, maximum_items)->Ok_0, limits) == Ok::<
            BlobPageView,
            DecodeErrorView,
        >(page),
{
    lemma_auto_spec_u16_to_from_le_bytes();
    lemma_auto_spec_u32_to_from_le_bytes();
    lemma_auto_spec_u64_to_from_le_bytes();
    let bytes = blob_bytes(page);
    let front = header(blob_domain(), 1);
    let first = spec_u64_to_le_bytes(page.first);
    let end = spec_u64_to_le_bytes(page.end);
    let tag: u8 = if page.leaf {
        1u8
    } else {
        2u8
    };
    let number = spec_u32_to_le_bytes(page.spans.len() as u32);
    let body = if page.leaf {
        items_bytes::<BlobChunkRef>(page.spans)
    } else {
        items_bytes::<BlobChild>(page.spans)
    };
    assert(front.len() == 10);
    assert(bytes.take(8) =~= blob_domain());
    assert(bytes.subrange(8, 10) =~= spec_u16_to_le_bytes(1));
    u64_reads_back(page.first, front, end + seq![tag] + number + body);
    assert(bytes =~= front + first + (end + seq![tag] + number + body));
    u64_reads_back(page.end, front + first, seq![tag] + number + body);
    assert(bytes =~= (front + first) + end + (seq![tag] + number + body));
    let head = front + first + end;
    assert(bytes[head.len() as int] == tag);
    u32_reads_back(page.spans.len() as u32, head + seq![tag], body);
    assert(bytes =~= (head + seq![tag]) + number + body);
    let lead = head + seq![tag] + number;
    assert(bytes =~= lead + body + Seq::<u8>::empty());
    if page.leaf {
        assert(items_fit::<BlobChunkRef>(page.spans, limits));
        items_read_back::<BlobChunkRef>(page.spans, lead, Seq::empty(), limits);
    } else {
        assert(items_fit::<BlobChild>(page.spans, limits));
        items_read_back::<BlobChild>(page.spans, lead, Seq::empty(), limits);
    }
}

/// Bytes that decode are the one encoding of what they decode to.
pub proof fn blob_bytes_are_canonical(bytes: Seq<u8>, limits: DecodeLimits)
    requires
        blob_decoded(bytes, limits) is Ok,
    ensures
        blob_encoded(blob_decoded(bytes, limits)->Ok_0, limits.maximum_page_items) == Ok::<
            Seq<u8>,
            DecodeErrorView,
        >(bytes),
        spans_sound(blob_decoded(bytes, limits)->Ok_0.spans),
{
    lemma_auto_spec_u16_to_from_le_bytes();
    let page = blob_decoded(bytes, limits)->Ok_0;
    let (first, end, tag, count, at) = blob_start(bytes, limits)->Ok_0;
    u64_writes_back(bytes, 10);
    u64_writes_back(bytes, 18);
    u32_writes_back(bytes, 27);
    assert(at == 31);
    if tag == 1 {
        items_write_back::<BlobChunkRef>(bytes, at, limits, count as nat);
        assert(items_fit::<BlobChunkRef>(page.spans, limits));
    } else {
        items_write_back::<BlobChild>(bytes, at, limits, count as nat);
        assert(items_fit::<BlobChild>(page.spans, limits));
    }
    assert forall|i: int| 0 <= i < page.spans.len() implies (
    #[trigger] page.spans[i]).object.digest.len() == 32 by {
        if tag == 1 {
            assert(BlobChunkRef::item_fits(page.spans[i], limits));
        } else {
            assert(BlobChild::item_fits(page.spans[i], limits));
        }
    }
    let version = bytes.subrange(8, 10);
    assert(version.len() == 2);
    assert(spec_u16_to_le_bytes(1) == version);
    assert(bytes =~= bytes.take(8) + version + bytes.subrange(10, 18) + bytes.subrange(18, 26)
        + seq![tag] + bytes.subrange(27, 31) + bytes.subrange(31, bytes.len() as int));
    assert(blob_bytes(page) =~= bytes);
}

proof fn lemma_skips_follow<T: CanonicalItem>(
    bytes: Seq<u8>,
    at: int,
    limits: DecodeLimits,
    count: nat,
)
    requires
        items_at::<T>(bytes, at, limits, count) is Ok,
        forall|from: int|
            (#[trigger] T::item_at(bytes, from, limits)) matches Ok((_, end)) ==> T::skip_at(
                bytes,
                from,
                limits,
            ) matches Ok((_, next)) && next == end,
    ensures
        skips_at::<T>(bytes, at, limits, count) matches Ok((_, next)) && next == items_at::<T>(
            bytes,
            at,
            limits,
            count,
        )->Ok_0.1,
    decreases count,
{
    if count > 0 {
        lemma_skips_follow::<T>(bytes, at, limits, (count - 1) as nat);
    }
}

/// Bytes that decode have a shape, with as many items as the page has references.
pub proof fn decodable_has_a_shape(bytes: Seq<u8>, limits: DecodeLimits)
    requires
        blob_decoded(bytes, limits) is Ok,
    ensures
        blob_shape(bytes, limits) matches Ok((_, items)) && items == blob_decoded(
            bytes,
            limits,
        )->Ok_0.spans.len(),
{
    let (_, _, tag, count, at) = blob_start(bytes, limits)->Ok_0;
    if tag == 1 {
        lemma_skips_follow::<BlobChunkRef>(bytes, at, limits, count as nat);
        items_write_back::<BlobChunkRef>(bytes, at, limits, count as nat);
    } else {
        lemma_skips_follow::<BlobChild>(bytes, at, limits, count as nat);
        items_write_back::<BlobChild>(bytes, at, limits, count as nat);
    }
}

} // verus!
