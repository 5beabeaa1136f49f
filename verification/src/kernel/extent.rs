//! Canonical authenticated sparse-file extent pages.

use super::codec::{
    page_at, page_bytes, page_fits, page_reads_back, page_refuses_less, page_refuses_more,
    page_shape, page_writes_back, read_page, read_shape, refused_more, run_reads_back, stands_for,
    take_at, u64_at, u64_reads_back, u64_writes_back, u8_at, write_entries, CanonicalDecodeError,
    CanonicalItem, DecodeErrorView, DecodeLimits, DecodedPageShape, Decoder, Encoder, Field,
    Format, Page, PageFormat, PageView,
};
use crate::foundation::Digest;
use crate::order::{views, Replicate};
use crate::storage::{object_id, object_named, ObjectId, ObjectKind, ObjectView};
use vstd::bytes::*;
use vstd::prelude::*;
use vstd::string::*;

verus! {

/// What one extent stands for.
#[derive(Clone, Copy, Debug, PartialEq, Eq)]
pub enum ExtentKind {
    /// Bytes that were never written; they read as zero.
    Hole,
    /// Allocated bytes that read as zero.
    AllocatedZero,
    /// Bytes of a blob.
    Content {
        /// Blob that holds the bytes.
        object: ObjectId,
        /// Offset of the first byte in the blob.
        object_offset: u64,
    },
}

/// Abstract value of [`ExtentKind`].
#[verifier::ext_equal]
pub enum ExtentKindView {
    /// Bytes that were never written; they read as zero.
    Hole,
    /// Allocated bytes that read as zero.
    AllocatedZero,
    /// Bytes of a blob.
    Content {
        /// Blob that holds the bytes.
        object: ObjectView,
        /// Offset of the first byte in the blob.
        object_offset: u64,
    },
}

impl View for ExtentKind {
    type V = ExtentKindView;

    open spec fn view(&self) -> ExtentKindView {
        match *self {
            ExtentKind::Hole => ExtentKindView::Hole,
            ExtentKind::AllocatedZero => ExtentKindView::AllocatedZero,
            ExtentKind::Content { object, object_offset } => ExtentKindView::Content {
                object: object@,
                object_offset,
            },
        }
    }
}

impl ExtentKind {
    /// Tells whether two kinds are equal.
    pub fn same(&self, other: &Self) -> (r: bool)
        ensures
            r == (self@ == other@),
    {
        match (self, other) {
            (ExtentKind::Hole, ExtentKind::Hole) => true,
            (ExtentKind::AllocatedZero, ExtentKind::AllocatedZero) => true,
            (
                ExtentKind::Content { object: a, object_offset: x },
                ExtentKind::Content { object: b, object_offset: y },
            ) => *x == *y && a.same(b),
            _ => false,
        }
    }
}

/// A run of logical bytes.
#[derive(Clone, Copy, Debug, PartialEq, Eq)]
pub struct Extent {
    /// First logical byte.
    pub offset: u64,
    /// Number of bytes.
    pub length: u64,
    /// What the bytes are.
    pub kind: ExtentKind,
}

/// Abstract value of [`Extent`].
#[verifier::ext_equal]
pub struct ExtentView {
    /// First logical byte.
    pub offset: u64,
    /// Number of bytes.
    pub length: u64,
    /// What the bytes are.
    pub kind: ExtentKindView,
}

impl View for Extent {
    type V = ExtentView;

    open spec fn view(&self) -> ExtentView {
        ExtentView { offset: self.offset, length: self.length, kind: self.kind@ }
    }
}

impl Replicate for Extent {
    fn replicate(&self) -> (r: Self) {
        *self
    }
}

/// One child of an extent tree.
#[derive(Clone, Copy, Debug, PartialEq, Eq)]
pub struct ExtentChild {
    /// First logical byte below the child.
    pub first_offset: u64,
    /// End of the logical bytes below the child.
    pub end_offset: u64,
    /// Authenticated extent page.
    pub page: ObjectId,
}

/// Abstract value of [`ExtentChild`].
#[verifier::ext_equal]
pub struct ExtentChildView {
    /// First logical byte below the child.
    pub first_offset: u64,
    /// End of the logical bytes below the child.
    pub end_offset: u64,
    /// Authenticated extent page.
    pub page: ObjectView,
}

impl View for ExtentChild {
    type V = ExtentChildView;

    open spec fn view(&self) -> ExtentChildView {
        ExtentChildView {
            first_offset: self.first_offset,
            end_offset: self.end_offset,
            page: self.page@,
        }
    }
}

impl Replicate for ExtentChild {
    fn replicate(&self) -> (r: Self) {
        *self
    }
}

/// One authenticated extent-tree page.
#[derive(Debug, PartialEq, Eq)]
pub enum ExtentPage {
    /// Adjoining extents.
    Leaf(Vec<Extent>),
    /// Adjoining child ranges.
    Internal(Vec<ExtentChild>),
}

/// Abstract value of [`ExtentPage`].
pub type ExtentPageView = PageView<ExtentView, ExtentChildView>;

impl View for ExtentPage {
    type V = ExtentPageView;

    open spec fn view(&self) -> ExtentPageView {
        match *self {
            ExtentPage::Leaf(extents) => PageView::Leaf(views(extents@)),
            ExtentPage::Internal(children) => PageView::Internal(views(children@)),
        }
    }
}

/// Extent page failures.
#[derive(Clone, Copy, Debug, PartialEq, Eq, Structural)]
pub enum ExtentPageError {
    /// An extent is empty, overflows, does not adjoin, or names no blob.
    InvalidExtent,
    /// An inner page is empty, does not adjoin, or names no extent page.
    InvalidInternalPage,
    /// The page exceeds its admitted item bound.
    TooManyItems,
}

/// Stable description of a failure.
pub open spec fn extent_reason(error: ExtentPageError) -> Seq<char> {
    match error {
        ExtentPageError::InvalidExtent => "extent page is invalid"@,
        ExtentPageError::InvalidInternalPage => "extent internal page is invalid"@,
        ExtentPageError::TooManyItems => "extent page exceeds its item bound"@,
    }
}

/// A page failure as a decoding failure.
pub open spec fn extent_failure(error: ExtentPageError) -> DecodeErrorView {
    DecodeErrorView::Invariant(extent_reason(error))
}

pub(crate) fn broken(error: ExtentPageError) -> (r: CanonicalDecodeError)
    ensures
        r@ == extent_failure(error),
{
    CanonicalDecodeError::Invariant(
        match error {
            ExtentPageError::InvalidExtent => "extent page is invalid".to_owned(),
            ExtentPageError::InvalidInternalPage => "extent internal page is invalid".to_owned(),
            ExtentPageError::TooManyItems => "extent page exceeds its item bound".to_owned(),
        },
    )
}

/// End of an extent.
pub open spec fn extent_end_of(extent: ExtentView) -> int {
    extent.offset + extent.length
}

/// Whether a kind is fit for a number of bytes: content names a blob and does
/// not run past the largest offset.
pub open spec fn kind_fits(kind: ExtentKindView, length: u64) -> bool {
    match kind {
        ExtentKindView::Content { object, object_offset } => object.kind == ObjectKind::Blob
            && object_offset + length <= u64::MAX,
        _ => true,
    }
}

/// Whether one extent is in order by itself.
pub open spec fn extent_fits(extent: ExtentView) -> bool {
    extent.length > 0 && extent_end_of(extent) <= u64::MAX && kind_fits(extent.kind, extent.length)
}

/// Whether an extent begins where the one before it ends.
pub open spec fn extent_adjoins(extents: Seq<ExtentView>, i: int) -> bool {
    extent_end_of(extents[i - 1]) == extents[i].offset
}

/// Whether extents are in order and adjoin one another.
pub open spec fn extents_ordered(extents: Seq<ExtentView>) -> bool {
    &&& forall|i: int| 0 <= i < extents.len() ==> extent_fits(#[trigger] extents[i])
    &&& forall|i: int| 0 < i < extents.len() ==> #[trigger] extent_adjoins(extents, i)
}

/// Whether one child range is in order by itself.
pub open spec fn extent_child_fits(child: ExtentChildView) -> bool {
    child.first_offset < child.end_offset && child.page.kind == ObjectKind::ExtentPage
}

/// Whether a child range begins where the one before it ends.
pub open spec fn extent_child_adjoins(children: Seq<ExtentChildView>, i: int) -> bool {
    children[i - 1].end_offset == children[i].first_offset
}

/// Whether child ranges exist, are in order and adjoin one another.
pub open spec fn extent_children_ordered(children: Seq<ExtentChildView>) -> bool {
    &&& children.len() > 0
    &&& forall|i: int| 0 <= i < children.len() ==> extent_child_fits(#[trigger] children[i])
    &&& forall|i: int| 0 < i < children.len() ==> #[trigger] extent_child_adjoins(children, i)
}

/// Why a page is not valid.
pub open spec fn extent_page_problem(page: ExtentPageView, maximum_items: u32) -> Option<
    ExtentPageError,
> {
    match page {
        PageView::Leaf(extents) => if !extents_ordered(extents) {
            Some(ExtentPageError::InvalidExtent)
        } else if extents.len() > maximum_items {
            Some(ExtentPageError::TooManyItems)
        } else {
            None
        },
        PageView::Internal(children) => if !extent_children_ordered(children) {
            Some(ExtentPageError::InvalidInternalPage)
        } else if children.len() > maximum_items {
            Some(ExtentPageError::TooManyItems)
        } else {
            None
        },
    }
}

impl Extent {
    /// Tells whether the extent is in order by itself.
    pub fn fits(&self) -> (r: bool)
        ensures
            r == extent_fits(self@),
    {
        if self.length == 0 || self.length > u64::MAX - self.offset {
            return false;
        }
        match self.kind {
            ExtentKind::Content { object, object_offset } => match object.kind {
                ObjectKind::Blob => self.length <= u64::MAX - object_offset,
                _ => false,
            },
            _ => true,
        }
    }
}

/// Tells whether extents are in order and adjoin one another.
pub fn extents_are_ordered(extents: &Vec<Extent>) -> (r: bool)
    ensures
        r == extents_ordered(views(extents@)),
{
    let ghost all = views(extents@);
    let mut i: usize = 0;
    while i < extents.len()
        invariant
            i <= extents@.len(),
            all == views(extents@),
            forall|j: int| 0 <= j < i ==> extent_fits(#[trigger] all[j]),
            forall|j: int| 0 < j < i ==> #[trigger] extent_adjoins(all, j),
        decreases extents@.len() - i,
    {
        assert(all[i as int] == extents@[i as int]@);
        if !extents[i].fits() {
            return false;
        }
        if i > 0 {
            assert(all[i - 1] == extents@[i - 1]@);
            assert(extent_fits(all[i - 1]));
            if extents[i - 1].offset + extents[i - 1].length != extents[i].offset {
                assert(!extent_adjoins(all, i as int));
                return false;
            }
        }
        i = i + 1;
    }
    true
}

/// Tells whether child ranges exist, are in order and adjoin one another.
fn children_are_ordered(children: &Vec<ExtentChild>) -> (r: bool)
    ensures
        r == extent_children_ordered(views(children@)),
{
    let ghost all = views(children@);
    if children.len() == 0 {
        return false;
    }
    let mut i: usize = 0;
    while i < children.len()
        invariant
            i <= children@.len(),
            all == views(children@),
            forall|j: int| 0 <= j < i ==> extent_child_fits(#[trigger] all[j]),
            forall|j: int| 0 < j < i ==> #[trigger] extent_child_adjoins(all, j),
        decreases children@.len() - i,
    {
        assert(all[i as int] == children@[i as int]@);
        let kind = children[i].page.kind;
        if children[i].first_offset >= children[i].end_offset || kind != ObjectKind::ExtentPage {
            assert(!extent_child_fits(all[i as int]));
            return false;
        }
        if i > 0 {
            assert(all[i - 1] == children@[i - 1]@);
            if children[i - 1].end_offset != children[i].first_offset {
                assert(!extent_child_adjoins(all, i as int));
                return false;
            }
        }
        i = i + 1;
    }
    true
}

impl ExtentPage {
    /// Checks order, ranges, object classes and size of a page.
    pub fn validate(&self, maximum_items: u32) -> (r: Result<(), ExtentPageError>)
        ensures
            r == (match extent_page_problem(self@, maximum_items) {
                Some(error) => Err::<(), ExtentPageError>(error),
                None => Ok::<(), ExtentPageError>(()),
            }),
    {
        match self {
            ExtentPage::Leaf(extents) => {
                if !extents_are_ordered(extents) {
                    return Err(ExtentPageError::InvalidExtent);
                }
                if extents.len() > maximum_items as usize {
                    return Err(ExtentPageError::TooManyItems);
                }
                Ok(())
            },
            ExtentPage::Internal(children) => {
                if !children_are_ordered(children) {
                    return Err(ExtentPageError::InvalidInternalPage);
                }
                if children.len() > maximum_items as usize {
                    return Err(ExtentPageError::TooManyItems);
                }
                Ok(())
            },
        }
    }
}

/// Canonical bytes of a kind.
pub open spec fn kind_bytes(kind: ExtentKindView) -> Seq<u8> {
    match kind {
        ExtentKindView::Hole => seq![1u8],
        ExtentKindView::AllocatedZero => seq![2u8],
        ExtentKindView::Content { object, object_offset } => seq![3u8] + object.digest
            + spec_u64_to_le_bytes(object_offset),
    }
}

/// The kind at a position.
pub open spec fn kind_at(bytes: Seq<u8>, at: int) -> Field<ExtentKindView> {
    match u8_at(bytes, at) {
        Err(error) => Err(error),
        Ok((tag, at)) => if tag == 1 {
            Ok((ExtentKindView::Hole, at))
        } else if tag == 2 {
            Ok((ExtentKindView::AllocatedZero, at))
        } else if tag == 3 {
            match take_at(bytes, at, 32) {
                Err(error) => Err(error),
                Ok((digest, at)) => match u64_at(bytes, at) {
                    Err(error) => Err(error),
                    Ok((object_offset, end)) => Ok(
                        (
                            ExtentKindView::Content {
                                object: ObjectView { kind: ObjectKind::Blob, digest },
                                object_offset,
                            },
                            end,
                        ),
                    ),
                },
            }
        } else {
            Err(DecodeErrorView::UnknownTag { field: "extent_kind"@, tag })
        },
    }
}

/// Whether a kind can be written and read back.
pub open spec fn kind_sound(kind: ExtentKindView) -> bool {
    kind matches ExtentKindView::Content { object, .. } ==> object.kind == ObjectKind::Blob
        && object.digest.len() == 32
}

proof fn kind_reads_back(kind: ExtentKindView, before: Seq<u8>, after: Seq<u8>)
    requires
        kind_sound(kind),
        before.len() + kind_bytes(kind).len() + after.len() <= usize::MAX,
    ensures
        kind_at(before + kind_bytes(kind) + after, before.len() as int) == Ok::<
            (ExtentKindView, int),
            DecodeErrorView,
        >((kind, (before.len() + kind_bytes(kind).len()) as int)),
{
    lemma_auto_spec_u64_to_from_le_bytes();
    let whole = before + kind_bytes(kind) + after;
    assert(whole[before.len() as int] == kind_bytes(kind)[0]);
    if let ExtentKindView::Content { object, object_offset } = kind {
        let front = before + seq![3u8];
        let number = spec_u64_to_le_bytes(object_offset);
        run_reads_back(object.digest, front, number + after);
        assert(whole =~= front + object.digest + (number + after));
        u64_reads_back(object_offset, front + object.digest, after);
        assert(whole =~= (front + object.digest) + number + after);
    }
}

proof fn kind_writes_back(bytes: Seq<u8>, at: int)
    requires
        0 <= at,
        kind_at(bytes, at) is Ok,
    ensures
        ({
            let (kind, end) = kind_at(bytes, at)->Ok_0;
            &&& at <= end <= bytes.len()
            &&& kind_sound(kind)
            &&& kind_bytes(kind) == bytes.subrange(at, end)
        }),
{
    let (kind, end) = kind_at(bytes, at)->Ok_0;
    if bytes[at] == 3 {
        u64_writes_back(bytes, at + 33);
    }
    assert(kind_bytes(kind) =~= bytes.subrange(at, end));
}

impl CanonicalItem for Extent {
    open spec fn item_fits(value: ExtentView, limits: DecodeLimits) -> bool {
        kind_sound(value.kind)
    }

    open spec fn item_writable(value: ExtentView) -> bool {
        true
    }

    open spec fn item_bytes(value: ExtentView) -> Seq<u8> {
        spec_u64_to_le_bytes(value.offset) + spec_u64_to_le_bytes(value.length) + kind_bytes(
            value.kind,
        )
    }

    open spec fn item_at(bytes: Seq<u8>, at: int, limits: DecodeLimits) -> Field<ExtentView> {
        match u64_at(bytes, at) {
            Err(error) => Err(error),
            Ok((offset, at)) => match u64_at(bytes, at) {
                Err(error) => Err(error),
                Ok((length, at)) => match kind_at(bytes, at) {
                    Err(error) => Err(error),
                    Ok((kind, end)) => Ok((ExtentView { offset, length, kind }, end)),
                },
            },
        }
    }

    open spec fn skip_at(bytes: Seq<u8>, at: int, limits: DecodeLimits) -> Field<nat> {
        match Self::item_at(bytes, at, limits) {
            Err(error) => Err(error),
            Ok((_, end)) => Ok((0, end)),
        }
    }

    open spec fn nested(value: ExtentView) -> nat {
        0
    }

    proof fn item_reads_back(
        value: ExtentView,
        before: Seq<u8>,
        after: Seq<u8>,
        limits: DecodeLimits,
    ) {
        lemma_auto_spec_u64_to_from_le_bytes();
        let offset = spec_u64_to_le_bytes(value.offset);
        let length = spec_u64_to_le_bytes(value.length);
        let kind = kind_bytes(value.kind);
        let whole = before + Self::item_bytes(value) + after;
        u64_reads_back(value.offset, before, length + kind + after);
        assert(whole =~= before + offset + (length + kind + after));
        u64_reads_back(value.length, before + offset, kind + after);
        assert(whole =~= (before + offset) + length + (kind + after));
        kind_reads_back(value.kind, before + offset + length, after);
        assert(whole =~= (before + offset + length) + kind + after);
    }

    proof fn item_writes_back(bytes: Seq<u8>, at: int, limits: DecodeLimits) {
        u64_writes_back(bytes, at);
        u64_writes_back(bytes, at + 8);
        kind_writes_back(bytes, at + 16);
        let (value, end) = Self::item_at(bytes, at, limits)->Ok_0;
        assert(Self::item_bytes(value) =~= bytes.subrange(at, end));
    }

    proof fn skip_stays_within(bytes: Seq<u8>, at: int, limits: DecodeLimits) {
        Self::item_writes_back(bytes, at, limits);
    }

    fn write_item(&self, encoder: &mut Encoder) -> (r: Result<(), CanonicalDecodeError>) {
        let ghost start = encoder@;
        encoder.u64(self.offset);
        encoder.u64(self.length);
        match self.kind {
            ExtentKind::Hole => encoder.u8(1),
            ExtentKind::AllocatedZero => encoder.u8(2),
            ExtentKind::Content { object, object_offset } => {
                encoder.u8(3);
                encoder.fixed(object.digest.bytes.as_slice());
                encoder.u64(object_offset);
            },
        }
        assert(encoder@ =~= start + Self::item_bytes(self@));
        Ok(())
    }

    fn read_item(decoder: &mut Decoder<'_>, limits: DecodeLimits) -> (r: Result<
        Self,
        CanonicalDecodeError,
    >) {
        let offset = match decoder.u64() {
            Ok(offset) => offset,
            Err(error) => {
                return Err(error);
            },
        };
        let length = match decoder.u64() {
            Ok(length) => length,
            Err(error) => {
                return Err(error);
            },
        };
        let kind = match decoder.u8() {
            Err(error) => {
                return Err(error);
            },
            Ok(1) => ExtentKind::Hole,
            Ok(2) => ExtentKind::AllocatedZero,
            Ok(3) => {
                let digest = match decoder.fixed32() {
                    Ok(digest) => digest,
                    Err(error) => {
                        return Err(error);
                    },
                };
                match decoder.u64() {
                    Ok(object_offset) => ExtentKind::Content {
                        object: ObjectId {
                            kind: ObjectKind::Blob,
                            digest: Digest::from_bytes(digest),
                        },
                        object_offset,
                    },
                    Err(error) => {
                        return Err(error);
                    },
                }
            },
            Ok(tag) => {
                return Err(CanonicalDecodeError::UnknownTag { field: "extent_kind", tag });
            },
        };
        Ok(Extent { offset, length, kind })
    }

    fn skip_item(decoder: &mut Decoder<'_>, limits: DecodeLimits) -> (r: Result<
        usize,
        CanonicalDecodeError,
    >) {
        match Extent::read_item(decoder, limits) {
            Ok(_) => Ok(0),
            Err(error) => Err(error),
        }
    }
}

impl CanonicalItem for ExtentChild {
    open spec fn item_fits(value: ExtentChildView, limits: DecodeLimits) -> bool {
        value.page.kind == ObjectKind::ExtentPage && value.page.digest.len() == 32
    }

    open spec fn item_writable(value: ExtentChildView) -> bool {
        true
    }

    open spec fn item_bytes(value: ExtentChildView) -> Seq<u8> {
        spec_u64_to_le_bytes(value.first_offset) + spec_u64_to_le_bytes(value.end_offset)
            + value.page.digest
    }

    open spec fn item_at(bytes: Seq<u8>, at: int, limits: DecodeLimits) -> Field<ExtentChildView> {
        match u64_at(bytes, at) {
            Err(error) => Err(error),
            Ok((first_offset, at)) => match u64_at(bytes, at) {
                Err(error) => Err(error),
                Ok((end_offset, at)) => match take_at(bytes, at, 32) {
                    Err(error) => Err(error),
                    Ok((digest, end)) => Ok(
                        (
                            ExtentChildView {
                                first_offset,
                                end_offset,
                                page: ObjectView { kind: ObjectKind::ExtentPage, digest },
                            },
                            end,
                        ),
                    ),
                },
            },
        }
    }

    open spec fn skip_at(bytes: Seq<u8>, at: int, limits: DecodeLimits) -> Field<nat> {
        match Self::item_at(bytes, at, limits) {
            Err(error) => Err(error),
            Ok((_, end)) => Ok((0, end)),
        }
    }

    open spec fn nested(value: ExtentChildView) -> nat {
        0
    }

    proof fn item_reads_back(
        value: ExtentChildView,
        before: Seq<u8>,
        after: Seq<u8>,
        limits: DecodeLimits,
    ) {
        lemma_auto_spec_u64_to_from_le_bytes();
        let first = spec_u64_to_le_bytes(value.first_offset);
        let end = spec_u64_to_le_bytes(value.end_offset);
        let digest = value.page.digest;
        let whole = before + Self::item_bytes(value) + after;
        u64_reads_back(value.first_offset, before, end + digest + after);
        assert(whole =~= before + first + (end + digest + after));
        u64_reads_back(value.end_offset, before + first, digest + after);
        assert(whole =~= (before + first) + end + (digest + after));
        run_reads_back(digest, before + first + end, after);
        assert(whole =~= (before + first + end) + digest + after);
    }

    proof fn item_writes_back(bytes: Seq<u8>, at: int, limits: DecodeLimits) {
        u64_writes_back(bytes, at);
        u64_writes_back(bytes, at + 8);
        let (value, end) = Self::item_at(bytes, at, limits)->Ok_0;
        assert(Self::item_bytes(value) =~= bytes.subrange(at, end));
    }

    proof fn skip_stays_within(bytes: Seq<u8>, at: int, limits: DecodeLimits) {
        Self::item_writes_back(bytes, at, limits);
    }

    fn write_item(&self, encoder: &mut Encoder) -> (r: Result<(), CanonicalDecodeError>) {
        let ghost start = encoder@;
        encoder.u64(self.first_offset);
        encoder.u64(self.end_offset);
        encoder.fixed(self.page.digest.bytes.as_slice());
        assert(encoder@ =~= start + Self::item_bytes(self@));
        Ok(())
    }

    fn read_item(decoder: &mut Decoder<'_>, limits: DecodeLimits) -> (r: Result<
        Self,
        CanonicalDecodeError,
    >) {
        let first_offset = match decoder.u64() {
            Ok(offset) => offset,
            Err(error) => {
                return Err(error);
            },
        };
        let end_offset = match decoder.u64() {
            Ok(offset) => offset,
            Err(error) => {
                return Err(error);
            },
        };
        match decoder.fixed32() {
            Ok(digest) => Ok(
                ExtentChild {
                    first_offset,
                    end_offset,
                    page: ObjectId {
                        kind: ObjectKind::ExtentPage,
                        digest: Digest::from_bytes(digest),
                    },
                },
            ),
            Err(error) => Err(error),
        }
    }

    fn skip_item(decoder: &mut Decoder<'_>, limits: DecodeLimits) -> (r: Result<
        usize,
        CanonicalDecodeError,
    >) {
        match ExtentChild::read_item(decoder, limits) {
            Ok(_) => Ok(0),
            Err(error) => Err(error),
        }
    }
}

/// The extent page format.
pub open spec fn extent_format() -> PageFormat {
    PageFormat {
        domain: seq![65u8, 67, 89, 70, 83, 69, 88, 84],
        version: 1,
        field: "extent_page"@,
    }
}

/// The extent page format: domain `ACYFSEXT`, version one.
pub(crate) fn format() -> (r: Format)
    ensures
        r@ == extent_format(),
{
    let r = Format {
        domain: [65u8, 67, 89, 70, 83, 69, 88, 84],
        version: 1,
        field: "extent_page",
    };
    assert(r.domain@ =~= extent_format().domain);
    r
}

/// The canonical bytes of a page, or why it has none.
pub open spec fn extent_encoded(page: ExtentPageView, maximum_items: u32) -> Result<
    Seq<u8>,
    DecodeErrorView,
> {
    match extent_page_problem(page, maximum_items) {
        Some(error) => Err(extent_failure(error)),
        None => Ok(page_bytes::<Extent, ExtentChild>(extent_format(), page)),
    }
}

/// The page that bytes stand for, or why they stand for none.
pub open spec fn extent_decoded(bytes: Seq<u8>, limits: DecodeLimits) -> Result<
    ExtentPageView,
    DecodeErrorView,
> {
    match page_at::<Extent, ExtentChild>(bytes, extent_format(), limits) {
        Err(error) => Err(error),
        Ok(page) => match extent_page_problem(page, limits.maximum_page_items) {
            Some(error) => Err(extent_failure(error)),
            None => Ok(page),
        },
    }
}

/// Encodes one validated sparse extent page.
pub fn encode_extent_page(page: &ExtentPage, maximum_items: u32) -> (r: Result<
    Vec<u8>,
    CanonicalDecodeError,
>)
    ensures
        stands_for(r, extent_encoded(page@, maximum_items)),
{
    if let Err(error) = page.validate(maximum_items) {
        return Err(broken(error));
    }
    match page {
        ExtentPage::Leaf(extents) => write_entries(extents, 1, format()),
        ExtentPage::Internal(children) => write_entries(children, 2, format()),
    }
}

/// Decodes and validates one bounded sparse extent page.
pub fn decode_extent_page(bytes: &[u8], limits: DecodeLimits) -> (r: Result<
    ExtentPage,
    CanonicalDecodeError,
>)
    ensures
        stands_for(r, extent_decoded(bytes@, limits)),
{
    let page = match read_page::<Extent, ExtentChild>(bytes, format(), limits) {
        Err(error) => {
            return Err(error);
        },
        Ok(Page::Leaf(extents)) => ExtentPage::Leaf(extents),
        Ok(Page::Internal(children)) => ExtentPage::Internal(children),
    };
    match page.validate(limits.maximum_page_items) {
        Err(error) => Err(broken(error)),
        Ok(()) => Ok(page),
    }
}

/// Finds the extent of an extent page without building it.
pub fn extent_page_decode_shape(bytes: &[u8], limits: DecodeLimits) -> (r: Result<
    DecodedPageShape,
    CanonicalDecodeError,
>)
    ensures
        match page_shape::<Extent, ExtentChild>(bytes@, extent_format(), limits) {
            Ok((kind, items, nested)) => r matches Ok(shape) && shape.kind == kind && shape.items
                == items && shape.nested_bytes == nested,
            Err(e) => r matches Err(error) && error@ == e,
        },
{
    read_shape::<Extent, ExtentChild>(bytes, format(), limits)
}

/// Computes the typed authenticated identity of one sparse extent page.
pub fn extent_page_id(page: &ExtentPage, maximum_items: u32) -> (r: Result<
    ObjectId,
    CanonicalDecodeError,
>)
    ensures
        stands_for(
            r,
            match extent_encoded(page@, maximum_items) {
                Ok(bytes) => Ok(object_named(ObjectKind::ExtentPage, bytes)),
                Err(error) => Err(error),
            },
        ),
{
    match encode_extent_page(page, maximum_items) {
        Ok(bytes) => Ok(object_id(ObjectKind::ExtentPage, bytes.as_slice())),
        Err(error) => Err(error),
    }
}

/// A page that can be encoded and fits the bounds decodes to itself.
pub proof fn extent_page_round_trip(
    page: ExtentPageView,
    maximum_items: u32,
    limits: DecodeLimits,
)
    requires
        extent_encoded(page, maximum_items) is Ok,
        page_fits::<Extent, ExtentChild>(extent_format(), page, limits),
    ensures
        extent_decoded(extent_encoded(page, maximum_items)->Ok_0, limits) == Ok::<
            ExtentPageView,
            DecodeErrorView,
        >(page),
{
    page_reads_back::<Extent, ExtentChild>(extent_format(), page, limits);
}

/// Bytes that decode are the one encoding of what they decode to.
pub proof fn extent_bytes_are_canonical(bytes: Seq<u8>, limits: DecodeLimits)
    requires
        bytes.len() <= usize::MAX,
        extent_decoded(bytes, limits) is Ok,
    ensures
        extent_encoded(extent_decoded(bytes, limits)->Ok_0, limits.maximum_page_items) == Ok::<
            Seq<u8>,
            DecodeErrorView,
        >(bytes),
{
    page_writes_back::<Extent, ExtentChild>(bytes, extent_format(), limits);
}

/// Canonical bytes of an extent page with bytes added or cut off at the end are refused.
pub proof fn extent_bytes_are_whole(bytes: Seq<u8>, more: Seq<u8>, count: int, limits: DecodeLimits)
    requires
        extent_decoded(bytes, limits) is Ok,
        more.len() > 0,
        bytes.len() + more.len() <= usize::MAX,
        0 <= count < bytes.len(),
    ensures
        extent_decoded(bytes + more, limits) == Err::<ExtentPageView, DecodeErrorView>(
            refused_more(bytes + more, limits.page_object_bytes()),
        ),
        extent_decoded(bytes.take(count), limits) is Err,
{
    page_refuses_more::<Extent, ExtentChild>(bytes, more, extent_format(), limits);
    page_refuses_less::<Extent, ExtentChild>(bytes, count, extent_format(), limits);
}

/// Length of an encoded extent: 17 bytes, and 40 more for content.
pub open spec fn extent_item_length(extent: ExtentView) -> nat {
    if extent.kind is Content {
        57
    } else {
        17
    }
}

/// The canonical bytes of an extent have the stated length.
pub proof fn extent_item_length_is_exact(extent: ExtentView)
    requires
        kind_sound(extent.kind),
    ensures
        Extent::item_bytes(extent).len() == extent_item_length(extent),
{
    lemma_auto_spec_u64_to_from_le_bytes();
}

} // verus!
