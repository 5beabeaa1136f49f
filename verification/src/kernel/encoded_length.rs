//! Exact lengths of canonical pages, known before they are encoded.

use super::attribute::{
    attribute_format, AttributeChild, AttributeChildView, AttributeEntry, AttributeEntryView,
};
use super::blob::{blob_encoded, spans_sound, BlobNode, BlobPage};
use super::blob_build::{blob_page_length_is_exact, BLOB_PAGE_HEADER_BYTES, BLOB_PAGE_ITEM_BYTES};
use super::codec::{
    entries_bytes, items_bytes, CanonicalDecodeError, CanonicalItem, DecodeErrorView, PageFormat,
};
use super::extent::{
    broken, extent_encoded, extent_fits, extent_format, extent_item_length_is_exact,
    extents_ordered, kind_sound, Extent, ExtentChild, ExtentChildView, ExtentKind, ExtentPage,
    ExtentView,
};
use super::extent_mutation::{EXTENT_CHILD_BYTES, EXTENT_PAGE_HEADER_BYTES};
use crate::order::views;
use vstd::bytes::*;
use vstd::prelude::*;

verus! {

/// Bytes of an attribute page in front of its items.
pub const ATTRIBUTE_PAGE_HEADER_BYTES: usize = 15;

/// Whether a page holds more items than it may; the widest bound bounds nothing.
pub open spec fn overfull(count: nat, maximum_items: u32) -> bool {
    maximum_items < u32::MAX && count > maximum_items
}

/// Whether a length is that of some bytes, or overflows where theirs does.
pub open spec fn measures(r: Result<usize, CanonicalDecodeError>, bytes: Seq<u8>) -> bool {
    if bytes.len() <= usize::MAX {
        r == Ok::<usize, CanonicalDecodeError>(bytes.len() as usize)
    } else {
        r matches Err(error) && error@ == DecodeErrorView::LengthOverflow
    }
}

proof fn lemma_page_length<T: CanonicalItem>(format: PageFormat, tag: u8, entries: Seq<T::V>)
    requires
        format.domain.len() == 8,
    ensures
        entries_bytes::<T>(format, tag, entries).len() == 15 + items_bytes::<T>(entries).len(),
{
    lemma_auto_spec_u16_to_from_le_bytes();
    lemma_auto_spec_u32_to_from_le_bytes();
}

proof fn lemma_items_next<T: CanonicalItem>(entries: Seq<T::V>, i: int)
    requires
        0 <= i < entries.len(),
    ensures
        items_bytes::<T>(entries.take(i + 1)).len() == items_bytes::<T>(entries.take(i)).len()
            + T::item_bytes(entries[i]).len(),
{
    let longer = entries.take(i + 1);
    assert(longer.drop_last() =~= entries.take(i));
    assert(longer.last() == entries[i]);
}

proof fn lemma_items_grow<T: CanonicalItem>(entries: Seq<T::V>, i: int)
    requires
        0 <= i <= entries.len(),
    ensures
        items_bytes::<T>(entries.take(i)).len() <= items_bytes::<T>(entries).len(),
    decreases entries.len() - i,
{
    if i < entries.len() {
        lemma_items_next::<T>(entries, i);
        lemma_items_grow::<T>(entries, i + 1);
    } else {
        assert(entries.take(i) =~= entries);
    }
}

/// Length of one encoded leaf entry, where it fits the machine's lengths.
pub fn attribute_leaf_item_encoded_length(entry: &AttributeEntry) -> (r: Option<usize>)
    ensures
        match r {
            Some(length) => length == AttributeEntry::item_bytes(entry@).len(),
            None => AttributeEntry::item_bytes(entry@).len() > usize::MAX,
        },
{
    proof {
        lemma_auto_spec_u32_to_from_le_bytes();
        lemma_auto_spec_u64_to_from_le_bytes();
    }
    entry.name.as_bytes().len().checked_add(45)
}

/// Length of one encoded child, where it fits the machine's lengths.
pub fn attribute_internal_item_encoded_length(child: &AttributeChild) -> (r: Option<usize>)
    ensures
        match r {
            Some(length) => length == AttributeChild::item_bytes(child@).len(),
            None => AttributeChild::item_bytes(child@).len() > usize::MAX,
        },
{
    proof {
        lemma_auto_spec_u32_to_from_le_bytes();
    }
    child.first_name.as_bytes().len().checked_add(37)
}

/// Length of an encoded leaf page.
pub fn attribute_leaf_page_encoded_length(entries: &Vec<AttributeEntry>, maximum_items: u32) -> (r: Result<
    usize,
    CanonicalDecodeError,
>)
    ensures
        if overfull(entries@.len(), maximum_items) {
            r matches Err(error) && error@ == DecodeErrorView::LengthOverflow
        } else {
            measures(r, entries_bytes::<AttributeEntry>(attribute_format(), 1, views(entries@)))
        },
{
    if maximum_items < u32::MAX && entries.len() > maximum_items as usize {
        return Err(CanonicalDecodeError::LengthOverflow);
    }
    let ghost all = views(entries@);
    let mut bytes: usize = ATTRIBUTE_PAGE_HEADER_BYTES;
    let mut i: usize = 0;
    proof {
        lemma_page_length::<AttributeEntry>(attribute_format(), 1, all);
        assert(all.take(0) =~= Seq::<AttributeEntryView>::empty());
    }
    while i < entries.len()
        invariant
            i <= entries@.len(),
            all == views(entries@),
            !overfull(entries@.len(), maximum_items),
            bytes == 15 + items_bytes::<AttributeEntry>(all.take(i as int)).len(),
            entries_bytes::<AttributeEntry>(attribute_format(), 1, all).len() == 15 + items_bytes::<
                AttributeEntry,
            >(all).len(),
        decreases entries@.len() - i,
    {
        assert(all[i as int] == entries@[i as int]@);
        proof {
            lemma_items_next::<AttributeEntry>(all, i as int);
            lemma_items_grow::<AttributeEntry>(all, i + 1);
        }
        let item = match attribute_leaf_item_encoded_length(&entries[i]) {
            Some(item) => item,
            None => {
                return Err(CanonicalDecodeError::LengthOverflow);
            },
        };
        bytes = match bytes.checked_add(item) {
            Some(sum) => sum,
            None => {
                return Err(CanonicalDecodeError::LengthOverflow);
            },
        };
        i = i + 1;
    }
    assert(all.take(i as int) =~= all);
    Ok(bytes)
}

/// Length of an encoded page above leaves.
pub fn attribute_internal_page_encoded_length(children: &Vec<AttributeChild>, maximum_items: u32) -> (r:
    Result<usize, CanonicalDecodeError>)
    ensures
        if overfull(children@.len(), maximum_items) {
            r matches Err(error) && error@ == DecodeErrorView::LengthOverflow
        } else {
            measures(r, entries_bytes::<AttributeChild>(attribute_format(), 2, views(children@)))
        },
{
    if maximum_items < u32::MAX && children.len() > maximum_items as usize {
        return Err(CanonicalDecodeError::LengthOverflow);
    }
    let ghost all = views(children@);
    let mut bytes: usize = ATTRIBUTE_PAGE_HEADER_BYTES;
    let mut i: usize = 0;
    proof {
        lemma_page_length::<AttributeChild>(attribute_format(), 2, all);
        assert(all.take(0) =~= Seq::<AttributeChildView>::empty());
    }
    while i < children.len()
        invariant
            i <= children@.len(),
            all == views(children@),
            !overfull(children@.len(), maximum_items),
            bytes == 15 + items_bytes::<AttributeChild>(all.take(i as int)).len(),
            entries_bytes::<AttributeChild>(attribute_format(), 2, all).len() == 15 + items_bytes::<
                AttributeChild,
            >(all).len(),
        decreases children@.len() - i,
    {
        assert(all[i as int] == children@[i as int]@);
        proof {
            lemma_items_next::<AttributeChild>(all, i as int);
            lemma_items_grow::<AttributeChild>(all, i + 1);
        }
        let item = match attribute_internal_item_encoded_length(&children[i]) {
            Some(item) => item,
            None => {
                return Err(CanonicalDecodeError::LengthOverflow);
            },
        };
        bytes = match bytes.checked_add(item) {
            Some(sum) => sum,
            None => {
                return Err(CanonicalDecodeError::LengthOverflow);
            },
        };
        i = i + 1;
    }
    assert(all.take(i as int) =~= all);
    Ok(bytes)
}

/// Length of an encoded extent page.
pub fn extent_page_encoded_length(page: &ExtentPage, maximum_items: u32) -> (r: Result<
    usize,
    CanonicalDecodeError,
>)
    ensures
        match extent_encoded(page@, maximum_items) {
            Err(cause) => r matches Err(error) && error@ == cause,
            Ok(bytes) => measures(r, bytes),
        },
{
    if let Err(error) = page.validate(maximum_items) {
        return Err(broken(error));
    }
    match page {
        ExtentPage::Leaf(extents) => {
            let ghost all = views(extents@);
            let mut bytes: usize = EXTENT_PAGE_HEADER_BYTES;
            let mut i: usize = 0;
            proof {
                lemma_page_length::<Extent>(extent_format(), 1, all);
                assert(all.take(0) =~= Seq::<ExtentView>::empty());
            }
            while i < extents.len()
                invariant
                    i <= extents@.len(),
                    all == views(extents@),
                    extents_ordered(all),
                    bytes == 15 + items_bytes::<Extent>(all.take(i as int)).len(),
                    entries_bytes::<Extent>(extent_format(), 1, all).len() == 15 + items_bytes::<
                        Extent,
                    >(all).len(),
                    extent_encoded(page@, maximum_items) == Ok::<Seq<u8>, DecodeErrorView>(
                        entries_bytes::<Extent>(extent_format(), 1, all),
                    ),
                decreases extents@.len() - i,
            {
                assert(all[i as int] == extents@[i as int]@);
                let item: usize = match extents[i].kind {
                    ExtentKind::Content { .. } => 57,
                    _ => 17,
                };
                proof {
                    assert(extent_fits(all[i as int]));
                    assert(kind_sound(all[i as int].kind));
                    extent_item_length_is_exact(all[i as int]);
                    lemma_items_next::<Extent>(all, i as int);
                    lemma_items_grow::<Extent>(all, i + 1);
                }
                bytes = match bytes.checked_add(item) {
                    Some(sum) => sum,
                    None => {
                        return Err(CanonicalDecodeError::LengthOverflow);
                    },
                };
                i = i + 1;
            }
            assert(all.take(i as int) =~= all);
            Ok(bytes)
        },
        ExtentPage::Internal(children) => {
            let ghost all = views(children@);
            proof {
                lemma_page_length::<ExtentChild>(extent_format(), 2, all);
                lemma_children_length(children@, children@.len());
                assert(all.take(all.len() as int) =~= all);
            }
            match children.len().checked_mul(EXTENT_CHILD_BYTES) {
                Some(items) => match items.checked_add(EXTENT_PAGE_HEADER_BYTES) {
                    Some(bytes) => Ok(bytes),
                    None => Err(CanonicalDecodeError::LengthOverflow),
                },
                None => Err(CanonicalDecodeError::LengthOverflow),
            }
        },
    }
}

proof fn lemma_children_length(children: Seq<ExtentChild>, count: nat)
    requires
        count <= children.len(),
    ensures
        items_bytes::<ExtentChild>(views(children).take(count as int)).len() == 48 * count,
    decreases count,
{
    let all = views(children);
    if count > 0 {
        lemma_children_length(children, (count - 1) as nat);
        lemma_items_next::<ExtentChild>(all, count - 1);
        lemma_auto_spec_u64_to_from_le_bytes();
        assert(all[count - 1] == children[count - 1]@);
    } else {
        assert(all.take(0) =~= Seq::<ExtentChildView>::empty());
    }
}

/// Length of an encoded blob-index page.
pub fn blob_page_encoded_length(page: &BlobPage, maximum_items: u32) -> (r: Result<
    usize,
    CanonicalDecodeError,
>)
    ensures
        match blob_encoded(page@, maximum_items) {
            Err(cause) => r matches Err(error) && error@ == cause,
            Ok(bytes) => measures(r, bytes),
        },
{
    if let Err(error) = page.validate(maximum_items) {
        return Err(error);
    }
    let items = match &page.node {
        BlobNode::Leaf(items) => {
            assert forall|i: int| 0 <= i < items@.len() implies (
            #[trigger] views(items@)[i]).object.digest.len() == 32 by {
                assert(views(items@)[i] == items@[i]@);
            }
            items.len()
        },
        BlobNode::Internal(items) => {
            assert forall|i: int| 0 <= i < items@.len() implies (
            #[trigger] views(items@)[i]).object.digest.len() == 32 by {
                assert(views(items@)[i] == items@[i]@);
            }
            items.len()
        },
    };
    proof {
        assert(spans_sound(page@.spans));
        blob_page_length_is_exact(page@);
    }
    match items.checked_mul(BLOB_PAGE_ITEM_BYTES) {
        Some(bytes) => match bytes.checked_add(BLOB_PAGE_HEADER_BYTES) {
            Some(bytes) => Ok(bytes),
            None => Err(CanonicalDecodeError::LengthOverflow),
        },
        None => Err(CanonicalDecodeError::LengthOverflow),
    }
}

} // verus!
