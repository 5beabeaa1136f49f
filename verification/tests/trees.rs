//! Batched lookups, listings and range reads over trees of pages.

use acyclic_filesystem::foundation::{Digest, FileId};
use acyclic_filesystem::kernel::allocation::AllocationError;
use acyclic_filesystem::kernel::attribute::{
    encode_attribute_page, AttributeChild, AttributeClass, AttributeEntry, AttributeName,
    AttributePage,
};
use acyclic_filesystem::kernel::attribute_access::{lookup_attributes, AttributeLookupError};
use acyclic_filesystem::kernel::attribute_list::{list_attributes, AttributeListError};
use acyclic_filesystem::kernel::attribute_mutation::{
    apply_attribute_mutations, AttributeMutation, AttributeMutationError,
    AttributeMutationReceipt, AttributeSemanticError, PathCopyError,
};
use acyclic_filesystem::kernel::blob_build::{build_blob, BlobBuildOptions, MemoryBlobSource};
use acyclic_filesystem::kernel::blob_read::ResidencyReason;
use acyclic_filesystem::kernel::blob::{encode_blob_page, BlobChunkRef, BlobNode, BlobPage};
use acyclic_filesystem::kernel::codec::{CanonicalDecodeError, DecodeLimits};
use acyclic_filesystem::kernel::encoded_length::{
    attribute_internal_page_encoded_length, attribute_leaf_page_encoded_length,
    blob_page_encoded_length, extent_page_encoded_length,
};
use acyclic_filesystem::kernel::extent::{
    encode_extent_page, Extent, ExtentChild, ExtentKind, ExtentPage,
};
use acyclic_filesystem::kernel::file_lookup::{lookup_file_records, FileRecordReadError};
use acyclic_filesystem::kernel::extent_clone::ExtentPlan;
use acyclic_filesystem::kernel::file_read::{
    read_file_range, FileRangeReadError, FileRangeRequest,
};
use acyclic_filesystem::kernel::file_table::{
    encode_file_table_page, FilePayload, FileRecord, FileTableChild, FileTablePage, InlineFileData,
};
use acyclic_filesystem::kernel::name::FileKind;
use acyclic_filesystem::performance::{OperationFailure, WorkBudget, WorkCounters, WorkError};
use acyclic_filesystem::storage::{
    ByteRange, MemoryObjectStore, ObjectId, ObjectKind, ObjectStoreError,
};

fn limits() -> DecodeLimits {
    DecodeLimits::default()
}

fn unbounded() -> WorkBudget {
    WorkBudget::unbounded()
}

fn object(kind: ObjectKind, byte: u8) -> ObjectId {
    ObjectId { kind, digest: Digest::from_bytes([byte; 32]) }
}

fn name(text: &[u8]) -> AttributeName {
    AttributeName::new(AttributeClass::PosixXattr, text.to_vec(), 255).expect("name")
}

fn entry(text: &[u8], byte: u8) -> AttributeEntry {
    AttributeEntry { name: name(text), value_bytes: 1, value: object(ObjectKind::Blob, byte) }
}

fn attribute_page(store: &mut MemoryObjectStore, page: &AttributePage) -> ObjectId {
    let bytes = encode_attribute_page(page, 8).expect("valid");
    store.insert(ObjectKind::AttributePage, &bytes).expect("stored")
}

/// A tree with the leaves `a b`, `d` and `f g`.
fn attribute_tree() -> (MemoryObjectStore, ObjectId) {
    let mut store = MemoryObjectStore::new();
    let leaves = [
        vec![entry(b"a", 1), entry(b"b", 2)],
        vec![entry(b"d", 4)],
        vec![entry(b"f", 6), entry(b"g", 7)],
    ];
    let mut children = Vec::new();
    for leaf in leaves {
        let first_name = name(leaf[0].name.as_bytes());
        let page = attribute_page(&mut store, &AttributePage::Leaf(leaf));
        children.push(AttributeChild { first_name, page });
    }
    let root = attribute_page(&mut store, &AttributePage::Internal(children));
    (store, root)
}

#[test]
fn attribute_batches_answer_in_order_and_read_pages_once() {
    let (store, root) = attribute_tree();
    let names = vec![name(b"g"), name(b"a"), name(b"c"), name(b"b"), name(b"g"), name(b"0")];
    let found = lookup_attributes(&store, root, &names, 6, limits(), unbounded()).expect("read");
    assert_eq!(
        found.entries,
        vec![
            Some(entry(b"g", 7)),
            Some(entry(b"a", 1)),
            None,
            Some(entry(b"b", 2)),
            Some(entry(b"g", 7)),
            None,
        ]
    );
    assert_eq!(found.work.page_reads, 3);
    assert_eq!(found.work.items_returned, 4);
}

#[test]
fn attribute_batches_are_refused_before_any_work() {
    let (store, root) = attribute_tree();
    let none = lookup_attributes(&store, root, &Vec::new(), 6, limits(), unbounded())
        .expect_err("empty");
    assert_eq!(none.error, AttributeLookupError::EmptyBatch);
    assert_eq!(none.work, WorkCounters::default());
    let two = vec![name(b"a"), name(b"b")];
    assert_eq!(
        lookup_attributes(&store, root, &two, 1, limits(), unbounded()).expect_err("many").error,
        AttributeLookupError::TooManyQueries
    );
    let blob = object(ObjectKind::Blob, 1);
    assert_eq!(
        lookup_attributes(&store, blob, &two, 2, limits(), unbounded()).expect_err("kind").error,
        AttributeLookupError::WrongRootKind
    );
    let mut closed = limits();
    closed.maximum_page_height = 0;
    assert_eq!(
        lookup_attributes(&store, root, &two, 2, closed, unbounded()).expect_err("limits").error,
        AttributeLookupError::InvalidLimits
    );
    let mut flat = limits();
    flat.maximum_page_height = 1;
    assert_eq!(
        lookup_attributes(&store, root, &two, 2, flat, unbounded()).expect_err("height").error,
        AttributeLookupError::HeightExceeded
    );
    let mut narrow = limits();
    narrow.maximum_visited_pages = 1;
    assert_eq!(
        lookup_attributes(&store, root, &two, 2, narrow, unbounded()).expect_err("pages").error,
        AttributeLookupError::AllocationFailed
    );
    let mut poor = unbounded();
    poor.page_reads = 1;
    assert_eq!(
        lookup_attributes(&store, root, &two, 2, limits(), poor).expect_err("budget").error,
        AttributeLookupError::Work(WorkError::Exceeded)
    );
    let lost = object(ObjectKind::AttributePage, 9);
    assert!(matches!(
        lookup_attributes(&store, lost, &two, 2, limits(), unbounded()).expect_err("lost").error,
        AttributeLookupError::Storage(_)
    ));
}

#[test]
fn attribute_batches_reject_forged_bounds() {
    let mut store = MemoryObjectStore::new();
    let leaf = attribute_page(&mut store, &AttributePage::Leaf(vec![entry(b"b", 2)]));
    let forged = AttributePage::Internal(vec![AttributeChild { first_name: name(b"a"), page: leaf }]);
    let root = attribute_page(&mut store, &forged);
    assert_eq!(
        lookup_attributes(&store, root, &vec![name(b"b")], 1, limits(), unbounded())
            .expect_err("bounds")
            .error,
        AttributeLookupError::ChildBoundsMismatch
    );
    assert_eq!(
        list_attributes(&store, root, &None, 1, limits(), unbounded()).expect_err("bounds").error,
        AttributeListError::ChildBoundsMismatch
    );
}

#[test]
fn listings_go_on_behind_their_cursor() {
    let (store, root) = attribute_tree();
    let mut seen = Vec::new();
    let mut cursor = None;
    let mut pages = 0;
    loop {
        let listing =
            list_attributes(&store, root, &cursor, 2, limits(), unbounded()).expect("listed");
        pages += 1;
        for item in &listing.entries {
            seen.push(item.name.as_bytes().to_vec());
        }
        let last = listing.entries.last().expect("an entry").name.as_bytes().to_vec();
        cursor = Some(name(&last));
        if !listing.has_more {
            assert!(listing.next_residency.is_none());
            break;
        }
    }
    assert_eq!(pages, 3);
    assert_eq!(seen, vec![b"a".to_vec(), b"b".to_vec(), b"d".to_vec(), b"f".to_vec(), b"g".to_vec()]);
}

#[test]
fn listings_name_the_page_that_follows() {
    let (store, root) = attribute_tree();
    let listing = list_attributes(&store, root, &None, 1, limits(), unbounded()).expect("listed");
    assert_eq!(listing.entries, vec![entry(b"a", 1)]);
    assert!(listing.has_more);
    let hint = listing.next_residency.expect("more pages");
    assert_eq!(hint.reason, ResidencyReason::MetadataSuccessor);
    assert_eq!(hint.object.kind, ObjectKind::AttributePage);
    let behind = list_attributes(&store, root, &Some(name(b"c")), 9, limits(), unbounded())
        .expect("listed");
    assert_eq!(behind.entries, vec![entry(b"d", 4), entry(b"f", 6), entry(b"g", 7)]);
    let over = list_attributes(&store, root, &Some(name(b"z")), 9, limits(), unbounded())
        .expect("listed");
    assert!(over.entries.is_empty());
    assert!(!over.has_more);
}

#[test]
fn listings_need_room_and_a_root() {
    let (store, root) = attribute_tree();
    let failure = list_attributes(&store, root, &None, 0, limits(), unbounded()).expect_err("zero");
    assert_eq!(failure.error, AttributeListError::ZeroLimit);
    let blob = object(ObjectKind::Blob, 1);
    assert_eq!(
        list_attributes(&store, blob, &None, 1, limits(), unbounded()).expect_err("kind").error,
        AttributeListError::WrongRootKind
    );
    let mut closed = limits();
    closed.maximum_visited_pages = 0;
    assert_eq!(
        list_attributes(&store, root, &None, 1, closed, unbounded()).expect_err("limits").error,
        AttributeListError::InvalidLimits
    );
    let mut flat = limits();
    flat.maximum_page_height = 1;
    assert_eq!(
        list_attributes(&store, root, &None, 1, flat, unbounded()).expect_err("height").error,
        AttributeListError::HeightExceeded
    );
    let mut poor = unbounded();
    poor.page_reads = 1;
    assert_eq!(
        list_attributes(&store, root, &None, 1, limits(), poor).expect_err("budget").error,
        AttributeListError::Work(WorkError::Exceeded)
    );
}

#[test]
fn mutation_batches_keep_what_the_tree_came_to() {
    let fine = vec![AttributeMutation::Insert(entry(b"a", 1))];
    let receipt = AttributeMutationReceipt {
        root: object(ObjectKind::AttributePage, 3),
        work: WorkCounters::of_page_writes(2),
    };
    assert_eq!(apply_attribute_mutations(&fine, Ok(receipt)), Ok(receipt));
    let mut wrong = entry(b"a", 1);
    wrong.value = object(ObjectKind::BlobChunk, 1);
    let malformed = vec![AttributeMutation::Insert(entry(b"b", 2)), AttributeMutation::Insert(wrong)];
    let refused = apply_attribute_mutations(&malformed, Ok(receipt)).expect_err("malformed");
    assert_eq!(
        refused.error,
        AttributeMutationError::Semantic(AttributeSemanticError::InvalidEntry)
    );
    assert_eq!(refused.work, WorkCounters::default());
    for (cause, expected) in [
        (PathCopyError::Empty, AttributeMutationError::Empty),
        (
            PathCopyError::Allocation(AllocationError::Work(WorkError::Exceeded)),
            AttributeMutationError::Work(WorkError::Exceeded),
        ),
        (
            PathCopyError::Allocation(AllocationError::Overflow),
            AttributeMutationError::AllocationFailed,
        ),
        (
            PathCopyError::Semantic(AttributeSemanticError::Missing),
            AttributeMutationError::Semantic(AttributeSemanticError::Missing),
        ),
        (
            PathCopyError::Storage(ObjectStoreError::Cancelled),
            AttributeMutationError::Storage(ObjectStoreError::Cancelled),
        ),
    ] {
        let spent = WorkCounters::of_page_reads(1);
        let failure = apply_attribute_mutations(&fine, Err(OperationFailure::new(cause, spent)))
            .expect_err("failed");
        assert_eq!(failure.error, expected);
        assert_eq!(failure.work, spent);
    }
}

fn file_record(byte: u8, payload: FilePayload, kind: FileKind) -> FileRecord {
    FileRecord {
        file_id: FileId::from_bytes([byte; 16]),
        kind,
        link_count: 1,
        metadata: object(ObjectKind::Metadata, 7),
        payload,
    }
}

fn inline_record(byte: u8, bytes: &[u8]) -> FileRecord {
    let data = InlineFileData::new(bytes).expect("small");
    file_record(byte, FilePayload::InlineRegular(data), FileKind::Regular)
}

#[test]
fn file_record_batches_answer_in_order() {
    let mut store = MemoryObjectStore::new();
    let mut children = Vec::new();
    for leaf in [vec![inline_record(1, b"one"), inline_record(3, b"three")], vec![inline_record(5, b"five")]] {
        let first_file_id = leaf[0].file_id;
        let bytes = encode_file_table_page(&FileTablePage::Leaf(leaf), 8).expect("valid");
        let page = store.insert(ObjectKind::FileTablePage, &bytes).expect("stored");
        children.push(FileTableChild { first_file_id, page });
    }
    let bytes = encode_file_table_page(&FileTablePage::Internal(children), 8).expect("valid");
    let root = store.insert(ObjectKind::FileTablePage, &bytes).expect("stored");
    let ids: Vec<FileId> = [5, 2, 1, 3].iter().map(|byte| FileId::from_bytes([*byte; 16])).collect();
    let found = lookup_file_records(&store, root, &ids, 4, limits(), unbounded()).expect("read");
    assert_eq!(
        found.records,
        vec![
            Some(inline_record(5, b"five")),
            None,
            Some(inline_record(1, b"one")),
            Some(inline_record(3, b"three")),
        ]
    );
    assert_eq!(found.work.page_reads, 3);
    assert_eq!(
        lookup_file_records(&store, root, &ids, 3, limits(), unbounded()).expect_err("many").error,
        FileRecordReadError::TooManyQueries
    );
    assert_eq!(
        lookup_file_records(&store, root, &Vec::new(), 3, limits(), unbounded())
            .expect_err("none")
            .error,
        FileRecordReadError::EmptyBatch
    );
    let mut closed = limits();
    closed.maximum_page_height = 0;
    assert_eq!(
        lookup_file_records(&store, root, &ids, 4, closed, unbounded()).expect_err("limits").error,
        FileRecordReadError::InvalidHeightLimit
    );
}

fn no_plan() -> ExtentPlan {
    ExtentPlan { spans: Vec::new(), work: WorkCounters::default(), retained_allocation_bytes: 0 }
}

fn range_request(record: FileRecord, offset: u64, length: u64, budget: WorkBudget) -> FileRangeRequest {
    FileRangeRequest {
        record,
        range: ByteRange { offset, length },
        maximum_spans: 8,
        limits: limits(),
        budget,
    }
}

#[test]
fn file_ranges_are_read_from_wherever_they_are() {
    let mut store = MemoryObjectStore::new();
    let mut source = MemoryBlobSource::new(b"hello".to_vec());
    let options = BlobBuildOptions {
        chunk_bytes: 4,
        page_items: 3,
        page_bytes: 4096,
        maximum_blob_bytes: 1 << 20,
    };
    let blob = build_blob(&mut store, &mut source, options, unbounded()).expect("built").root;
    let small = inline_record(1, b"abcdef");
    let read = read_file_range(&store, &range_request(small, 2, 3, unbounded()), &no_plan())
        .expect("read");
    assert_eq!(read.bytes, b"cde".to_vec());
    assert_eq!(read.work.bytes_copied, 3);
    assert_eq!(
        read_file_range(&store, &range_request(small, 4, 3, unbounded()), &no_plan())
            .expect_err("beyond")
            .error,
        FileRangeReadError::InvalidRange
    );
    let extents = object(ObjectKind::ExtentPage, 2);
    let sparse = file_record(
        2,
        FilePayload::Regular { logical_bytes: 8, extents },
        FileKind::Regular,
    );
    let plan = ExtentPlan {
        spans: vec![
            Extent { offset: 1, length: 2, kind: ExtentKind::Hole },
            Extent {
                offset: 3,
                length: 4,
                kind: ExtentKind::Content { object: blob, object_offset: 1 },
            },
        ],
        work: WorkCounters::of_page_reads(1),
        retained_allocation_bytes: 100,
    };
    let read = read_file_range(&store, &range_request(sparse, 1, 6, unbounded()), &plan)
        .expect("read");
    assert_eq!(read.bytes, b"\0\0ello".to_vec());
    assert_eq!(read.work.output_bytes, 6);
    assert_eq!(read.work.items_returned, 3);
    assert!(read.work.peak_allocation_bytes >= 106);
    let mut poor = unbounded();
    poor.peak_allocation_bytes = 105;
    let failure = read_file_range(&store, &range_request(sparse, 1, 6, poor), &plan)
        .expect_err("no room");
    assert_eq!(failure.error, FileRangeReadError::Work(WorkError::Exceeded));
    assert_eq!(failure.work.peak_allocation_bytes, 106);
    let empty = read_file_range(&store, &range_request(sparse, 1, 0, unbounded()), &no_plan())
        .expect("nothing");
    assert!(empty.bytes.is_empty());
    let directory = file_record(
        3,
        FilePayload::Directory { entries: object(ObjectKind::TreePage, 1) },
        FileKind::Directory,
    );
    assert_eq!(
        read_file_range(&store, &range_request(directory, 0, 1, unbounded()), &no_plan())
            .expect_err("directory")
            .error,
        FileRangeReadError::NotRegular
    );
}

#[test]
fn page_lengths_are_known_before_encoding() {
    let leaf = vec![entry(b"a", 1), entry(b"bcd", 2)];
    assert_eq!(attribute_leaf_page_encoded_length(&leaf, 8).expect("fits"), 15 + 46 + 48);
    let bytes = encode_attribute_page(&AttributePage::Leaf(leaf.clone()), 8).expect("valid");
    assert_eq!(bytes.len(), 15 + 46 + 48);
    assert!(matches!(
        attribute_leaf_page_encoded_length(&leaf, 1),
        Err(CanonicalDecodeError::LengthOverflow)
    ));

    let page = object(ObjectKind::AttributePage, 3);
    let children = vec![
        AttributeChild { first_name: name(b"a"), page },
        AttributeChild { first_name: name(b"bcd"), page },
    ];
    assert_eq!(attribute_internal_page_encoded_length(&children, 8).expect("fits"), 15 + 38 + 40);
    let bytes = encode_attribute_page(&AttributePage::Internal(children), 8).expect("valid");
    assert_eq!(bytes.len(), 15 + 38 + 40);

    let extents = ExtentPage::Leaf(vec![
        Extent { offset: 0, length: 4, kind: ExtentKind::Hole },
        Extent {
            offset: 4,
            length: 4,
            kind: ExtentKind::Content { object: object(ObjectKind::Blob, 1), object_offset: 0 },
        },
    ]);
    assert_eq!(extent_page_encoded_length(&extents, 8).expect("valid"), 15 + 17 + 57);
    assert_eq!(encode_extent_page(&extents, 8).expect("valid").len(), 15 + 17 + 57);
    assert!(matches!(
        extent_page_encoded_length(&extents, 1),
        Err(CanonicalDecodeError::Invariant(_))
    ));
    let routed = ExtentPage::Internal(vec![ExtentChild {
        first_offset: 0,
        end_offset: 8,
        page: object(ObjectKind::ExtentPage, 2),
    }]);
    assert_eq!(extent_page_encoded_length(&routed, 8).expect("valid"), 15 + 48);
    assert_eq!(encode_extent_page(&routed, 8).expect("valid").len(), 15 + 48);

    let blob = BlobPage {
        first_offset: 0,
        end_offset: 4,
        node: BlobNode::Leaf(vec![BlobChunkRef {
            first_offset: 0,
            end_offset: 4,
            chunk: object(ObjectKind::BlobChunk, 1),
        }]),
    };
    assert_eq!(blob_page_encoded_length(&blob, 8).expect("valid"), 31 + 48);
    assert_eq!(encode_blob_page(&blob, 8).expect("valid").len(), 31 + 48);
}
