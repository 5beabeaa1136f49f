//! Pages, blobs, extents, attributes and file tables over an in-memory store.

use acyclic_filesystem::foundation::{Digest, FileId};
use acyclic_filesystem::kernel::allocation::{AllocationError, AllocationLedger};
use acyclic_filesystem::kernel::attribute::{
    attribute_page_decode_shape, decode_attribute_page, encode_attribute_page, AttributeClass,
    AttributeEntry, AttributeError, AttributeName, AttributePage,
};
use acyclic_filesystem::kernel::attribute_access::{lookup_attribute, AttributeLookupError};
use acyclic_filesystem::kernel::attribute_mutation::{
    admit_attribute_mutations, AttributeMutation, AttributeMutationError, AttributeSemanticError,
};
use acyclic_filesystem::kernel::blob::{
    blob_page_decode_shape, decode_blob_page, encode_blob_page, BlobChunkRef, BlobNode, BlobPage,
};
use acyclic_filesystem::kernel::blob_build::{
    build_blob, effective_page_width, BlobBuildError, BlobBuildOptions, MemoryBlobSource,
};
use acyclic_filesystem::kernel::blob_read::{read_blob_range, BlobRangeMachine, BlobReadError};
use acyclic_filesystem::kernel::checkpoint::{settle_read, CheckpointError};
use acyclic_filesystem::kernel::codec::{
    CanonicalDecodeError, DecodeLimits, DecodedPageKind, Decoder, Encoder,
};
use acyclic_filesystem::kernel::extent::{
    decode_extent_page, encode_extent_page, Extent, ExtentChild, ExtentKind, ExtentPage,
    ExtentPageError,
};
use acyclic_filesystem::kernel::extent_clone::{
    clone_extent_range, validate_clone_request, ExtentCloneError, ExtentCloneRequest, ExtentPlan,
};
use acyclic_filesystem::kernel::extent_mutation::{apply_extent_mutations, ExtentMutationError};
use acyclic_filesystem::kernel::extent_patch::{ExtentMutation, Patch};
use acyclic_filesystem::kernel::file_lookup::{lookup_file_record, FileRecordReadError};
use acyclic_filesystem::kernel::file_read::{
    file_source, read_inline, read_sparse, FileRangeReadError, FileSource,
};
use acyclic_filesystem::kernel::file_table::{
    decode_file_table_page, encode_file_table_page, FilePayload, FileRecord, FileTableChild,
    FileTableError, FileTablePage, InlineFileData, InlineFileDataError,
};
use acyclic_filesystem::kernel::name::FileKind;
use acyclic_filesystem::kernel::patch_plan::compile_patch_plan;
use acyclic_filesystem::kernel::visited::VisitedObjectSet;
use acyclic_filesystem::performance::{WorkBudget, WorkCounters, WorkError};
use acyclic_filesystem::storage::{
    object_id, ByteRange, ImmediateObjectStore, MemoryObjectStore, ObjectFailure, ObjectId,
    ObjectKind, ObjectStoreError, ReadRequest,
};

fn limits() -> DecodeLimits {
    DecodeLimits::default()
}

fn unbounded() -> WorkBudget {
    WorkBudget::unbounded()
}

fn object(kind: ObjectKind, byte: u8) -> ObjectId {
    ObjectId { kind, digest: Digest::from_bytes([byte; 32]) }
}

fn sample(length: usize) -> Vec<u8> {
    (0..length).map(|index| (index * 7 % 251) as u8).collect()
}

fn small_options() -> BlobBuildOptions {
    BlobBuildOptions {
        chunk_bytes: 4,
        page_items: 3,
        page_bytes: 4096,
        maximum_blob_bytes: 1 << 20,
    }
}

fn built(bytes: &[u8]) -> (MemoryObjectStore, ObjectId) {
    let mut store = MemoryObjectStore::new();
    let mut source = MemoryBlobSource::new(bytes.to_vec());
    let blob = build_blob(&mut store, &mut source, small_options(), unbounded()).expect("built");
    assert_eq!(blob.logical_bytes, bytes.len() as u64);
    (store, blob.root)
}

#[test]
fn encoder_and_decoder_agree() {
    let mut encoder = Encoder::new(b"ACYTEST1", 3);
    encoder.u8(7);
    encoder.u32(0x0102_0304);
    encoder.i64(-2);
    encoder.bounded_bytes(b"xyz").expect("short");
    let bytes = encoder.finish();
    let mut decoder = Decoder::new(&bytes, b"ACYTEST1", 3, 1024).expect("domain");
    assert_eq!(decoder.u8(), Ok(7));
    assert_eq!(decoder.u32(), Ok(0x0102_0304));
    assert_eq!(decoder.i64(), Ok(-2));
    assert_eq!(decoder.bounded_bytes(3), Ok(b"xyz".to_vec()));
    assert_eq!(decoder.u8(), Err(CanonicalDecodeError::Truncated));
    assert!(decoder.finish().is_ok());
    assert!(matches!(
        Decoder::new(&bytes, b"ACYTEST2", 3, 1024),
        Err(CanonicalDecodeError::WrongDomain)
    ));
    assert!(matches!(
        Decoder::new(&bytes, b"ACYTEST1", 4, 1024),
        Err(CanonicalDecodeError::UnsupportedVersion(3))
    ));
    assert!(matches!(
        Decoder::new(&bytes[..4], b"ACYTEST1", 3, 1024),
        Err(CanonicalDecodeError::WrongDomain)
    ));
}

#[test]
fn blob_pages_round_trip() {
    let page = BlobPage {
        first_offset: 0,
        end_offset: 9,
        node: BlobNode::Leaf(vec![
            BlobChunkRef {
                first_offset: 0,
                end_offset: 4,
                chunk: object(ObjectKind::BlobChunk, 1),
            },
            BlobChunkRef {
                first_offset: 4,
                end_offset: 9,
                chunk: object(ObjectKind::BlobChunk, 2),
            },
        ]),
    };
    let bytes = encode_blob_page(&page, 8).expect("valid");
    assert_eq!(bytes.len(), 31 + 2 * 48);
    assert_eq!(decode_blob_page(&bytes, limits()).expect("decodes"), page);
    let shape = blob_page_decode_shape(&bytes, limits()).expect("shape");
    assert_eq!((shape.kind, shape.items), (DecodedPageKind::Leaf, 2));
    assert!(matches!(
        encode_blob_page(&page, 1),
        Err(CanonicalDecodeError::FieldTooLarge { observed: 2, maximum: 1 })
    ));
    let gap = BlobPage {
        first_offset: 0,
        end_offset: 9,
        node: BlobNode::Leaf(vec![BlobChunkRef {
            first_offset: 1,
            end_offset: 9,
            chunk: object(ObjectKind::BlobChunk, 1),
        }]),
    };
    assert!(matches!(encode_blob_page(&gap, 8), Err(CanonicalDecodeError::Invariant(_))));
    let mut trailing = bytes;
    trailing.push(0);
    assert!(matches!(
        decode_blob_page(&trailing, limits()),
        Err(CanonicalDecodeError::TrailingBytes)
    ));
}

#[test]
fn built_blobs_read_back() {
    for length in [0_usize, 1, 4, 5, 12, 13, 40, 100] {
        let bytes = sample(length);
        let (store, root) = built(&bytes);
        for offset in 0..=length {
            for end in [offset, (offset + 5).min(length), length] {
                let range =
                    ByteRange { offset: offset as u64, length: (end - offset) as u64 };
                let read =
                    read_blob_range(&store, root, range, limits(), unbounded()).expect("in range");
                assert_eq!(read.bytes, bytes[offset..end]);
                assert_eq!(read.work.output_bytes, range.length);
            }
        }
        let past = ByteRange { offset: 0, length: length as u64 + 1 };
        let failure = read_blob_range(&store, root, past, limits(), unbounded()).expect_err("past");
        assert_eq!(failure.error, BlobReadError::InvalidRange);
    }
}

#[test]
fn a_range_read_names_the_next_object() {
    let bytes = sample(12);
    let (store, root) = built(&bytes);
    let range = ByteRange { offset: 0, length: 4 };
    let read = read_blob_range(&store, root, range, limits(), unbounded()).expect("read");
    let hint = read.next_residency.expect("the next chunk");
    assert_eq!(hint.object, object_id(ObjectKind::BlobChunk, &bytes[4..8]));
    assert_eq!(hint.maximum_bytes, 4);
}

#[test]
fn range_reads_count_their_work() {
    let bytes = sample(4);
    let (store, root) = built(&bytes);
    let range = ByteRange { offset: 0, length: 4 };
    let read = read_blob_range(&store, root, range, limits(), unbounded()).expect("read");
    assert_eq!(read.work.page_reads, 1);
    assert_eq!(read.work.items_returned, 1);
    assert_eq!(read.work.bytes_copied, 4);
    assert_eq!(read.work.output_bytes, 4);
    let mut budget = unbounded();
    budget.page_reads = 0;
    let failure = read_blob_range(&store, root, range, limits(), budget).expect_err("no pages");
    assert_eq!(failure.error, BlobReadError::Work(WorkError::Exceeded));
}

#[test]
fn range_reads_fail_as_they_must() {
    let (store, root) = built(&sample(9));
    let range = ByteRange { offset: 0, length: 1 };
    let wrong = object(ObjectKind::ExtentPage, 1);
    assert_eq!(
        read_blob_range(&store, wrong, range, limits(), unbounded()).expect_err("kind").error,
        BlobReadError::WrongRootKind
    );
    let absent = object(ObjectKind::Blob, 1);
    assert_eq!(
        read_blob_range(&store, absent, range, limits(), unbounded()).expect_err("absent").error,
        BlobReadError::Storage(ObjectStoreError::Missing)
    );
    let overflow = ByteRange { offset: u64::MAX, length: 1 };
    assert_eq!(
        read_blob_range(&store, root, overflow, limits(), unbounded()).expect_err("range").error,
        BlobReadError::InvalidRange
    );
    let mut none = limits();
    none.maximum_visited_pages = 0;
    assert_eq!(
        read_blob_range(&store, root, range, none, unbounded()).expect_err("limits").error,
        BlobReadError::InvalidLimits
    );
    let mut flat = limits();
    flat.maximum_page_height = 1;
    assert!(read_blob_range(&store, root, range, flat, unbounded()).is_ok());
    let (tall, top) = built(&sample(40));
    assert_eq!(
        read_blob_range(&tall, top, range, flat, unbounded()).expect_err("height").error,
        BlobReadError::CycleOrHeight
    );
}

#[test]
fn decoded_pages_may_come_from_a_cache() {
    let bytes = sample(9);
    let (store, root) = built(&bytes);
    let range = ByteRange { offset: 2, length: 5 };
    let mut machine =
        BlobRangeMachine::new(root, range, limits(), unbounded()).expect("machine");
    let mut pages = 0;
    while !machine.is_complete() {
        let request = machine.prepare_read().expect("request");
        let read = store.read(&request).expect("stored");
        if request.object.kind == ObjectKind::Blob {
            let page = decode_blob_page(&read.bytes, limits()).expect("page");
            machine.accept_cached_page(&page).expect("cached");
            pages += 1;
        } else {
            machine.accept_read(&read).expect("chunk");
        }
    }
    let done = machine.finish().expect("complete");
    assert_eq!(done.bytes, bytes[2..7]);
    assert_eq!(done.work.page_reads, pages);
    let machine = BlobRangeMachine::new(root, range, limits(), unbounded()).expect("machine");
    assert_eq!(machine.cancelled().error, BlobReadError::Cancelled);
    assert!(matches!(
        machine.finish(),
        Err(failure) if failure.error == BlobReadError::IncompleteCoverage
    ));
}

#[test]
fn blob_builds_count_their_work() {
    let mut store = MemoryObjectStore::new();
    let mut source = MemoryBlobSource::new(Vec::new());
    let empty = build_blob(&mut store, &mut source, small_options(), unbounded()).expect("built");
    assert_eq!(empty.work.source_bytes_read, 0);
    assert_eq!(empty.work.page_writes, 1);
    assert_eq!(empty.work.bytes_encoded, 31);
    assert_eq!(empty.work.allocation_operations, 2);
    assert_eq!(empty.work.peak_allocation_bytes, 31);
    let mut source = MemoryBlobSource::new(sample(3));
    let short = build_blob(&mut store, &mut source, small_options(), unbounded()).expect("built");
    assert_eq!(short.work.source_bytes_read, 3);
    assert_eq!(short.work.page_writes, 1);
    assert_eq!(short.work.bytes_encoded, 31 + 48);
    assert_eq!(short.work.allocation_operations, 5);
    assert_eq!(short.work.peak_allocation_bytes, 3 * 56 + 24 + 3 * 56);
    let mut budget = unbounded();
    budget.source_bytes_read = 3;
    let mut source = MemoryBlobSource::new(sample(10));
    let failure = build_blob(&mut store, &mut source, small_options(), budget).expect_err("spent");
    assert_eq!(failure.error, BlobBuildError::Work(WorkError::Exceeded));
    assert_eq!(failure.work.source_bytes_read, 4);
    assert_eq!(failure.work.allocation_operations, 1);
    assert_eq!(failure.work.page_writes, 0);
}

#[test]
fn blob_builds_respect_their_options() {
    let mut store = MemoryObjectStore::new();
    let mut empty = small_options();
    empty.chunk_bytes = 0;
    let mut source = MemoryBlobSource::new(sample(4));
    assert!(matches!(
        build_blob(&mut store, &mut source, empty, unbounded()),
        Err(failure) if failure.error == BlobBuildError::InvalidOptions
    ));
    let mut short = small_options();
    short.maximum_blob_bytes = 3;
    let mut source = MemoryBlobSource::new(sample(4));
    assert!(matches!(
        build_blob(&mut store, &mut source, short, unbounded()),
        Err(failure) if failure.error == BlobBuildError::TooLarge
    ));
    assert_eq!(effective_page_width(small_options()), Some(3));
    let mut narrow = small_options();
    narrow.page_bytes = 31 + 2 * 48;
    assert_eq!(effective_page_width(narrow), Some(2));
}

#[test]
fn visited_sets_count_slots_and_probes() {
    let mut ledger = AllocationLedger::default();
    let mut work = WorkCounters::default();
    let mut set =
        VisitedObjectSet::new(9, &mut ledger, &mut work, unbounded()).expect("room");
    assert_eq!(ledger.live_bytes, 16 * 33);
    assert_eq!(work.allocation_operations, 1);
    for byte in 0..8_u8 {
        let done = set
            .insert(object(ObjectKind::Blob, byte), &mut ledger, &mut work, unbounded())
            .expect("room");
        assert!(done.inserted);
    }
    assert_eq!(ledger.live_bytes, 16 * 33);
    assert_eq!(work.bytes_copied, 0);
    let again = set
        .insert(object(ObjectKind::Blob, 3), &mut ledger, &mut work, unbounded())
        .expect("known");
    assert!(!again.inserted);
    set.insert(object(ObjectKind::Blob, 8), &mut ledger, &mut work, unbounded())
        .expect("grown");
    assert_eq!(ledger.live_bytes, 32 * 33);
    assert_eq!(work.bytes_copied, 8 * 33);
    assert_eq!(work.allocation_operations, 2);
    assert_eq!(
        set.insert(object(ObjectKind::Blob, 9), &mut ledger, &mut work, unbounded()),
        Err(AllocationError::CapacityExceeded)
    );
    set.release(&mut ledger).expect("held");
    assert_eq!(ledger.live_bytes, 0);
}

fn content(store: &mut MemoryObjectStore, bytes: &[u8]) -> ObjectId {
    let mut source = MemoryBlobSource::new(bytes.to_vec());
    build_blob(store, &mut source, small_options(), unbounded()).expect("built").root
}

fn leaf(extents: Vec<Extent>) -> ExtentPage {
    ExtentPage::Leaf(extents)
}

fn hole(offset: u64, length: u64) -> Extent {
    Extent { offset, length, kind: ExtentKind::Hole }
}

#[test]
fn extent_pages_round_trip() {
    let page = leaf(vec![
        hole(0, 4),
        Extent {
            offset: 4,
            length: 2,
            kind: ExtentKind::Content { object: object(ObjectKind::Blob, 1), object_offset: 8 },
        },
    ]);
    let bytes = encode_extent_page(&page, 8).expect("valid");
    assert_eq!(decode_extent_page(&bytes, limits()).expect("decodes"), page);
    assert_eq!(
        leaf(vec![hole(4, 2), hole(0, 4)]).validate(8),
        Err(ExtentPageError::InvalidExtent)
    );
    assert_eq!(page.validate(1), Err(ExtentPageError::TooManyItems));
}

#[test]
fn patch_plans_overlay_and_clip() {
    let zero = |offset: u64, length: u64, extend: bool| ExtentMutation::Replace {
        offset,
        length,
        kind: ExtentKind::AllocatedZero,
        extend,
    };
    let batch = vec![zero(2, 4, false), ExtentMutation::Resize { logical_bytes: 4 }];
    let plan = compile_patch_plan(10, &batch, unbounded()).expect("fits");
    assert_eq!(plan.final_size, 4);
    assert_eq!(
        plan.patches,
        vec![Patch { offset: 2, end: 4, kind: ExtentKind::AllocatedZero }]
    );
    assert_eq!(plan.work.items_examined, 50);
    assert_eq!(plan.work.bytes_copied, 128);
    assert_eq!(plan.work.allocation_operations, 6);
    assert_eq!(plan.work.peak_allocation_bytes, 272);
    assert_eq!(plan.live_allocation_bytes, 64);
    for (mutation, expected) in [
        (zero(8, 4, false), ExtentMutationError::OutsideFile),
        (zero(8, 0, true), ExtentMutationError::EmptyRange),
        (zero(u64::MAX, 2, true), ExtentMutationError::RangeOverflow),
        (
            ExtentMutation::Replace {
                offset: 0,
                length: 1,
                kind: ExtentKind::Content {
                    object: object(ObjectKind::BlobChunk, 1),
                    object_offset: 0,
                },
                extend: false,
            },
            ExtentMutationError::WrongContentKind,
        ),
    ] {
        let failure = compile_patch_plan(10, &vec![zero(0, 1, false), mutation], unbounded())
            .expect_err("refused");
        assert_eq!(failure.error, expected);
        assert_eq!(failure.work.items_examined, 2);
    }
    let longer = compile_patch_plan(10, &vec![zero(8, 4, true)], unbounded()).expect("extends");
    assert_eq!(longer.final_size, 12);
    let same = ExtentMutation::Resize { logical_bytes: 10 };
    let idle = compile_patch_plan(10, &vec![same], unbounded()).expect("idle");
    assert!(idle.patches.is_empty());
    assert_eq!(idle.live_allocation_bytes, 0);
    let mut poor = unbounded();
    poor.items_examined = 1;
    let failure = compile_patch_plan(10, &batch, poor).expect_err("budget");
    assert_eq!(failure.error, ExtentMutationError::Work(WorkError::Exceeded));
    assert_eq!(failure.work.items_examined, 1);
    let mut narrow = unbounded();
    narrow.peak_allocation_bytes = 463;
    assert_eq!(
        compile_patch_plan(10, &batch, narrow).expect_err("scratch").error,
        ExtentMutationError::Work(WorkError::Exceeded)
    );
    narrow.peak_allocation_bytes = 464;
    assert!(compile_patch_plan(10, &batch, narrow).is_ok());
}

#[test]
fn later_mutations_win_over_earlier_ones() {
    let kinds = [ExtentKind::AllocatedZero, ExtentKind::Hole];
    let mut batch = Vec::new();
    let mut bytes = vec![2usize; 600];
    for step in 0..40usize {
        let offset = (step * 263) % 590;
        let length = 1 + (step * 37) % 10;
        batch.push(ExtentMutation::Replace {
            offset: offset as u64,
            length: length as u64,
            kind: kinds[step % 2],
            extend: false,
        });
        for byte in bytes.iter_mut().skip(offset).take(length) {
            *byte = step % 2;
        }
    }
    let plan = compile_patch_plan(600, &batch, unbounded()).expect("compiled");
    let mut laid = vec![2usize; 600];
    let mut last = 0;
    for patch in &plan.patches {
        assert!(last <= patch.offset && patch.offset < patch.end);
        last = patch.end;
        let mark = if patch.kind == ExtentKind::Hole { 1 } else { 0 };
        for byte in &mut laid[patch.offset as usize..patch.end as usize] {
            *byte = mark;
        }
    }
    assert_eq!(laid, bytes);
}

fn stored_page(store: &mut MemoryObjectStore, page: &ExtentPage) -> ObjectId {
    let bytes = encode_extent_page(page, 1024).expect("valid");
    store.insert(ObjectKind::ExtentPage, &bytes).expect("stored")
}

fn leaf_of(store: &MemoryObjectStore, root: ObjectId) -> Vec<Extent> {
    let request = acyclic_filesystem::storage::ReadRequest {
        object: root,
        maximum_bytes: 1 << 20,
        remaining: unbounded(),
    };
    let read = store.read(&request).expect("stored");
    match decode_extent_page(&read.bytes, limits()).expect("page") {
        ExtentPage::Leaf(extents) => extents,
        ExtentPage::Internal(_) => panic!("expected a leaf"),
    }
}

#[test]
fn extent_mutations_rewrite_the_tree() {
    let mut store = MemoryObjectStore::new();
    let written = content(&mut store, b"hello");
    let root = stored_page(&mut store, &leaf(vec![hole(0, 16)]));
    let mutation = ExtentMutation::Replace {
        offset: 4,
        length: 5,
        kind: ExtentKind::Content { object: written, object_offset: 0 },
        extend: false,
    };
    let receipt = apply_extent_mutations(
        &mut store,
        root,
        16,
        &vec![mutation],
        8,
        limits(),
        unbounded(),
    )
    .expect("applied");
    assert_eq!(receipt.logical_bytes, 16);
    let extents = leaf_of(&store, receipt.root);
    assert_eq!(
        extents,
        vec![
            hole(0, 4),
            Extent {
                offset: 4,
                length: 5,
                kind: ExtentKind::Content { object: written, object_offset: 0 },
            },
            hole(9, 7),
        ]
    );
    let read = read_sparse(
        &store,
        &extents,
        WorkCounters::default(),
        0,
        ByteRange { offset: 0, length: 16 },
        limits(),
        unbounded(),
    )
    .expect("read");
    assert_eq!(read.bytes, b"\0\0\0\0hello\0\0\0\0\0\0\0".to_vec());
    assert_eq!(
        apply_extent_mutations(&mut store, root, 16, &Vec::new(), 8, limits(), unbounded())
            .expect_err("nothing")
            .error,
        ExtentMutationError::Empty
    );
    assert_eq!(
        apply_extent_mutations(
            &mut store,
            root,
            16,
            &vec![mutation, mutation],
            1,
            limits(),
            unbounded(),
        )
        .expect_err("too many")
        .error,
        ExtentMutationError::TooManyMutations
    );
}

#[test]
fn refused_rewrites_name_their_cause() {
    let mut store = MemoryObjectStore::new();
    let zeros = ExtentMutation::Replace {
        offset: 0,
        length: 16,
        kind: ExtentKind::AllocatedZero,
        extend: false,
    };
    let apply = |store: &mut MemoryObjectStore,
                 root: ObjectId,
                 mutations: Vec<ExtentMutation>,
                 limits: DecodeLimits,
                 budget: WorkBudget| {
        apply_extent_mutations(store, root, 16, &mutations, 16, limits, budget)
            .expect_err("refused")
            .error
    };
    let missing = object(ObjectKind::ExtentPage, 9);
    assert_eq!(
        apply(&mut store, missing, vec![zeros], limits(), unbounded()),
        ExtentMutationError::Storage(ObjectStoreError::Missing)
    );
    let garbage = store.insert(ObjectKind::ExtentPage, b"no page").expect("stored");
    assert!(matches!(
        apply(&mut store, garbage, vec![zeros], limits(), unbounded()),
        ExtentMutationError::Decode(_)
    ));
    let root = stored_page(&mut store, &leaf(vec![hole(0, 16)]));
    let mut unread = unbounded();
    unread.page_reads = 0;
    assert_eq!(
        apply(&mut store, root, vec![zeros], limits(), unread),
        ExtentMutationError::Work(WorkError::Exceeded)
    );
    let written = content(&mut store, b"hello");
    let mut small = limits();
    small.maximum_page_bytes = 40;
    let word = ExtentMutation::Replace {
        offset: 4,
        length: 5,
        kind: ExtentKind::Content { object: written, object_offset: 0 },
        extend: false,
    };
    assert_eq!(
        apply(&mut store, root, vec![word], small, unbounded()),
        ExtentMutationError::PageItemTooLarge
    );
    let mut flat = limits();
    flat.maximum_page_items = 2;
    flat.maximum_page_height = 1;
    assert_eq!(
        apply(&mut store, root, vec![word], flat, unbounded()),
        ExtentMutationError::HeightExceeded
    );
    let left = stored_page(&mut store, &leaf(vec![hole(0, 8)]));
    let right = stored_page(&mut store, &leaf(vec![hole(8, 8)]));
    let child = |first_offset: u64, page: ObjectId| ExtentChild {
        first_offset,
        end_offset: first_offset + 8,
        page,
    };
    let twice =
        stored_page(&mut store, &ExtentPage::Internal(vec![child(0, left), child(8, left)]));
    assert_eq!(
        apply(&mut store, twice, vec![zeros], limits(), unbounded()),
        ExtentMutationError::CycleOrAlias
    );
    let both =
        stored_page(&mut store, &ExtentPage::Internal(vec![child(0, left), child(8, right)]));
    let mut few = limits();
    few.maximum_visited_pages = 2;
    assert_eq!(
        apply(&mut store, both, vec![zeros], few, unbounded()),
        ExtentMutationError::AllocationFailed
    );
    few.maximum_visited_pages = 3;
    let budget = unbounded();
    let receipt = apply_extent_mutations(&mut store, both, 16, &vec![zeros], 16, few, budget)
        .expect("applied");
    assert_eq!(receipt.work.page_reads, 3);
}

#[test]
fn canonical_bytes_are_whole() {
    let page = leaf(vec![hole(0, 8), hole(8, 4)]);
    let bytes = encode_extent_page(&page, 1024).expect("valid");
    assert_eq!(decode_extent_page(&bytes, limits()).expect("page"), page);
    let mut longer = bytes.clone();
    longer.push(0);
    assert_eq!(
        decode_extent_page(&longer, limits()).expect_err("longer"),
        CanonicalDecodeError::TrailingBytes
    );
    let mut tight = limits();
    tight.maximum_page_bytes = bytes.len() as u32;
    assert_eq!(
        decode_extent_page(&longer, tight).expect_err("too large"),
        CanonicalDecodeError::ObjectTooLarge {
            observed: bytes.len() as u64 + 1,
            maximum: bytes.len() as u64
        }
    );
    for size in 0..bytes.len() {
        assert!(decode_extent_page(&bytes[..size], limits()).is_err());
    }
}

#[test]
fn equal_inline_payloads_are_equal() {
    let one = InlineFileData::new(b"abc").expect("tiny");
    let longer = InlineFileData::new(b"abcdef").expect("tiny");
    let cut = longer.replace_range(0, b"", 3).expect("shorter");
    assert_eq!(one, cut);
    assert_ne!(one, longer);
}

#[test]
fn settled_replies_count_on_top_of_earlier_work() {
    let prior = WorkCounters { page_reads: 2, ..WorkCounters::default() };
    let spent = WorkCounters { object_bytes_read: 5, ..WorkCounters::default() };
    let sum = settle_read(prior, Ok(spent)).expect("counted");
    assert_eq!((sum.page_reads, sum.object_bytes_read), (2, 5));
    let refusal = ObjectFailure { error: ObjectStoreError::Missing, work: spent };
    let failure = settle_read(prior, Err(refusal)).expect_err("refused");
    assert_eq!(failure.error, CheckpointError::Storage(ObjectStoreError::Missing));
    assert_eq!(failure.work, sum);
    let full = WorkCounters { page_reads: u64::MAX, ..WorkCounters::default() };
    let failure = settle_read(prior, Ok(full)).expect_err("overflow");
    assert_eq!(failure.error, CheckpointError::Work(WorkError::Overflow));
    assert_eq!(failure.work, prior);
}

#[test]
fn many_extents_split_into_pages_and_read_back() {
    let mut store = MemoryObjectStore::new();
    let mut narrow = limits();
    narrow.maximum_page_items = 3;
    let root = stored_page(&mut store, &leaf(vec![hole(0, 100)]));
    let mutations: Vec<ExtentMutation> = (0..10_u64)
        .map(|index| ExtentMutation::Replace {
            offset: index * 10,
            length: 5,
            kind: ExtentKind::AllocatedZero,
            extend: false,
        })
        .collect();
    let receipt = apply_extent_mutations(
        &mut store,
        root,
        100,
        &mutations,
        16,
        narrow,
        unbounded(),
    )
    .expect("applied");
    assert_eq!(receipt.logical_bytes, 100);
    let back = apply_extent_mutations(
        &mut store,
        receipt.root,
        100,
        &vec![ExtentMutation::Replace {
            offset: 0,
            length: 100,
            kind: ExtentKind::Hole,
            extend: false,
        }],
        16,
        narrow,
        unbounded(),
    )
    .expect("applied");
    assert_eq!(back.logical_bytes, 100);
    assert!(back.work.page_reads > 1);
}

#[test]
fn clones_share_the_source_range() {
    let mut store = MemoryObjectStore::new();
    let source = content(&mut store, b"abcdefgh");
    let shared = Extent {
        offset: 0,
        length: 8,
        kind: ExtentKind::Content { object: source, object_offset: 0 },
    };
    let source_root = stored_page(&mut store, &leaf(vec![shared]));
    let destination_root = stored_page(&mut store, &leaf(vec![hole(0, 8)]));
    let request = ExtentCloneRequest {
        source_root,
        source_logical_bytes: 8,
        source_range: ByteRange { offset: 2, length: 3 },
        destination_root,
        destination_logical_bytes: 8,
        destination_offset: 4,
        maximum_spans: 8,
        maximum_mutations: 8,
    };
    let plan = ExtentPlan {
        spans: vec![Extent {
            offset: 2,
            length: 3,
            kind: ExtentKind::Content { object: source, object_offset: 2 },
        }],
        work: WorkCounters::of_page_reads(1),
        retained_allocation_bytes: 100,
    };
    let mut narrow = unbounded();
    narrow.peak_allocation_bytes = 171;
    let refused = clone_extent_range(&mut store, request, &plan, limits(), narrow)
        .expect_err("no room");
    assert_eq!(refused.error, ExtentCloneError::Work(WorkError::Exceeded));
    assert_eq!(refused.work, plan.work);
    let receipt = clone_extent_range(&mut store, request, &plan, limits(), unbounded())
        .expect("cloned");
    let extents = leaf_of(&store, receipt.root);
    let read = read_sparse(
        &store,
        &extents,
        WorkCounters::default(),
        0,
        ByteRange { offset: 0, length: 8 },
        limits(),
        unbounded(),
    )
    .expect("read");
    assert_eq!(read.bytes, b"\0\0\0\0cde\0".to_vec());
    let empty =
        ExtentCloneRequest { source_range: ByteRange { offset: 2, length: 0 }, ..request };
    assert_eq!(
        validate_clone_request(empty, limits()).expect_err("empty").error,
        ExtentCloneError::EmptyRange
    );
    let outside = ExtentPlan {
        spans: vec![hole(0, 3)],
        work: WorkCounters::default(),
        retained_allocation_bytes: 0,
    };
    let refused = clone_extent_range(&mut store, request, &outside, limits(), unbounded())
        .expect_err("outside the range");
    assert_eq!(refused.error, ExtentCloneError::RangeOverflow);
    assert_eq!(refused.work.items_examined, 1);
    let wrong = ExtentCloneRequest { source_root: source, ..request };
    assert_eq!(
        validate_clone_request(wrong, limits()).expect_err("kind").error,
        ExtentCloneError::WrongRootKind
    );
}

fn attribute(text: &[u8]) -> AttributeName {
    AttributeName::new(AttributeClass::PosixXattr, text.to_vec(), 255).expect("valid name")
}

fn attribute_entry(text: &[u8], byte: u8) -> AttributeEntry {
    AttributeEntry {
        name: attribute(text),
        value_bytes: 3,
        value: object(ObjectKind::Blob, byte),
    }
}

#[test]
fn attribute_pages_round_trip_and_find_names() {
    let page =
        AttributePage::Leaf(vec![attribute_entry(b"user.a", 1), attribute_entry(b"user.b", 2)]);
    let bytes = encode_attribute_page(&page, 8).expect("valid");
    assert_eq!(decode_attribute_page(&bytes, limits()).expect("decodes"), page);
    let shape = attribute_page_decode_shape(&bytes, limits()).expect("shape");
    assert_eq!(shape.nested_bytes, 12);
    let mut store = MemoryObjectStore::new();
    let root = store.insert(ObjectKind::AttributePage, &bytes).expect("stored");
    let found = lookup_attribute(&store, root, &attribute(b"user.b"), limits(), unbounded())
        .expect("read");
    assert_eq!(found.entry, Some(attribute_entry(b"user.b", 2)));
    assert_eq!(found.work.page_reads, 1);
    let absent = lookup_attribute(&store, root, &attribute(b"user.c"), limits(), unbounded())
        .expect("read");
    assert!(absent.entry.is_none());
    let wrong = object(ObjectKind::Blob, 1);
    assert_eq!(
        lookup_attribute(&store, wrong, &attribute(b"user.a"), limits(), unbounded())
            .expect_err("kind")
            .error,
        AttributeLookupError::WrongRootKind
    );
    assert_eq!(
        AttributeName::new(AttributeClass::PosixXattr, Vec::new(), 255).expect_err("empty"),
        AttributeError::InvalidName
    );
}

#[test]
fn attribute_mutations_check_what_they_replace() {
    let mut current = None;
    let insert = AttributeMutation::Insert(attribute_entry(b"user.a", 1));
    assert_eq!(insert.apply_current(&mut current), Ok(()));
    assert_eq!(insert.apply_current(&mut current), Err(AttributeSemanticError::AlreadyExists));
    let stale = AttributeMutation::Remove {
        name: attribute(b"user.a"),
        expected: Some(attribute_entry(b"user.a", 2)),
    };
    assert_eq!(stale.apply_current(&mut current), Err(AttributeSemanticError::StateConflict));
    let remove = AttributeMutation::Remove { name: attribute(b"user.a"), expected: None };
    assert_eq!(remove.apply_current(&mut current), Ok(()));
    assert!(current.is_none());
    assert_eq!(remove.apply_current(&mut current), Err(AttributeSemanticError::Missing));
    let renamed = AttributeMutation::Replace {
        expected: attribute_entry(b"user.a", 1),
        replacement: attribute_entry(b"user.b", 1),
    };
    assert_eq!(renamed.validate(), Err(AttributeSemanticError::NameMismatch));
    assert_eq!(
        admit_attribute_mutations(&vec![renamed]).expect_err("malformed").error,
        AttributeMutationError::Semantic(AttributeSemanticError::NameMismatch)
    );
}

fn record(byte: u8, payload: FilePayload, kind: FileKind) -> FileRecord {
    FileRecord {
        file_id: FileId::from_bytes([byte; 16]),
        kind,
        link_count: 1,
        metadata: object(ObjectKind::Metadata, 7),
        payload,
    }
}

fn inline(byte: u8, bytes: &[u8]) -> FileRecord {
    let data = InlineFileData::new(bytes).expect("small");
    record(byte, FilePayload::InlineRegular(data), FileKind::Regular)
}

#[test]
fn file_tables_round_trip_and_find_records() {
    let first = FileTablePage::Leaf(vec![inline(1, b"one"), inline(3, b"three")]);
    let second = FileTablePage::Leaf(vec![inline(5, b"five")]);
    let mut store = MemoryObjectStore::new();
    let mut pages = Vec::new();
    for page in [&first, &second] {
        let bytes = encode_file_table_page(page, 8).expect("valid");
        assert_eq!(decode_file_table_page(&bytes, limits()).expect("decodes"), *page);
        pages.push(store.insert(ObjectKind::FileTablePage, &bytes).expect("stored"));
    }
    let index = FileTablePage::Internal(vec![
        FileTableChild { first_file_id: FileId::from_bytes([1; 16]), page: pages[0] },
        FileTableChild { first_file_id: FileId::from_bytes([5; 16]), page: pages[1] },
    ]);
    let bytes = encode_file_table_page(&index, 8).expect("valid");
    let root = store.insert(ObjectKind::FileTablePage, &bytes).expect("stored");
    for (byte, expected) in [(3, Some(inline(3, b"three"))), (5, Some(inline(5, b"five"))), (4, None)] {
        let found =
            lookup_file_record(&store, root, FileId::from_bytes([byte; 16]), limits(), unbounded())
                .expect("read");
        assert_eq!(found.record, expected);
        assert_eq!(found.work.page_reads, 2);
    }
    let mut flat = limits();
    flat.maximum_page_height = 1;
    assert_eq!(
        lookup_file_record(&store, root, FileId::from_bytes([3; 16]), flat, unbounded())
            .expect_err("height")
            .error,
        FileRecordReadError::HeightExceeded
    );
    let unordered = FileTablePage::Leaf(vec![inline(3, b""), inline(1, b"")]);
    assert!(encode_file_table_page(&unordered, 8).is_err());
    let mut unlinked = inline(1, b"");
    unlinked.link_count = 0;
    assert_eq!(unlinked.validate(), Err(FileTableError::InvalidRecord));
}

#[test]
fn inline_files_grow_and_shrink() {
    let data = InlineFileData::new(b"hello").expect("small");
    let grown = data.replace_range(7, b"!", 8).expect("fits");
    assert_eq!(grown.as_bytes(), b"hello\0\0!");
    assert_eq!(grown.truncate(2).expect("fits").as_bytes(), b"he");
    assert_eq!(InlineFileData::new(&[0; 65]), Err(InlineFileDataError::TooLarge));
}

#[test]
fn inline_reads_are_bounded() {
    assert_eq!(file_source(&inline(1, b"abc")).expect("regular"), FileSource::Inline);
    let directory = record(
        2,
        FilePayload::Directory { entries: object(ObjectKind::TreePage, 1) },
        FileKind::Directory,
    );
    assert_eq!(
        file_source(&directory).expect_err("directory").error,
        FileRangeReadError::NotRegular
    );
    let read = read_inline(b"abcdef", ByteRange { offset: 2, length: 3 }, unbounded())
        .expect("in range");
    assert_eq!(read.bytes, b"cde".to_vec());
    assert_eq!(
        read_inline(b"abc", ByteRange { offset: 2, length: 3 }, unbounded())
            .expect_err("past")
            .error,
        FileRangeReadError::InvalidRange
    );
}

#[test]
fn roots_depend_on_bytes_and_chunks_alone() {
    let root = |bytes: &[u8], options: BlobBuildOptions| {
        let mut store = MemoryObjectStore::new();
        let mut source = MemoryBlobSource::new(bytes.to_vec());
        build_blob(&mut store, &mut source, options, unbounded()).expect("built").root
    };
    let bytes = sample(41);
    let options = small_options();
    let mut wider = options;
    wider.maximum_blob_bytes = 41;
    assert_eq!(root(&bytes, options), root(&bytes, wider));
    let mut coarser = options;
    coarser.chunk_bytes = 5;
    assert_ne!(root(&bytes, options), root(&bytes, coarser));
    let mut store = MemoryObjectStore::new();
    let mut source = MemoryBlobSource::new(bytes.clone());
    build_blob(&mut store, &mut source, options, unbounded()).expect("built");
    for part in bytes.chunks(4) {
        let chunk = object_id(ObjectKind::BlobChunk, part);
        let read = read_blob_chunk(&store, chunk);
        assert_eq!(read, part);
    }
}

#[test]
fn repetitive_blobs_repeat_no_page() {
    let bytes = vec![7_u8; 64];
    let (store, root) = built(&bytes);
    let range = ByteRange { offset: 0, length: 64 };
    let read = read_blob_range(&store, root, range, limits(), unbounded()).expect("in range");
    assert_eq!(read.bytes, bytes);
    assert!(read.work.page_reads >= 9);
}

fn read_blob_chunk(store: &MemoryObjectStore, chunk: ObjectId) -> Vec<u8> {
    let request = ReadRequest { object: chunk, maximum_bytes: 64, remaining: unbounded() };
    store.read(&request).expect("stored").bytes
}

#[test]
fn discarded_tails_do_not_come_back() {
    let batch = vec![
        ExtentMutation::Resize { logical_bytes: 5 },
        ExtentMutation::Resize { logical_bytes: 10 },
    ];
    let plan = compile_patch_plan(10, &batch, unbounded()).expect("compiled");
    assert_eq!(plan.final_size, 10);
    assert_eq!(plan.patches.len(), 1);
    assert_eq!((plan.patches[0].offset, plan.patches[0].end), (5, 10));
    assert!(matches!(plan.patches[0].kind, ExtentKind::Hole));
}

#[test]
fn full_sets_still_answer_for_their_members() {
    let mut ledger = AllocationLedger::default();
    let mut work = WorkCounters::default();
    let mut set =
        VisitedObjectSet::new(2, &mut ledger, &mut work, unbounded()).expect("room");
    for byte in [1, 2] {
        let added = set
            .insert(object(ObjectKind::Blob, byte), &mut ledger, &mut work, unbounded())
            .expect("room");
        assert!(added.inserted);
    }
    assert_eq!(
        set.insert(object(ObjectKind::Blob, 3), &mut ledger, &mut work, unbounded()),
        Err(AllocationError::CapacityExceeded)
    );
    for byte in [1, 2] {
        let found = set
            .insert(object(ObjectKind::Blob, byte), &mut ledger, &mut work, unbounded())
            .expect("held");
        assert!(!found.inserted);
    }
    assert_eq!(set.len(), 2);
}

#[test]
fn one_object_cannot_stand_for_two() {
    let mut store = MemoryObjectStore::new();
    let first = store.insert(ObjectKind::BlobChunk, b"x").expect("stored");
    assert_eq!(store.insert(ObjectKind::BlobChunk, b"x"), Some(first));
    let request = acyclic_filesystem::storage::ReadRequest {
        object: first,
        maximum_bytes: 0,
        remaining: unbounded(),
    };
    assert_eq!(
        store.read(&request).expect_err("too large").error,
        ObjectStoreError::TooLarge
    );
}
