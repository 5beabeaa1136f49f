//! Whole-generation proofs, checkpoints and export manifests.

use acyclic_filesystem::foundation::{Digest, FileId, GenerationId, VolumeId};
use acyclic_filesystem::kernel::blob_build::{build_blob, BlobBuildOptions, MemoryBlobSource};
use acyclic_filesystem::kernel::checkpoint::{
    encode_checkpoint, plan_checkpoint, reused_checkpoint, validate_request, CheckpointError,
    CheckpointPlan, CheckpointRequest, GenerationRoot,
};
use acyclic_filesystem::kernel::closure::{ClosureError, ClosureLimits};
use acyclic_filesystem::kernel::closure_tree::{TreeChild, TreePage};
use acyclic_filesystem::kernel::codec::DecodeLimits;
use acyclic_filesystem::kernel::export::{
    decode_generation_export_manifest, encode_generation_export_manifest,
    validate_generation_export_manifest, GenerationExportManifest, GenerationExportManifestError,
    VolumeConfig, VolumeConfigError, VolumeLimits,
};
use acyclic_filesystem::kernel::extent::{encode_extent_page, Extent, ExtentKind, ExtentPage};
use acyclic_filesystem::kernel::file_table::{
    encode_file_table_page, FilePayload, FileRecord, FileTablePage,
};
use acyclic_filesystem::kernel::generation_proof::{
    prove_generation_closure, GenerationProof, MetadataReferences,
};
use acyclic_filesystem::kernel::name::{FileKind, LogicalName, NameEncoding};
use acyclic_filesystem::kernel::namespace::{
    validate_namespace, DirectoryEntries, NamespaceError, TreeEntry,
};
use acyclic_filesystem::order::OrderedMap;
use acyclic_filesystem::performance::{WorkBudget, WorkCounters, WorkError};
use acyclic_filesystem::storage::{object_id, MemoryObjectStore, ObjectId, ObjectKind, ObjectStoreError};

fn object(kind: ObjectKind, byte: u8) -> ObjectId {
    ObjectId { kind, digest: Digest::from_bytes([byte; 32]) }
}

fn id(byte: u8) -> FileId {
    FileId::from_bytes([byte; 16])
}

fn entry_name(name: &str) -> LogicalName {
    LogicalName { encoding: NameEncoding::Utf8, bytes: name.as_bytes().to_vec() }
}

fn entry(name: &str, byte: u8, kind: FileKind) -> TreeEntry {
    TreeEntry {
        name: entry_name(name),
        file_id: id(byte),
        kind,
    }
}

fn record(byte: u8, kind: FileKind, payload: FilePayload) -> FileRecord {
    FileRecord {
        file_id: id(byte),
        kind,
        link_count: 1,
        metadata: object(ObjectKind::Metadata, 7),
        payload,
    }
}

fn directory(byte: u8) -> FileRecord {
    record(
        byte,
        FileKind::Directory,
        FilePayload::Directory { entries: object(ObjectKind::TreePage, byte) },
    )
}

fn fifo(byte: u8) -> FileRecord {
    record(byte, FileKind::Fifo, FilePayload::Empty)
}

fn records(all: &[FileRecord]) -> OrderedMap<FileId, FileRecord> {
    let mut map = OrderedMap::new();
    for each in all {
        map.insert(each.file_id, *each);
    }
    map
}

fn directories(all: Vec<(u8, Vec<TreeEntry>)>) -> OrderedMap<FileId, DirectoryEntries> {
    let mut map = OrderedMap::new();
    for (byte, entries) in all {
        map.insert(id(byte), DirectoryEntries { entries });
    }
    map
}

#[test]
fn namespaces_reach_every_record_once() {
    let sound = records(&[directory(1), fifo(2)]);
    let bound = directories(vec![(1, vec![entry("pipe", 2, FileKind::Fifo)])]);
    assert_eq!(validate_namespace(id(1), &sound, &bound), Ok(()));
    let empty = directories(vec![(1, Vec::new())]);
    assert!(validate_namespace(id(1), &sound, &empty).is_err());
    let missing = directories(vec![(
        1,
        vec![entry("pipe", 2, FileKind::Fifo), entry("gone", 3, FileKind::Fifo)],
    )]);
    assert_eq!(
        validate_namespace(id(1), &sound, &missing),
        Err(NamespaceError::MissingFileRecord(id(3)))
    );
    let mistyped = directories(vec![(1, vec![entry("pipe", 2, FileKind::Socket)])]);
    assert_eq!(
        validate_namespace(id(1), &sound, &mistyped),
        Err(NamespaceError::NamespaceKindMismatch(id(2)))
    );
    let twice = directories(vec![(
        1,
        vec![entry("a", 2, FileKind::Fifo), entry("b", 2, FileKind::Fifo)],
    )]);
    assert_eq!(
        validate_namespace(id(1), &sound, &twice),
        Err(NamespaceError::LinkCountMismatch(id(2)))
    );
}

struct Generation {
    trees: [(ObjectId, TreePage); 3],
    store: MemoryObjectStore,
    root_object: ObjectId,
    root: GenerationRoot,
    metadata: ObjectId,
    references: MetadataReferences,
}

fn limits() -> ClosureLimits {
    ClosureLimits {
        decode: DecodeLimits::default(),
        maximum_objects: 100,
        maximum_files: 10,
        maximum_object_bytes: 1 << 20,
        symbolic_links: true,
        hard_links: false,
        sparse_files: true,
    }
}

fn kinds() -> Vec<FileKind> {
    vec![FileKind::Regular, FileKind::Directory, FileKind::SymbolicLink]
}

fn generation() -> Generation {
    let mut store = MemoryObjectStore::new();
    let options = BlobBuildOptions {
        chunk_bytes: 4,
        page_items: 2,
        page_bytes: 4096,
        maximum_blob_bytes: 1 << 20,
    };
    let mut source = MemoryBlobSource::new(b"contents of one file".to_vec());
    let blob =
        build_blob(&mut store, &mut source, options, WorkBudget::unbounded()).expect("built");
    let extents = ExtentPage::Leaf(vec![
        Extent {
            offset: 0,
            length: 20,
            kind: ExtentKind::Content { object: blob.root, object_offset: 0 },
        },
        Extent { offset: 20, length: 5, kind: ExtentKind::Hole },
    ]);
    let extents = encode_extent_page(&extents, 8).expect("valid");
    let extents = store.insert(ObjectKind::ExtentPage, &extents).expect("stored");
    let metadata = store.insert(ObjectKind::Metadata, b"shared").expect("stored");
    let first = store.insert(ObjectKind::TreePage, b"first leaf").expect("stored");
    let second = store.insert(ObjectKind::TreePage, b"second leaf").expect("stored");
    let top = store.insert(ObjectKind::TreePage, b"top").expect("stored");
    let trees = [
        (
            top,
            TreePage::Internal(vec![
                TreeChild { first_name: entry_name("file"), page: first },
                TreeChild { first_name: entry_name("link"), page: second },
            ]),
        ),
        (first, TreePage::Leaf(vec![entry("file", 2, FileKind::Regular)])),
        (second, TreePage::Leaf(vec![entry("link", 3, FileKind::SymbolicLink)])),
    ];
    let mut records = vec![
        record(1, FileKind::Directory, FilePayload::Directory { entries: top }),
        record(
            2,
            FileKind::Regular,
            FilePayload::Regular { logical_bytes: 25, extents },
        ),
        record(
            3,
            FileKind::SymbolicLink,
            FilePayload::SymbolicLink { target_bytes: 20, target: blob.root },
        ),
    ];
    for record in &mut records {
        record.metadata = metadata;
    }
    let table = encode_file_table_page(&FileTablePage::Leaf(records), 8).expect("valid");
    let file_table = store.insert(ObjectKind::FileTablePage, &table).expect("stored");
    let root_object = store.insert(ObjectKind::GenerationRoot, b"root").expect("stored");
    Generation {
        trees,
        store,
        root_object,
        root: GenerationRoot {
            volume_id: VolumeId::from_bytes([5; 16]),
            root_file_id: id(1),
            file_table,
            parents: Vec::new(),
            required_features: 0,
        },
        metadata,
        references: MetadataReferences {
            named_attributes: None,
            acl: Some(blob.root),
            security_descriptor: None,
        },
    }
}

fn copied(page: &TreePage) -> TreePage {
    match page {
        TreePage::Leaf(entries) => TreePage::Leaf(
            entries
                .iter()
                .map(|each| TreeEntry {
                    name: each.name.clone(),
                    file_id: each.file_id,
                    kind: each.kind,
                })
                .collect(),
        ),
        TreePage::Internal(children) => TreePage::Internal(
            children
                .iter()
                .map(|each| TreeChild { first_name: each.first_name.clone(), page: each.page })
                .collect(),
        ),
    }
}

fn prove(
    generation: &Generation,
    limits: ClosureLimits,
    kinds: &Vec<FileKind>,
    budget: WorkBudget,
) -> Result<GenerationProof, ClosureError> {
    let mut metadata = OrderedMap::new();
    metadata.insert(generation.metadata.digest, generation.references);
    let mut trees = OrderedMap::new();
    for (object, page) in &generation.trees {
        trees.insert(object.digest, copied(page));
    }
    prove_generation_closure(
        &generation.store,
        generation.root_object,
        &generation.root,
        &metadata,
        &trees,
        kinds,
        limits,
        budget,
    )
    .map_err(|failure| failure.error)
}

#[test]
fn sound_generations_are_proved() {
    let generation = generation();
    let proof =
        prove(&generation, limits(), &kinds(), WorkBudget::unbounded()).expect("sound");
    assert_eq!(proof.generation_id, GenerationId::new(generation.root_object.digest));
    assert_eq!(proof.file_count, 3);
    assert_eq!(proof.object_count, proof.objects.len() as u64);
    assert!(proof.objects.contains(&generation.root_object));
    assert!(proof.objects.contains(&generation.root.file_table));
    assert!(proof.objects.contains(&generation.metadata));
    for (page, _) in &generation.trees {
        assert!(proof.objects.contains(page));
    }
    // The root, the table, the metadata, three directory pages, one extent page, five
    // chunks, and six pages of the blob index.
    assert_eq!(proof.object_count, 18);
    assert_eq!(proof.root, generation.root);
    let mut sorted = proof.objects.clone();
    sorted.sort_by_key(|object| (object.kind.canonical_tag(), object.digest.bytes));
    assert_eq!(proof.objects, sorted);
}

#[test]
fn only_reached_objects_are_listed() {
    let mut generation = generation();
    let stray = generation.store.insert(ObjectKind::BlobChunk, b"stray").expect("stored");
    let proof =
        prove(&generation, limits(), &kinds(), WorkBudget::unbounded()).expect("sound");
    assert!(!proof.objects.contains(&stray));
    assert_eq!(proof.object_count, 18);
    let mut exact = limits();
    exact.maximum_objects = 18;
    assert!(prove(&generation, exact, &kinds(), WorkBudget::unbounded()).is_ok());
    exact.maximum_objects = 17;
    assert_eq!(
        prove(&generation, exact, &kinds(), WorkBudget::unbounded()),
        Err(ClosureError::TooManyObjects { observed: 18, maximum: 17 })
    );
}

#[test]
fn unsound_generations_are_refused() {
    let sound = generation();
    let unbounded = WorkBudget::unbounded();
    assert_eq!(
        prove(&sound, limits(), &vec![FileKind::Directory], unbounded),
        Err(ClosureError::UnsupportedVolumeSemantics)
    );
    let mut unlinked = limits();
    unlinked.symbolic_links = false;
    assert_eq!(
        prove(&sound, unlinked, &kinds(), unbounded),
        Err(ClosureError::UnsupportedVolumeSemantics)
    );
    let mut few = limits();
    few.maximum_files = 2;
    assert_eq!(
        prove(&sound, few, &kinds(), unbounded),
        Err(ClosureError::TooManyFiles { observed: 3, maximum: 2 })
    );
    let mut wrong = generation();
    wrong.root_object = object(ObjectKind::Blob, 1);
    assert_eq!(
        prove(&wrong, limits(), &kinds(), unbounded),
        Err(ClosureError::WrongObjectKind)
    );
    let mut lost = generation();
    lost.root.file_table = object(ObjectKind::FileTablePage, 9);
    assert_eq!(
        prove(&lost, limits(), &kinds(), unbounded),
        Err(ClosureError::Storage(ObjectStoreError::Missing))
    );
    let mut rootless = generation();
    rootless.root.root_file_id = id(9);
    assert_eq!(
        prove(&rootless, limits(), &kinds(), unbounded),
        Err(ClosureError::MissingRootFile)
    );
    let mut flat = generation();
    flat.root.root_file_id = id(2);
    assert_eq!(
        prove(&flat, limits(), &kinds(), unbounded),
        Err(ClosureError::RootIsNotDirectory)
    );
    let mut stray = generation();
    stray.references.security_descriptor = Some(object(ObjectKind::Blob, 9));
    assert_eq!(
        prove(&stray, limits(), &kinds(), unbounded),
        Err(ClosureError::Storage(ObjectStoreError::Missing))
    );
    let mut mistyped = generation();
    mistyped.references.named_attributes = mistyped.references.acl;
    assert_eq!(
        prove(&mistyped, limits(), &kinds(), unbounded),
        Err(ClosureError::WrongObjectKind)
    );
    let mut little = unbounded;
    little.items_examined = 1;
    assert_eq!(
        prove(&sound, limits(), &kinds(), little),
        Err(ClosureError::Work(WorkError::Exceeded))
    );
}

#[test]
fn unsound_directory_trees_are_refused() {
    let unbounded = WorkBudget::unbounded();
    let mut strange = generation();
    strange.trees[2].0 = object(ObjectKind::TreePage, 9);
    assert!(matches!(
        prove(&strange, limits(), &kinds(), unbounded),
        Err(ClosureError::Decode(_))
    ));
    let mut misrouted = generation();
    misrouted.trees[2].1 = TreePage::Leaf(vec![entry("other", 3, FileKind::SymbolicLink)]);
    assert_eq!(
        prove(&misrouted, limits(), &kinds(), unbounded),
        Err(ClosureError::RoutingBoundsMismatch)
    );
    let mut overlong = generation();
    overlong.trees[1].1 = TreePage::Leaf(vec![
        entry("file", 2, FileKind::Regular),
        entry("link", 3, FileKind::SymbolicLink),
    ]);
    assert_eq!(
        prove(&overlong, limits(), &kinds(), unbounded),
        Err(ClosureError::RoutingBoundsMismatch)
    );
    let mut lost = generation();
    lost.trees[0].1 = TreePage::Internal(vec![TreeChild {
        first_name: entry_name("file"),
        page: object(ObjectKind::TreePage, 9),
    }]);
    assert_eq!(
        prove(&lost, limits(), &kinds(), unbounded),
        Err(ClosureError::Storage(ObjectStoreError::Missing))
    );
    let mut cyclic = generation();
    let top = cyclic.trees[0].0;
    cyclic.trees[0].1 =
        TreePage::Internal(vec![TreeChild { first_name: entry_name("file"), page: top }]);
    assert_eq!(
        prove(&cyclic, limits(), &kinds(), unbounded),
        Err(ClosureError::RoutingAlias)
    );
    let mut unbound = generation();
    unbound.trees[2].1 = TreePage::Leaf(vec![entry("link", 9, FileKind::SymbolicLink)]);
    assert_eq!(
        prove(&unbound, limits(), &kinds(), unbounded),
        Err(ClosureError::MissingFileRecord(id(9)))
    );
    let mut undescribed = generation();
    undescribed.metadata = object(ObjectKind::Metadata, 9);
    assert!(matches!(
        prove(&undescribed, limits(), &kinds(), unbounded),
        Err(ClosureError::Decode(_))
    ));
}

fn generation_root(byte: u8, table: ObjectId) -> GenerationRoot {
    GenerationRoot {
        volume_id: VolumeId::from_bytes([byte; 16]),
        root_file_id: id(1),
        file_table: table,
        parents: Vec::new(),
        required_features: 0,
    }
}

#[test]
fn checkpoints_reuse_or_extend_their_base() {
    let table = object(ObjectKind::FileTablePage, 1);
    let base = object(ObjectKind::GenerationRoot, 2);
    let request = CheckpointRequest { base, file_table: table, merge_parent: None };
    assert!(validate_request(request).is_ok());
    let same = plan_checkpoint(
        request,
        &generation_root(5, table),
        None,
        WorkCounters::default(),
    )
    .expect("valid");
    assert_eq!(same, CheckpointPlan::Reuse);
    assert!(reused_checkpoint(base, WorkCounters::default()).reused_base);
    let changed = object(ObjectKind::FileTablePage, 3);
    let plan = plan_checkpoint(
        CheckpointRequest { file_table: changed, ..request },
        &generation_root(5, table),
        None,
        WorkCounters::default(),
    )
    .expect("valid");
    match plan {
        CheckpointPlan::Write(root) => {
            assert_eq!(root.file_table, changed);
            assert_eq!(root.parents, vec![GenerationId::new(base.digest)]);
        }
        CheckpointPlan::Reuse => panic!("expected a new root"),
    }
    let (written, work) =
        encode_checkpoint(b"encoded", 1, WorkCounters::default(), WorkBudget::unbounded())
            .expect("within budget");
    assert_eq!(written, object_id(ObjectKind::GenerationRoot, b"encoded"));
    assert!(work.bytes_hashed >= 7);
}

#[test]
fn checkpoints_refuse_foreign_and_duplicate_parents() {
    let table = object(ObjectKind::FileTablePage, 1);
    let base = object(ObjectKind::GenerationRoot, 2);
    let other = object(ObjectKind::GenerationRoot, 4);
    let request = CheckpointRequest { base, file_table: table, merge_parent: Some(other) };
    let foreign = plan_checkpoint(
        request,
        &generation_root(5, table),
        Some(&generation_root(6, table)),
        WorkCounters::default(),
    );
    assert_eq!(foreign.expect_err("volume").error, CheckpointError::CrossVolumeMerge);
    let duplicate = CheckpointRequest { merge_parent: Some(base), ..request };
    assert_eq!(
        validate_request(duplicate).expect_err("parent").error,
        CheckpointError::DuplicateParent
    );
    let wrong = CheckpointRequest { base: table, ..request };
    assert_eq!(
        validate_request(wrong).expect_err("kind").error,
        CheckpointError::WrongGenerationKind
    );
    let wrong = CheckpointRequest { file_table: base, ..request };
    assert_eq!(
        validate_request(wrong).expect_err("kind").error,
        CheckpointError::WrongFileTableKind
    );
}

fn manifest() -> GenerationExportManifest {
    let root = object(ObjectKind::GenerationRoot, 9);
    GenerationExportManifest {
        volume_id: VolumeId::from_bytes([5; 16]),
        config: VolumeConfig {
            limits: VolumeLimits {
                maximum_objects_per_generation: 10,
                maximum_files_per_generation: 4,
            },
        },
        generation_root: root,
        generation_id: GenerationId::new(root.digest),
        objects: vec![object(ObjectKind::BlobChunk, 1), object(ObjectKind::Blob, 1), root],
        file_count: 2,
    }
}

#[test]
fn manifests_round_trip() {
    let bytes = encode_generation_export_manifest(&manifest()).expect("valid");
    assert_eq!(
        decode_generation_export_manifest(&bytes, 4096, 10).expect("decodes"),
        manifest()
    );
    assert!(matches!(
        decode_generation_export_manifest(&bytes[..bytes.len() - 1], 4096, 10),
        Err(GenerationExportManifestError::Decode(_))
    ));
}

#[test]
fn manifests_are_canonical() {
    let check = |manifest: &GenerationExportManifest| {
        validate_generation_export_manifest(manifest, 10).expect_err("invalid")
    };
    let mut swapped = manifest();
    swapped.objects.swap(0, 1);
    assert_eq!(check(&swapped), GenerationExportManifestError::NonCanonicalObjectOrder);
    let mut rootless = manifest();
    rootless.objects.pop();
    assert_eq!(check(&rootless), GenerationExportManifestError::MissingRoot);
    let mut crowded = manifest();
    crowded.file_count = 5;
    assert_eq!(check(&crowded), GenerationExportManifestError::TooManyFiles);
    let mut mismatched = manifest();
    mismatched.generation_id = GenerationId::new(Digest::from_bytes([1; 32]));
    assert_eq!(check(&mismatched), GenerationExportManifestError::GenerationMismatch);
    let mut wrong = manifest();
    wrong.generation_root.kind = ObjectKind::Blob;
    assert_eq!(check(&wrong), GenerationExportManifestError::WrongRootKind);
    let mut limitless = manifest();
    limitless.config.limits.maximum_objects_per_generation = 0;
    assert_eq!(
        check(&limitless),
        GenerationExportManifestError::Config(VolumeConfigError::EmptyLimit)
    );
    assert_eq!(
        validate_generation_export_manifest(&manifest(), 2),
        Err(GenerationExportManifestError::TooManyObjects)
    );
}
