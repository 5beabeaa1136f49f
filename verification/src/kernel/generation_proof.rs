//! Authentication of a whole generation before it is published.

use super::checkpoint::GenerationRoot;
use super::closure::{
    added_closed, blob_proved, blob_whole, follows, lemma_blob_opens,
    lemma_closed_on, lengths_true, resource_failure, same_metadata, ClosureError, ClosureErrorView,
    ClosureLimits,
    ContextView, ProofContext,
};
use super::closure_attribute::attributes_proved;
use super::closure_extent::extents_proved;
use super::closure_outcome::{
    attributes_walked, blob_walked, countable, extent_tree_walked, read_proved, table_walked,
    tree_walked, unit_proved, Proved,
};
use super::closure_reach::{
    confined, lemma_attributes_among, lemma_blob_among, lemma_extent_tree_among, lemma_read_among,
    lemma_table_among, lemma_tree_among,
};
use super::closure_table::{filed, in_table, lemma_records_of, recorded, records_of, table_proved};
use super::closure_tree::{
    lemma_listed_under, listed_under, tree_entries, tree_proved, tree_refers, trees_closed,
    TreePage, TreePages,
};
use super::codec::{CanonicalDecodeError, DecodeErrorView, DecodeLimits};
use super::export::objects_ordered;
use super::file_table::{FilePayload, FileRecord, PayloadView, RecordView};
use super::name::FileKind;
use super::namespace::{
    namespace_problem, validate_namespace, DirectoryEntries, NamespaceError, TreeEntryView,
};
use crate::foundation::{Digest, FileId, GenerationId};
use crate::order::{
    ascending, bytes_lt, enumerates, lemma_bytes_lt_irreflexive, lemma_bytes_lt_total,
    lemma_bytes_lt_transitive, views, OrderKey, OrderedMap, Replicate,
};
use crate::performance::{
    no_work, total, within, OperationFailure, WorkBudget, WorkCounters, WorkError,
};
use crate::sort::{sort_by_rank, Ranked};
use crate::storage::{
    kind_tag, kind_tags_differ, object_before, object_lt, ObjectId, ObjectKind, ObjectStore,
    ObjectView, Objects,
};
use vstd::prelude::*;

verus! {

/// Logical bytes of one identity.
pub const OBJECT_LOGICAL_BYTES: u64 = 33;

/// Successful whole-generation proof.
#[derive(Debug, PartialEq, Eq)]
pub struct GenerationProof {
    /// Content-addressed generation identity.
    pub generation_id: GenerationId,
    /// Root that was proved.
    pub root: GenerationRoot,
    /// Distinct authenticated objects read.
    pub object_count: u64,
    /// Reachable path-independent file records.
    pub file_count: u64,
    /// Stable sorted identities in the complete authenticated closure.
    pub objects: Vec<ObjectId>,
    /// Exact proof work.
    pub work: WorkCounters,
}

/// Generation-closure failure retaining all work spent before rejection.
pub type GenerationProofFailure = OperationFailure<ClosureError>;

impl Ranked for ObjectId {
    open spec fn precedes(a: ObjectView, b: ObjectView) -> bool {
        object_lt(a, b)
    }

    proof fn rank_laws(a: ObjectView, b: ObjectView, c: ObjectView) {
        lemma_bytes_lt_irreflexive(a.digest);
        if bytes_lt(a.digest, b.digest) && bytes_lt(b.digest, a.digest) {
            lemma_bytes_lt_transitive(a.digest, b.digest, a.digest);
        }
        if object_lt(a, b) && !object_lt(c, b) {
            lemma_bytes_lt_total(c.digest, b.digest);
            if bytes_lt(a.digest, b.digest) && bytes_lt(b.digest, c.digest) {
                lemma_bytes_lt_transitive(a.digest, b.digest, c.digest);
            }
        }
    }

    fn goes_before(&self, other: &Self) -> (r: bool) {
        object_before(self, other)
    }
}

/// Whether a record is one that the volume admits.
pub open spec fn record_admitted(
    record: RecordView,
    kinds: Seq<FileKind>,
    limits: ClosureLimits,
) -> bool {
    &&& kinds.contains(record.kind)
    &&& record.kind == FileKind::SymbolicLink ==> limits.symbolic_links
    &&& record.link_count > 1 ==> limits.hard_links
}

fn admits(record: &FileRecord, kinds: &Vec<FileKind>, limits: ClosureLimits) -> (r: bool)
    ensures
        r == record_admitted(record@, kinds@, limits),
{
    let mut known = false;
    let mut i: usize = 0;
    while i < kinds.len()
        invariant
            i <= kinds@.len(),
            known == exists|j: int| 0 <= j < i && #[trigger] kinds@[j] == record.kind,
        decreases kinds@.len() - i,
    {
        if kinds[i] == record.kind {
            known = true;
        }
        i = i + 1;
    }
    assert(known == kinds@.contains(record.kind));
    known && (record.kind != FileKind::SymbolicLink || limits.symbolic_links) && (record.link_count
        <= 1 || limits.hard_links)
}

/// What a decoded metadata object refers to.
#[derive(Clone, Copy, Debug, PartialEq, Eq)]
pub struct MetadataReferences {
    /// Tree of named attributes.
    pub named_attributes: Option<ObjectId>,
    /// Access-control list.
    pub acl: Option<ObjectId>,
    /// Security descriptor.
    pub security_descriptor: Option<ObjectId>,
}

impl View for MetadataReferences {
    type V = MetadataReferences;

    open spec fn view(&self) -> MetadataReferences {
        *self
    }
}

impl Replicate for MetadataReferences {
    fn replicate(&self) -> (r: Self) {
        *self
    }
}

/// References of metadata by digest.
pub type Metadata = Map<Digest, MetadataReferences>;

/// What a metadata object refers to, if it decodes.
pub open spec fn references_of(metadata: Metadata, object: ObjectView) -> Option<
    MetadataReferences,
> {
    listed_under(metadata, object)
}

fn listed_references(metadata: &OrderedMap<Digest, MetadataReferences>, object: &ObjectId) -> (r:
    Option<MetadataReferences>)
    ensures
        r == references_of(metadata@, object@),
{
    proof {
        lemma_listed_under(metadata@, *object);
    }
    match metadata.get(&object.digest) {
        Some(references) => Some(*references),
        None => None,
    }
}

/// Whether all metadata that a proof has asked for is sound, and what it refers to has
/// been asked for.
pub open spec fn metadata_true(objects: Objects, context: ContextView, metadata: Metadata) -> bool {
    forall|object: ObjectView| #[trigger]
        context.objects.contains(object) && object.kind == ObjectKind::Metadata ==> metadata_proved(
            objects,
            context.limits.decode,
            references_of(metadata, object),
        ) && references_asked(context.objects, references_of(metadata, object))
}

/// Whether what a metadata object refers to is among some objects.
pub open spec fn references_asked(
    asked: Set<ObjectView>,
    references: Option<MetadataReferences>,
) -> bool {
    references matches Some(found) ==> {
        &&& found.named_attributes matches Some(root) ==> asked.contains(root@)
        &&& found.acl matches Some(root) ==> asked.contains(root@)
        &&& found.security_descriptor matches Some(root) ==> asked.contains(root@)
    }
}

/// Whether what a record refers to is among some objects.
pub open spec fn payload_asked(asked: Set<ObjectView>, record: RecordView) -> bool {
    match record.payload {
        PayloadView::Regular { extents, .. } => asked.contains(extents),
        PayloadView::Directory { entries } => asked.contains(entries),
        PayloadView::SymbolicLink { target, .. } => asked.contains(target),
        PayloadView::ReparsePoint { payload, .. } => asked.contains(payload),
        _ => true,
    }
}

/// Whether a record, its metadata and what they refer to are among some objects.
pub open spec fn record_asked(
    asked: Set<ObjectView>,
    metadata: Metadata,
    record: RecordView,
) -> bool {
    &&& asked.contains(record.metadata)
    &&& references_asked(asked, references_of(metadata, record.metadata))
    &&& payload_asked(asked, record)
}

/// Whether some objects are closed: every page among them refers only to objects among
/// them.
pub open spec fn closed(
    objects: Objects,
    limits: DecodeLimits,
    trees: TreePages,
    asked: Set<ObjectView>,
) -> bool {
    added_closed(objects, limits, Set::empty(), asked, Seq::empty()) && trees_closed(
        trees,
        Set::empty(),
        asked,
        Seq::empty(),
    )
}

/// Bindings of the directories among some records.
pub open spec fn directories_of(trees: TreePages, records: Map<FileId, RecordView>) -> Map<
    FileId,
    Seq<TreeEntryView>,
> {
    Map::new(
        |id: FileId| records.dom().contains(id) && records[id].payload is Directory,
        |id: FileId| tree_entries(trees, records[id].payload->entries),
    )
}

/// Whether what a metadata object refers to is sound.
pub open spec fn metadata_proved(
    objects: Objects,
    limits: DecodeLimits,
    references: Option<MetadataReferences>,
) -> bool {
    &&& references matches Some(found)
    &&& found.named_attributes matches Some(root) ==> attributes_proved(
        objects,
        limits,
        root@,
        None,
        None,
    )
    &&& found.acl matches Some(root) ==> blob_whole(objects, limits, root@)
    &&& found.security_descriptor matches Some(root) ==> blob_whole(objects, limits, root@)
}

/// Whether what a metadata object refers to is of the right kind.
pub open spec fn metadata_kinds(references: Option<MetadataReferences>) -> bool {
    references matches Some(found) ==> {
        &&& found.named_attributes matches Some(root) ==> root.kind == ObjectKind::AttributePage
        &&& found.acl matches Some(root) ==> root.kind == ObjectKind::Blob
        &&& found.security_descriptor matches Some(root) ==> root.kind == ObjectKind::Blob
    }
}

/// Whether what a record refers to is sound.
pub open spec fn payload_proved(
    objects: Objects,
    limits: ClosureLimits,
    trees: TreePages,
    record: RecordView,
) -> bool {
    match record.payload {
        PayloadView::Directory { entries } => tree_proved(objects, trees, entries),
        PayloadView::Regular { logical_bytes, extents } => extents_proved(
            objects,
            limits.decode,
            limits.sparse_files,
            extents,
            0,
            logical_bytes,
        ),
        PayloadView::SymbolicLink { target_bytes, target } => blob_proved(
            objects,
            limits.decode,
            target,
            0,
            target_bytes as int,
        ),
        PayloadView::ReparsePoint { payload_bytes, payload } => blob_proved(
            objects,
            limits.decode,
            payload,
            0,
            payload_bytes as int,
        ),
        _ => true,
    }
}

/// Whether what a record refers to is of the right kind.
pub open spec fn payload_kinds(record: RecordView) -> bool {
    match record.payload {
        PayloadView::Regular { extents, .. } => extents.kind == ObjectKind::ExtentPage,
        PayloadView::SymbolicLink { target, .. } => target.kind == ObjectKind::Blob,
        PayloadView::ReparsePoint { payload, .. } => payload.kind == ObjectKind::Blob,
        _ => true,
    }
}

/// Whether a failure is one that a sound generation leaves possible: of the store, of
/// the bounds, or of a page reached twice.
pub open spec fn closure_resources(error: ClosureError) -> bool {
    resource_failure(error) || error is RoutingAlias
}

/// Whether every one of some records is admitted and sound.
pub open spec fn records_proved(
    objects: Objects,
    limits: ClosureLimits,
    kinds: Seq<FileKind>,
    metadata: Metadata,
    trees: TreePages,
    records: Map<FileId, RecordView>,
    keys: Seq<FileId>,
    count: int,
) -> bool {
    forall|i: int|
        0 <= i < count ==> record_admitted(records[#[trigger] keys[i]], kinds, limits)
            && record_proved(objects, limits, metadata, trees, records[keys[i]])
}

/// Whether the metadata and the payload of a record are sound.
pub open spec fn record_proved(
    objects: Objects,
    limits: ClosureLimits,
    metadata: Metadata,
    trees: TreePages,
    record: RecordView,
) -> bool {
    &&& record.metadata.kind == ObjectKind::Metadata
    &&& metadata_proved(objects, limits.decode, references_of(metadata, record.metadata))
    &&& payload_proved(objects, limits, trees, record)
}

/// Whether what a record and its metadata refer to is of the right kind.
pub open spec fn record_kinds(metadata: Metadata, record: RecordView) -> bool {
    payload_kinds(record) && metadata_kinds(references_of(metadata, record.metadata))
}

/// Whether records make a sound volume: its root is a directory among them, and every one
/// is admitted and sound.
pub open spec fn volume_sound(
    objects: Objects,
    limits: ClosureLimits,
    root_file_id: FileId,
    kinds: Seq<FileKind>,
    metadata: Metadata,
    trees: TreePages,
    records: Map<FileId, RecordView>,
) -> bool {
    let keys = ascending::<FileId>(records.dom());
    &&& records.dom().contains(root_file_id)
    &&& records[root_file_id].payload is Directory
    &&& records_proved(objects, limits, kinds, metadata, trees, records, keys, keys.len() as int)
    &&& forall|i: int| 0 <= i < keys.len() ==> record_kinds(metadata, records[#[trigger] keys[i]])
}

/// A disagreement of the namespace and the records as a proof failure.
pub open spec fn namespace_cause(error: NamespaceError) -> ClosureError {
    match error {
        NamespaceError::MissingFileRecord(id) => ClosureError::MissingFileRecord(id),
        NamespaceError::NamespaceKindMismatch(id) => ClosureError::NamespaceKindMismatch(id),
        NamespaceError::LinkCountMismatch(id) => ClosureError::LinkCountMismatch(id),
        NamespaceError::DirectoryHardLink(id) => ClosureError::DirectoryHardLink(id),
        NamespaceError::MissingDirectoryTree(id) => ClosureError::MissingDirectoryTree(id),
        NamespaceError::UnreachableFileRecords => ClosureError::UnreachableFileRecords,
        NamespaceError::RangeOverflow => ClosureError::RangeOverflow,
    }
}

fn map_namespace(error: NamespaceError) -> (r: ClosureError)
    ensures
        r == namespace_cause(error),
{
    match error {
        NamespaceError::MissingFileRecord(id) => ClosureError::MissingFileRecord(id),
        NamespaceError::NamespaceKindMismatch(id) => ClosureError::NamespaceKindMismatch(id),
        NamespaceError::LinkCountMismatch(id) => ClosureError::LinkCountMismatch(id),
        NamespaceError::DirectoryHardLink(id) => ClosureError::DirectoryHardLink(id),
        NamespaceError::MissingDirectoryTree(id) => ClosureError::MissingDirectoryTree(id),
        NamespaceError::UnreachableFileRecords => ClosureError::UnreachableFileRecords,
        NamespaceError::RangeOverflow => ClosureError::RangeOverflow,
    }
}

/// Bindings of the directories among the first of some records.
spec fn directories_among(
    trees: TreePages,
    records: Map<FileId, RecordView>,
    keys: Seq<FileId>,
    count: int,
) -> Map<FileId, Seq<TreeEntryView>> {
    Map::new(
        |id: FileId| keys.take(count).contains(id) && records[id].payload is Directory,
        |id: FileId| tree_entries(trees, records[id].payload->entries),
    )
}

proof fn lemma_directories_next(
    trees: TreePages,
    records: Map<FileId, RecordView>,
    keys: Seq<FileId>,
    i: int,
)
    requires
        0 <= i < keys.len(),
    ensures
        directories_among(trees, records, keys, i + 1) == if records[keys[i]].payload is Directory {
            directories_among(trees, records, keys, i).insert(
                keys[i],
                tree_entries(trees, records[keys[i]].payload->entries),
            )
        } else {
            directories_among(trees, records, keys, i)
        },
{
    let longer = keys.take(i + 1);
    let shorter = keys.take(i);
    assert forall|id: FileId| longer.contains(id) == (shorter.contains(id) || id == keys[i]) by {
        if longer.contains(id) {
            let k = longer.index_of(id);
            if k < i {
                assert(shorter[k] == id);
            }
        }
        if shorter.contains(id) {
            let k = shorter.index_of(id);
            assert(longer[k] == id);
        }
        assert(longer[i] == keys[i]);
    }
    assert(directories_among(trees, records, keys, i + 1) =~= if records[keys[i]].payload is Directory {
        directories_among(trees, records, keys, i).insert(
            keys[i],
            tree_entries(trees, records[keys[i]].payload->entries),
        )
    } else {
        directories_among(trees, records, keys, i)
    });
}

proof fn lemma_directories_all(
    trees: TreePages,
    records: Map<FileId, RecordView>,
    keys: Seq<FileId>,
)
    requires
        enumerates::<FileId>(keys, records.dom()),
    ensures
        directories_among(trees, records, keys, keys.len() as int) == directories_of(
            trees,
            records,
        ),
{
    assert(keys.take(keys.len() as int) =~= keys);
    assert forall|id: FileId| keys.contains(id) == records.dom().contains(id) by {
        assert(keys.to_set().contains(id) == keys.contains(id));
    }
    assert(directories_among(trees, records, keys, keys.len() as int) =~= directories_of(
        trees,
        records,
    ));
}

/// Closed directory pages stay closed when more are asked for in a closed way.
proof fn lemma_trees_on(
    trees: TreePages,
    before: Set<ObjectView>,
    earlier: Set<ObjectView>,
    now: Set<ObjectView>,
)
    requires
        trees_closed(trees, before, earlier, Seq::empty()),
        trees_closed(trees, earlier, now, Seq::empty()) || forall|object: ObjectView| #[trigger]
            now.contains(object) && object.kind == ObjectKind::TreePage ==> earlier.contains(object),
        earlier.subset_of(now),
    ensures
        trees_closed(trees, before, now, Seq::empty()),
{
    let none = Seq::<ObjectView>::empty();
    assert forall|page: ObjectView, target: ObjectView|
        now.contains(page) && !before.contains(page) && #[trigger] tree_refers(
            trees,
            page,
            target,
        ) implies now.contains(target) || none.contains(target) by {
        assert(!none.contains(target));
        if !earlier.contains(page) {
            assert(trees_closed(trees, earlier, now, Seq::empty()));
        }
    }
}

/// What comes of proving a blob of a recorded length.
pub open spec fn sized_blob_walked<S: ObjectStore>(
    store: &S,
    context: ContextView,
    root: ObjectView,
    length: u64,
) -> Proved<()> {
    match blob_walked(store, context, root) {
        (Err(error), next) => (Err(error), next),
        (Ok(found), next) => if found != length {
            (Err(ClosureErrorView::BlobLengthMismatch), next)
        } else {
            (Ok(()), next)
        },
    }
}

/// What comes of proving a blob, if there is one.
pub open spec fn optional_blob_walked<S: ObjectStore>(
    store: &S,
    context: ContextView,
    root: Option<ObjectId>,
) -> Proved<()> {
    match root {
        None => (Ok(()), context),
        Some(root) => match blob_walked(store, context, root@) {
            (Err(error), next) => (Err(error), next),
            (Ok(_), next) => (Ok(()), next),
        },
    }
}

/// What comes of proving what a metadata object refers to.
pub open spec fn references_walked<S: ObjectStore>(
    store: &S,
    context: ContextView,
    found: MetadataReferences,
) -> Proved<()> {
    let (named, next) = match found.named_attributes {
        None => (Ok(()), context),
        Some(root) => attributes_walked(store, context, root@),
    };
    match named {
        Err(error) => (Err(error), next),
        Ok(_) => match optional_blob_walked(store, next, found.acl) {
            (Err(error), next) => (Err(error), next),
            (Ok(_), next) => optional_blob_walked(store, next, found.security_descriptor),
        },
    }
}

/// What comes of proving a metadata object. One that was asked for is not read again.
pub open spec fn metadata_walked<S: ObjectStore>(
    store: &S,
    context: ContextView,
    metadata: ObjectView,
    references: Option<MetadataReferences>,
) -> Proved<()> {
    if metadata.kind != ObjectKind::Metadata {
        (Err(ClosureErrorView::WrongObjectKind), context)
    } else if context.objects.contains(metadata) {
        (Ok(()), context)
    } else {
        match read_proved(store, context, metadata, false) {
            (Err(error), next) => (Err(error), next),
            (Ok(_), next) => match references {
                None => (
                    Err(ClosureErrorView::Decode(DecodeErrorView::Invariant("metadata"@))),
                    next,
                ),
                Some(found) => references_walked(store, next, found),
            },
        }
    }
}

/// What comes of proving what a record refers to, unless it is a directory.
pub open spec fn payload_walked<S: ObjectStore>(
    store: &S,
    context: ContextView,
    record: RecordView,
) -> Proved<()> {
    match record.payload {
        PayloadView::Regular { logical_bytes, extents } => extent_tree_walked(
            store,
            context,
            extents,
            logical_bytes,
        ),
        PayloadView::SymbolicLink { target_bytes, target } => sized_blob_walked(
            store,
            context,
            target,
            target_bytes,
        ),
        PayloadView::ReparsePoint { payload_bytes, payload } => sized_blob_walked(
            store,
            context,
            payload,
            payload_bytes,
        ),
        _ => (Ok(()), context),
    }
}

/// What comes of proving one record, its metadata and what it refers to.
pub open spec fn record_walked<S: ObjectStore>(
    store: &S,
    context: ContextView,
    kinds: Seq<FileKind>,
    metadata: Metadata,
    trees: TreePages,
    record: RecordView,
) -> Proved<()> {
    if !record_admitted(record, kinds, context.limits) {
        (Err(ClosureErrorView::UnsupportedVolumeSemantics), context)
    } else {
        match metadata_walked(
            store,
            context,
            record.metadata,
            references_of(metadata, record.metadata),
        ) {
            (Err(error), next) => (Err(error), next),
            (Ok(_), next) => match record.payload {
                PayloadView::Directory { entries } => match tree_walked(
                    store,
                    next,
                    trees,
                    entries,
                ) {
                    (Err(error), next) => (Err(error), next),
                    (Ok(_), next) => (Ok(()), next),
                },
                _ => payload_walked(store, next, record),
            },
        }
    }
}

/// What comes of proving records from one key on.
pub open spec fn records_walked<S: ObjectStore>(
    store: &S,
    context: ContextView,
    kinds: Seq<FileKind>,
    metadata: Metadata,
    trees: TreePages,
    records: Map<FileId, RecordView>,
    keys: Seq<FileId>,
    i: int,
) -> Proved<()>
    decreases keys.len() - i,
{
    if i >= keys.len() {
        (Ok(()), context)
    } else {
        match record_walked(store, context, kinds, metadata, trees, records[keys[i]]) {
            (Err(error), next) => (Err(error), next),
            (Ok(_), next) => records_walked(
                store,
                next,
                kinds,
                metadata,
                trees,
                records,
                keys,
                i + 1,
            ),
        }
    }
}

/// What comes of proving every record, in the order of their identities, and the
/// namespace over them.
pub open spec fn volume_walked<S: ObjectStore>(
    store: &S,
    context: ContextView,
    root_file_id: FileId,
    kinds: Seq<FileKind>,
    metadata: Metadata,
    trees: TreePages,
    records: Map<FileId, RecordView>,
) -> Proved<()> {
    if !records.dom().contains(root_file_id) {
        (Err(ClosureErrorView::MissingRootFile), context)
    } else if !(records[root_file_id].payload is Directory) {
        (Err(ClosureErrorView::RootIsNotDirectory), context)
    } else {
        match records_walked(
            store,
            context,
            kinds,
            metadata,
            trees,
            records,
            ascending::<FileId>(records.dom()),
            0,
        ) {
            (Err(error), next) => (Err(error), next),
            (Ok(_), next) => match namespace_problem(
                root_file_id,
                records,
                directories_of(trees, records),
            ) {
                Some(problem) => (Err(namespace_cause(problem)@), next),
                None => (Ok(()), next),
            },
        }
    }
}

/// Proving what a metadata object refers to keeps to a closed set that holds it.
proof fn lemma_references_among<S: ObjectStore>(
    store: &S,
    context: ContextView,
    trees: TreePages,
    found: MetadataReferences,
    among: Set<ObjectView>,
)
    requires
        confined(context, context.limits, among),
        closed(store.contents(), context.limits.decode, trees, among),
        references_asked(among, Some(found)),
    ensures
        confined(references_walked(store, context, found).1, context.limits, among),
{
    let mut next = context;
    if let Some(root) = found.named_attributes {
        lemma_attributes_among(store, context, root@, among);
        next = attributes_walked(store, context, root@).1;
    }
    if let Some(root) = found.acl {
        lemma_blob_among(store, next, root@, among);
        next = blob_walked(store, next, root@).1;
    }
    if let Some(root) = found.security_descriptor {
        lemma_blob_among(store, next, root@, among);
    }
}

/// Proving a record keeps to a closed set that holds what the record refers to.
proof fn lemma_record_among<S: ObjectStore>(
    store: &S,
    context: ContextView,
    kinds: Seq<FileKind>,
    metadata: Metadata,
    trees: TreePages,
    record: RecordView,
    among: Set<ObjectView>,
)
    requires
        confined(context, context.limits, among),
        closed(store.contents(), context.limits.decode, trees, among),
        record_asked(among, metadata, record),
    ensures
        confined(
            record_walked(store, context, kinds, metadata, trees, record).1,
            context.limits,
            among,
        ),
{
    let references = references_of(metadata, record.metadata);
    lemma_read_among(store, context, record.metadata, false, among);
    let read = read_proved(store, context, record.metadata, false).1;
    if let Some(found) = references {
        lemma_references_among(store, read, trees, found, among);
    }
    let next = metadata_walked(store, context, record.metadata, references).1;
    assert(confined(next, context.limits, among));
    match record.payload {
        PayloadView::Regular { logical_bytes, extents } => {
            lemma_extent_tree_among(store, next, extents, logical_bytes, among);
        },
        PayloadView::Directory { entries } => {
            lemma_tree_among(store, next, trees, entries, among);
        },
        PayloadView::SymbolicLink { target, .. } => {
            lemma_blob_among(store, next, target, among);
        },
        PayloadView::ReparsePoint { payload, .. } => {
            lemma_blob_among(store, next, payload, among);
        },
        _ => {},
    }
}

/// Proving records keeps to a closed set that holds what they refer to.
proof fn lemma_records_among<S: ObjectStore>(
    store: &S,
    context: ContextView,
    kinds: Seq<FileKind>,
    metadata: Metadata,
    trees: TreePages,
    records: Map<FileId, RecordView>,
    keys: Seq<FileId>,
    i: int,
    among: Set<ObjectView>,
)
    requires
        confined(context, context.limits, among),
        closed(store.contents(), context.limits.decode, trees, among),
        forall|j: int|
            0 <= j < keys.len() ==> record_asked(among, metadata, records[#[trigger] keys[j]]),
        0 <= i,
    ensures
        confined(
            records_walked(store, context, kinds, metadata, trees, records, keys, i).1,
            context.limits,
            among,
        ),
    decreases keys.len() - i,
{
    if i < keys.len() {
        let record = records[keys[i]];
        lemma_record_among(store, context, kinds, metadata, trees, record, among);
        let next = record_walked(store, context, kinds, metadata, trees, record).1;
        lemma_records_among(store, next, kinds, metadata, trees, records, keys, i + 1, among);
    }
}

/// Whether a set holds a whole generation: its root object, its file table, what each
/// record in the table and its metadata refer to, and what each page refers to.
pub open spec fn generation_among(
    objects: Objects,
    limits: DecodeLimits,
    generation_root: ObjectView,
    root: GenerationRoot,
    metadata: Metadata,
    trees: TreePages,
    among: Set<ObjectView>,
) -> bool {
    &&& closed(objects, limits, trees, among)
    &&& among.contains(generation_root)
    &&& among.contains(root.file_table@)
    &&& forall|record: RecordView| #[trigger]
        in_table(objects, limits, root.file_table@, record) ==> record_asked(
            among,
            metadata,
            record,
        )
}

impl ProofContext {
    /// Proves a blob of a recorded length.
    fn prove_sized_blob<S: ObjectStore>(&mut self, store: &S, root: ObjectId, length: u64) -> (r:
        Result<(), ClosureError>)
        requires
            lengths_true(store.contents(), old(self)@),
        ensures
            follows(old(self)@, final(self)@),
            same_metadata(old(self)@, final(self)@),
            lengths_true(store.contents(), final(self)@),
            r is Ok ==> blob_proved(
                store.contents(),
                old(self)@.limits.decode,
                root@,
                0,
                length as int,
            ),
            r is Ok ==> final(self)@.objects.contains(root@) && added_closed(
                store.contents(),
                old(self)@.limits.decode,
                old(self)@.objects,
                final(self)@.objects,
                Seq::empty(),
            ),
            root.kind == ObjectKind::Blob && blob_proved(
                store.contents(),
                old(self)@.limits.decode,
                root@,
                0,
                length as int,
            ) ==> (r matches Err(error) ==> closure_resources(error)),
            countable(old(self)@) ==> sized_blob_walked(store, old(self)@, root@, length) == (
                unit_proved(r),
                final(self)@,
            ),
            countable(old(self)@) && r is Ok ==> countable(final(self)@),
    {
        let ghost objects = store.contents();
        let ghost decode = self@.limits.decode;
        proof {
            if blob_proved(objects, decode, root@, 0, length as int) {
                assert(blob_whole(objects, decode, root@));
                lemma_blob_opens(objects, decode, root@, 0, length as int);
            }
        }
        match self.prove_blob(store, root) {
            Ok(found) => {
                proof {
                    lemma_blob_opens(objects, decode, root@, 0, found as int);
                }
                if found != length {
                    Err(ClosureError::BlobLengthMismatch)
                } else {
                    Ok(())
                }
            },
            Err(error) => Err(error),
        }
    }

    /// Proves one metadata object, whose decoded form tells what it refers to. Without
    /// references it did not decode.
    ///
    /// Large trees share metadata objects, so one that has been asked for is not read
    /// again.
    pub fn prove_metadata<S: ObjectStore>(
        &mut self,
        store: &S,
        metadata: ObjectId,
        references: &Option<MetadataReferences>,
    ) -> (r: Result<(), ClosureError>)
        requires
            lengths_true(store.contents(), old(self)@),
        ensures
            follows(old(self)@, final(self)@),
            lengths_true(store.contents(), final(self)@),
            forall|other: ObjectView| #[trigger]
                final(self)@.objects.contains(other) && other.kind == ObjectKind::Metadata ==> other
                    == metadata@ || old(self)@.objects.contains(other),
            forall|other: ObjectView| #[trigger]
                final(self)@.objects.contains(other) && other.kind == ObjectKind::TreePage
                    ==> old(self)@.objects.contains(other),
            r is Ok ==> final(self)@.objects.contains(metadata@) && added_closed(
                store.contents(),
                old(self)@.limits.decode,
                old(self)@.objects,
                final(self)@.objects,
                Seq::empty(),
            ),
            metadata.kind != ObjectKind::Metadata ==> r == Err::<(), ClosureError>(
                ClosureError::WrongObjectKind,
            ) && final(self)@ == old(self)@,
            metadata.kind == ObjectKind::Metadata && old(self)@.objects.contains(metadata@) ==> r
                == Ok::<(), ClosureError>(()) && final(self)@ == old(self)@,
            r is Ok && !old(self)@.objects.contains(metadata@) ==> (store.contents())(
                metadata@,
            ) is Some && metadata_proved(
                store.contents(),
                old(self)@.limits.decode,
                *references,
            ) && references_asked(final(self)@.objects, *references),
            metadata.kind == ObjectKind::Metadata && metadata_kinds(*references)
                && metadata_proved(store.contents(), old(self)@.limits.decode, *references) ==> (
            r matches Err(error) ==> closure_resources(error)),
            countable(old(self)@) ==> metadata_walked(store, old(self)@, metadata@, *references)
                == (unit_proved(r), final(self)@),
            countable(old(self)@) && r is Ok ==> countable(final(self)@),
    {
        let ghost objects = store.contents();
        let ghost decode = self@.limits.decode;
        if metadata.kind != ObjectKind::Metadata {
            return Err(ClosureError::WrongObjectKind);
        }
        if self.has_object(&metadata) {
            return Ok(());
        }
        let ghost begun = self@;
        if let Err(error) = self.read_object(store, metadata, false) {
            return Err(error);
        }
        let found = match references {
            Some(found) => found,
            None => {
                return Err(
                    ClosureError::Decode(CanonicalDecodeError::Invariant("metadata".to_owned())),
                );
            },
        };
        assert(self@.objects =~= begun.objects.insert(metadata@));
        assert(added_closed(objects, decode, begun.objects, self@.objects, Seq::empty()));
        if let Some(attributes) = found.named_attributes {
            let ghost earlier = self@;
            if let Err(error) = self.prove_attributes(store, attributes) {
                return Err(error);
            }
            proof {
                lemma_closed_on(objects, decode, begun.objects, earlier.objects, self@.objects);
            }
        }
        if let Some(acl) = found.acl {
            let ghost earlier = self@;
            match self.prove_blob(store, acl) {
                Ok(length) => {
                    assert(blob_proved(objects, decode, acl@, 0, length as int));
                },
                Err(error) => {
                    return Err(error);
                },
            }
            proof {
                lemma_closed_on(objects, decode, begun.objects, earlier.objects, self@.objects);
            }
        }
        if let Some(descriptor) = found.security_descriptor {
            let ghost earlier = self@;
            match self.prove_blob(store, descriptor) {
                Ok(length) => {
                    assert(blob_proved(objects, decode, descriptor@, 0, length as int));
                },
                Err(error) => {
                    return Err(error);
                },
            }
            proof {
                lemma_closed_on(objects, decode, begun.objects, earlier.objects, self@.objects);
            }
        }
        Ok(())
    }

    /// Proves what one record refers to, unless it is a directory.
    pub fn prove_payload<S: ObjectStore>(&mut self, store: &S, record: &FileRecord) -> (r: Result<
        (),
        ClosureError,
    >)
        requires
            lengths_true(store.contents(), old(self)@),
        ensures
            follows(old(self)@, final(self)@),
            same_metadata(old(self)@, final(self)@),
            lengths_true(store.contents(), final(self)@),
            r is Ok && !(record@.payload is Directory) ==> payload_asked(
                final(self)@.objects,
                record@,
            ) && forall|trees: TreePages| #[trigger]
                payload_proved(store.contents(), old(self)@.limits, trees, record@),
            !(record@.payload is Regular || record@.payload is SymbolicLink
                || record@.payload is ReparsePoint) ==> r is Ok && final(self)@ == old(self)@,
            forall|trees: TreePages|
                payload_kinds(record@) && #[trigger] payload_proved(
                    store.contents(),
                    old(self)@.limits,
                    trees,
                    record@,
                ) ==> (r matches Err(error) ==> closure_resources(error)),
            r is Ok ==> added_closed(
                store.contents(),
                old(self)@.limits.decode,
                old(self)@.objects,
                final(self)@.objects,
                Seq::empty(),
            ),
            countable(old(self)@) ==> payload_walked(store, old(self)@, record@) == (
                unit_proved(r),
                final(self)@,
            ),
            countable(old(self)@) && r is Ok ==> countable(final(self)@),
    {
        match record.payload {
            FilePayload::Regular { logical_bytes, extents } => self.prove_extent_tree(
                store,
                extents,
                logical_bytes,
            ),
            FilePayload::SymbolicLink { target_bytes, target } => {
                self.prove_sized_blob(store, target, target_bytes)
            },
            FilePayload::ReparsePoint { payload_bytes, payload } => {
                self.prove_sized_blob(store, payload, payload_bytes)
            },
            _ => Ok(()),
        }
    }

    /// Proves every record and the namespace over them.
    ///
    /// The root has to be a directory among the records. Bindings come from the
    /// directory trees of the records, whose decoded pages are given.
    pub fn prove_records_and_namespace<S: ObjectStore>(
        &mut self,
        store: &S,
        root_file_id: FileId,
        records: &OrderedMap<FileId, FileRecord>,
        metadata: &OrderedMap<Digest, MetadataReferences>,
        trees: &OrderedMap<Digest, TreePage>,
        kinds: &Vec<FileKind>,
    ) -> (r: Result<(), ClosureError>)
        requires
            lengths_true(store.contents(), old(self)@),
            metadata_true(store.contents(), old(self)@, metadata@),
        ensures
            follows(old(self)@, final(self)@),
            lengths_true(store.contents(), final(self)@),
            !records@.dom().contains(root_file_id) ==> r == Err::<(), ClosureError>(
                ClosureError::MissingRootFile,
            ),
            records@.dom().contains(root_file_id) && !(records@[root_file_id].payload is Directory)
                ==> r == Err::<(), ClosureError>(ClosureError::RootIsNotDirectory),
            r is Ok ==> {
                &&& records_proved(
                    store.contents(),
                    old(self)@.limits,
                    kinds@,
                    metadata@,
                    trees@,
                    records@,
                    ascending::<FileId>(records@.dom()),
                    ascending::<FileId>(records@.dom()).len() as int,
                )
                &&& namespace_problem(root_file_id, records@, directories_of(trees@, records@))
                    is None
                &&& forall|id: FileId| #[trigger]
                    records@.dom().contains(id) ==> record_asked(
                        final(self)@.objects,
                        metadata@,
                        records@[id],
                    )
                &&& added_closed(
                    store.contents(),
                    old(self)@.limits.decode,
                    old(self)@.objects,
                    final(self)@.objects,
                    Seq::empty(),
                )
                &&& trees_closed(trees@, old(self)@.objects, final(self)@.objects, Seq::empty())
            },
            volume_sound(
                store.contents(),
                old(self)@.limits,
                root_file_id,
                kinds@,
                metadata@,
                trees@,
                records@,
            ) ==> match namespace_problem(root_file_id, records@, directories_of(trees@, records@)) {
                None => r matches Err(error) ==> closure_resources(error),
                Some(problem) => r matches Err(error) && (closure_resources(error) || error
                    == namespace_cause(problem)),
            },
            countable(old(self)@) ==> volume_walked(
                store,
                old(self)@,
                root_file_id,
                kinds@,
                metadata@,
                trees@,
                records@,
            ) == (unit_proved(r), final(self)@),
            countable(old(self)@) && r is Ok ==> countable(final(self)@),
    {
        let ghost can = countable(self@);
        let ghost objects = store.contents();
        let ghost begun = self@;
        let ghost limits = self@.limits;
        let root = match records.get(&root_file_id) {
            Some(root) => root,
            None => {
                return Err(ClosureError::MissingRootFile);
            },
        };
        let directory = match root.payload {
            FilePayload::Directory { .. } => true,
            _ => false,
        };
        if !directory {
            return Err(ClosureError::RootIsNotDirectory);
        }
        let ghost keys = ascending::<FileId>(records@.dom());
        let ghost sound = volume_sound(
                    objects,
                    limits,
                    root_file_id,
                    kinds@,
                    metadata@,
                    trees@,
                    records@,
                );
        let size = records.len();
        let mut directories: OrderedMap<FileId, DirectoryEntries> = OrderedMap::new();
        let ghost pages = trees@;
        let mut i: usize = 0;
        proof {
            assert(enumerates::<FileId>(keys, records@.dom()));
            assert(directories@ =~= directories_among(pages, records@, keys, 0));
        }
        while i < size
            invariant
                i <= size,
                size == keys.len(),
                keys == ascending::<FileId>(records@.dom()),
                can == countable(begun),
                can ==> countable(self@) && records_walked(
                    store,
                    begun,
                    kinds@,
                    metadata@,
                    pages,
                    records@,
                    keys,
                    0,
                ) == records_walked(
                    store,
                    self@,
                    kinds@,
                    metadata@,
                    pages,
                    records@,
                    keys,
                    i as int,
                ),
                objects == store.contents(),
                begun == old(self)@,
                limits == begun.limits,
                follows(begun, self@),
                lengths_true(objects, self@),
                metadata_true(objects, self@, metadata@),
                records@.dom().contains(root_file_id),
                records@[root_file_id].payload is Directory,
                records_proved(
                    objects,
                    limits,
                    kinds@,
                    metadata@,
                    pages,
                    records@,
                    keys,
                    i as int,
                ),
                sound == volume_sound(
                    objects,
                    limits,
                    root_file_id,
                    kinds@,
                    metadata@,
                    pages,
                    records@,
                ),
                pages == trees@,
                enumerates::<FileId>(keys, records@.dom()),
                directories@ == directories_among(pages, records@, keys, i as int),
                added_closed(
                    objects,
                    limits.decode,
                    begun.objects,
                    self@.objects,
                    Seq::empty(),
                ),
                trees_closed(pages, begun.objects, self@.objects, Seq::empty()),
                forall|j: int|
                    0 <= j < i ==> record_asked(
                        self@.objects,
                        metadata@,
                        records@[#[trigger] keys[j]],
                    ),
            decreases size - i,
        {
            let ghost earlier = self@;
            let record = records.value_at(i);
            assert(record@ == records@[keys[i as int]]);
            if !admits(record, kinds, self.limits()) {
                return Err(ClosureError::UnsupportedVolumeSemantics);
            }
            let references = listed_references(metadata, &record.metadata);
            if let Err(error) = self.prove_metadata(store, record.metadata, &references) {
                return Err(error);
            }
            let ghost described = self@;
            assert(metadata_true(objects, described, metadata@));
            match &record.payload {
                FilePayload::Directory { entries } => {
                    let found = match self.prove_tree(store, *entries, trees) {
                        Ok(found) => found,
                        Err(error) => {
                            return Err(error);
                        },
                    };
                    let id = *records.key_at(i);
                    directories.insert(id, DirectoryEntries { entries: found });
                },
                _ => {
                    if let Err(error) = self.prove_payload(store, record) {
                        return Err(error);
                    }
                },
            }
            proof {
                lemma_closed_on(
                    objects,
                    limits.decode,
                    begun.objects,
                    earlier.objects,
                    described.objects,
                );
                lemma_closed_on(
                    objects,
                    limits.decode,
                    begun.objects,
                    described.objects,
                    self@.objects,
                );
                lemma_trees_on(pages, begun.objects, earlier.objects, described.objects);
                lemma_trees_on(pages, begun.objects, described.objects, self@.objects);
                lemma_directories_next(pages, records@, keys, i as int);
                assert(directories@ =~= directories_among(pages, records@, keys, i + 1));
                assert(metadata_true(objects, self@, metadata@));
                assert forall|j: int| 0 <= j < i + 1 implies record_asked(
                    self@.objects,
                    metadata@,
                    records@[#[trigger] keys[j]],
                ) by {
                    if j < i {
                        assert(record_asked(earlier.objects, metadata@, records@[keys[j]]));
                    } else {
                        assert(described.objects.contains(record@.metadata));
                    }
                }
            }
            i = i + 1;
        }
        proof {
            assert(directories@ =~= directories_of(pages, records@)) by {
                lemma_directories_all(pages, records@, keys);
            }
            assert forall|id: FileId| #[trigger] records@.dom().contains(id) implies record_asked(
                self@.objects,
                metadata@,
                records@[id],
            ) by {
                assert(keys.contains(id));
                let j = keys.index_of(id);
                assert(record_asked(self@.objects, metadata@, records@[keys[j]]));
            }
        }
        match validate_namespace(root_file_id, records, &directories) {
            Ok(()) => Ok(()),
            Err(error) => Err(map_namespace(error)),
        }
    }

    /// Every object asked for, in canonical order.
    pub fn sorted_objects(&self) -> (r: Vec<ObjectId>)
        ensures
            objects_ordered(views(r@)),
            views(r@).to_set() == self@.objects,
            r@.len() == self@.objects.len(),
    {
        let list = self.listed_objects();
        let ghost given = views(list@);
        let sorted = sort_by_rank(list);
        proof {
            broadcast use vstd::seq_lib::group_to_multiset_ensures;

            let all = views(sorted@);
            given.lemma_no_dup_set_cardinality();
            assert forall|object: ObjectView| all.contains(object) == given.contains(object) by {
                assert(all.to_multiset().count(object) == given.to_multiset().count(object));
            }
            assert(all.to_set() =~= given.to_set());
            all.lemma_no_dup_set_cardinality();
            assert forall|i: int| 0 < i < all.len() implies #[trigger] super::export::object_follows(
                all,
                i,
            ) by {
                assert(!object_lt(all[i], all[i - 1]));
                assert(all[i] != all[i - 1]);
                lemma_object_total(all[i - 1], all[i]);
            }
        }
        sorted
    }
}

/// Two identities are equal, or one precedes the other.
proof fn lemma_object_total(a: ObjectView, b: ObjectView)
    ensures
        a == b || object_lt(a, b) || object_lt(b, a),
{
    lemma_bytes_lt_total(a.digest, b.digest);
    if kind_tag(a.kind) == kind_tag(b.kind) {
        kind_tags_differ(a.kind, b.kind);
    }
}

/// Whether a map holds exactly the records of a file table.
pub open spec fn tabled(
    objects: Objects,
    limits: DecodeLimits,
    table: ObjectView,
    records: Map<FileId, RecordView>,
) -> bool {
    &&& filed(records)
    &&& forall|record: RecordView| #[trigger]
        recorded(records, record) == in_table(objects, limits, table, record)
}

/// Only one map holds exactly the records of a file table.
proof fn lemma_tabled_once(
    objects: Objects,
    limits: DecodeLimits,
    table: ObjectView,
    a: Map<FileId, RecordView>,
    b: Map<FileId, RecordView>,
)
    requires
        tabled(objects, limits, table, a),
        tabled(objects, limits, table, b),
    ensures
        a == b,
{
    lemma_tabled_part(objects, limits, table, a, b);
    lemma_tabled_part(objects, limits, table, b, a);
    assert(a =~= b);
}

proof fn lemma_tabled_part(
    objects: Objects,
    limits: DecodeLimits,
    table: ObjectView,
    a: Map<FileId, RecordView>,
    b: Map<FileId, RecordView>,
)
    requires
        tabled(objects, limits, table, a),
        tabled(objects, limits, table, b),
    ensures
        forall|id: FileId| #[trigger]
            a.dom().contains(id) ==> b.dom().contains(id) && b[id] == a[id],
{
    assert forall|id: FileId| #[trigger] a.dom().contains(id) implies b.dom().contains(id) && b[id]
        == a[id] by {
        let record = a[id];
        assert(recorded(a, record));
        assert(recorded(b, record));
        let other = choose|other: FileId| #[trigger]
            b.dom().contains(other) && b[other] == record;
        assert(other.bytes@ == id.bytes@);
        FileId::order_bytes_injective(other, id);
    }
}

/// Whether a generation is sound: its file table is, the records in it make a sound
/// volume of no more files than admitted, and the namespace agrees with them.
pub open spec fn generation_sound(
    objects: Objects,
    limits: ClosureLimits,
    root: GenerationRoot,
    kinds: Seq<FileKind>,
    metadata: Metadata,
    trees: TreePages,
) -> bool {
    &&& table_proved(objects, limits.decode, root.file_table@, None, None)
    &&& exists|records: Map<FileId, RecordView>|
        {
            &&& #[trigger] tabled(objects, limits.decode, root.file_table@, records)
            &&& records.dom().len() <= limits.maximum_files
            &&& volume_sound(objects, limits, root.root_file_id, kinds, metadata, trees, records)
            &&& namespace_problem(root.root_file_id, records, directories_of(trees, records))
                is None
        }
}

/// Work of listing some objects.
pub open spec fn listing_work(count: u64) -> WorkCounters {
    let held = if count * OBJECT_LOGICAL_BYTES <= u64::MAX {
        (count * OBJECT_LOGICAL_BYTES) as u64
    } else {
        u64::MAX
    };
    WorkCounters {
        items_examined: count,
        bytes_copied: held,
        allocation_operations: if count != 0 {
            1
        } else {
            0
        },
        peak_allocation_bytes: held,
        ..no_work()
    }
}

/// How the proof of a generation ends: the state of the proof, how many files there are
/// and the work with the list of objects, or why it fails and the work then.
pub type GenerationEnd = Result<
    (ContextView, nat, WorkCounters),
    (ClosureErrorView, WorkCounters),
>;

/// A proof before anything was read.
pub open spec fn proof_begun(limits: ClosureLimits, budget: WorkBudget) -> ContextView {
    ContextView {
        limits,
        budget,
        work: no_work(),
        objects: Set::empty(),
        blob_lengths: Map::empty(),
    }
}

/// How a proof ends once every record was proved: the objects are listed within the budget.
pub open spec fn proof_listed(context: ContextView, files: nat) -> GenerationEnd {
    if context.objects.len() > context.limits.maximum_objects {
        Err(
            (
                ClosureErrorView::TooManyObjects {
                    observed: context.objects.len() as u64,
                    maximum: context.limits.maximum_objects,
                },
                context.work,
            ),
        )
    } else {
        match total(context.work, listing_work(context.objects.len() as u64)) {
            Err(error) => Err((ClosureErrorView::Work(error), context.work)),
            Ok(work) => if !within(work, context.budget) {
                Err((ClosureErrorView::Work(WorkError::Exceeded), work))
            } else {
                Ok((context, files, work))
            },
        }
    }
}

/// How the proof of a generation ends: its root object is read, its file table proved,
/// then every record and the namespace, and the objects are listed.
pub open spec fn generation_walked<S: ObjectStore>(
    store: &S,
    generation_root: ObjectView,
    root: GenerationRoot,
    metadata: Metadata,
    trees: TreePages,
    kinds: Seq<FileKind>,
    limits: ClosureLimits,
    budget: WorkBudget,
) -> GenerationEnd {
    if generation_root.kind != ObjectKind::GenerationRoot {
        Err((ClosureErrorView::WrongObjectKind, no_work()))
    } else {
        match read_proved(store, proof_begun(limits, budget), generation_root, false) {
            (Err(error), next) => Err((error, next.work)),
            (Ok(_), next) => match table_walked(store, next, root.file_table@) {
                (Err(error), next) => Err((error, next.work)),
                (Ok(list), next) => {
                    let records = records_of(list);
                    if records.dom().len() > limits.maximum_files {
                        Err(
                            (
                                ClosureErrorView::TooManyFiles {
                                    observed: records.dom().len() as u64,
                                    maximum: limits.maximum_files,
                                },
                                next.work,
                            ),
                        )
                    } else {
                        match volume_walked(
                            store,
                            next,
                            root.root_file_id,
                            kinds,
                            metadata,
                            trees,
                            records,
                        ) {
                            (Err(error), next) => Err((error, next.work)),
                            (Ok(_), next) => proof_listed(next, records.dom().len()),
                        }
                    }
                },
            },
        }
    }
}

/// Whether two roots are the same.
pub open spec fn same_root(a: GenerationRoot, b: GenerationRoot) -> bool {
    &&& a.volume_id == b.volume_id
    &&& a.root_file_id == b.root_file_id
    &&& a.file_table == b.file_table
    &&& a.parents@ == b.parents@
    &&& a.required_features == b.required_features
}

fn copy_root(root: &GenerationRoot) -> (r: GenerationRoot)
    ensures
        same_root(r, *root),
{
    let mut parents: Vec<GenerationId> = Vec::new();
    let mut i: usize = 0;
    while i < root.parents.len()
        invariant
            i <= root.parents@.len(),
            parents@ == root.parents@.take(i as int),
        decreases root.parents@.len() - i,
    {
        parents.push(root.parents[i]);
        assert(parents@ =~= root.parents@.take(i + 1));
        i = i + 1;
    }
    assert(root.parents@.take(i as int) =~= root.parents@);
    GenerationRoot {
        volume_id: root.volume_id,
        root_file_id: root.root_file_id,
        file_table: root.file_table,
        parents,
        required_features: root.required_features,
    }
}

/// Proves the complete immutable object closure and the namespace over it.
///
/// The root is the decoded form of the generation-root object. The metadata objects of
/// its records and the pages of its directory trees are given in decoded form too, by
/// digest; what is not among them did not decode. The objects of a proof are closed: what
/// the root, a record, its metadata or a page among them refers to is among them; and they
/// are the least such set, so each of them is reached from the root.
pub fn prove_generation_closure<S: ObjectStore>(
    store: &S,
    generation_root: ObjectId,
    root: &GenerationRoot,
    metadata: &OrderedMap<Digest, MetadataReferences>,
    trees: &OrderedMap<Digest, TreePage>,
    kinds: &Vec<FileKind>,
    limits: ClosureLimits,
    budget: WorkBudget,
) -> (r: Result<GenerationProof, GenerationProofFailure>)
    ensures
        generation_root.kind != ObjectKind::GenerationRoot ==> r is Err
            && r->Err_0.error is WrongObjectKind,
        r matches Ok(proof_of) ==> {
            &&& proof_of.generation_id.digest == generation_root.digest
            &&& proof_of.object_count == proof_of.objects@.len()
            &&& proof_of.object_count <= limits.maximum_objects
            &&& proof_of.file_count <= limits.maximum_files
            &&& within(proof_of.work, budget)
            &&& objects_ordered(views(proof_of.objects@))
            &&& same_root(proof_of.root, *root)
            &&& views(proof_of.objects@).to_set().contains(generation_root@)
            &&& views(proof_of.objects@).to_set().contains(root.file_table@)
            &&& closed(
                store.contents(),
                limits.decode,
                trees@,
                views(proof_of.objects@).to_set(),
            )
            &&& table_proved(store.contents(), limits.decode, root.file_table@, None, None)
            &&& exists|records: Map<FileId, RecordView>|
                {
                    &&& #[trigger] filed(records)
                    &&& records.dom().len() == proof_of.file_count
                    &&& forall|record: RecordView| #[trigger]
                        recorded(records, record) == in_table(
                            store.contents(),
                            limits.decode,
                            root.file_table@,
                            record,
                        )
                    &&& records_proved(
                        store.contents(),
                        limits,
                        kinds@,
                        metadata@,
                        trees@,
                        records,
                        ascending::<FileId>(records.dom()),
                        ascending::<FileId>(records.dom()).len() as int,
                    )
                    &&& namespace_problem(
                        root.root_file_id,
                        records,
                        directories_of(trees@, records),
                    ) is None
                    &&& forall|id: FileId| #[trigger]
                        records.dom().contains(id) ==> record_asked(
                            views(proof_of.objects@).to_set(),
                            metadata@,
                            records[id],
                        )
                }
        },
        limits.maximum_objects + 1 < usize::MAX / 4 ==> match generation_walked(
            store,
            generation_root@,
            *root,
            metadata@,
            trees@,
            kinds@,
            limits,
            budget,
        ) {
            Ok((context, files, work)) => r matches Ok(proof_of) && views(
                proof_of.objects@,
            ).to_set() == context.objects && proof_of.file_count == files && proof_of.work == work,
            Err((error, work)) => r matches Err(failure) && failure.error@ == error && failure.work
                == work,
        },
        limits.maximum_objects + 1 < usize::MAX / 4 ==> (r matches Ok(proof_of) ==> (forall|
            among: Set<ObjectView>,
        | #[trigger]
            generation_among(
                store.contents(),
                limits.decode,
                generation_root@,
                *root,
                metadata@,
                trees@,
                among,
            ) ==> views(proof_of.objects@).to_set().subset_of(among))),
        generation_root.kind == ObjectKind::GenerationRoot && root.file_table.kind
            == ObjectKind::FileTablePage && generation_sound(
            store.contents(),
            limits,
            *root,
            kinds@,
            metadata@,
            trees@,
        ) ==> (r matches Err(failure) ==> closure_resources(failure.error)),
{
    let ghost sound = generation_sound(
        store.contents(),
        limits,
        *root,
        kinds@,
        metadata@,
        trees@,
    );
    let mut context = ProofContext::new(limits, budget);
    assert(lengths_true(store.contents(), context@));
    assert(context@ == proof_begun(limits, budget));
    let ghost can = countable(context@);
    if generation_root.kind != ObjectKind::GenerationRoot {
        return Err(OperationFailure::new(ClosureError::WrongObjectKind, context.work()));
    }
    if let Err(error) = context.read_object(store, generation_root, false) {
        return Err(OperationFailure::new(error, context.work()));
    }
    let ghost first = context@;
    proof {
        assert(first.objects =~= Set::<ObjectView>::empty().insert(generation_root@));
        assert(added_closed(
            store.contents(),
            limits.decode,
            Set::empty(),
            first.objects,
            Seq::empty(),
        ));
        assert(trees_closed(trees@, Set::empty(), first.objects, Seq::empty()));
    }
    let records = match context.prove_file_table(store, root.file_table) {
        Ok(records) => records,
        Err(error) => {
            return Err(OperationFailure::new(error, context.work()));
        },
    };
    let file_count = records.len() as u64;
    proof {
        if can {
            lemma_records_of(table_walked(store, first, root.file_table@).0->Ok_0, records@);
        }
    }
    let ghost tabled_at = context@;
    proof {
        lemma_closed_on(
            store.contents(),
            limits.decode,
            Set::empty(),
            first.objects,
            tabled_at.objects,
        );
        lemma_trees_on(trees@, Set::empty(), first.objects, tabled_at.objects);
        if sound {
            let made = choose|made: Map<FileId, RecordView>|
                {
                    &&& #[trigger] tabled(
                        store.contents(),
                        limits.decode,
                        root.file_table@,
                        made,
                    )
                    &&& made.dom().len() <= limits.maximum_files
                    &&& volume_sound(
                        store.contents(),
                        limits,
                        root.root_file_id,
                        kinds@,
                        metadata@,
                        trees@,
                        made,
                    )
                    &&& namespace_problem(
                        root.root_file_id,
                        made,
                        directories_of(trees@, made),
                    ) is None
                };
            lemma_tabled_once(
                store.contents(),
                limits.decode,
                root.file_table@,
                made,
                records@,
            );
        }
    }
    if file_count > limits.maximum_files {
        return Err(
            OperationFailure::new(
                ClosureError::TooManyFiles { observed: file_count, maximum: limits.maximum_files },
                context.work(),
            ),
        );
    }
    if let Err(error) = context.prove_records_and_namespace(
        store,
        root.root_file_id,
        &records,
        metadata,
        trees,
        kinds,
    ) {
        return Err(OperationFailure::new(error, context.work()));
    }
    proof {
        lemma_closed_on(
            store.contents(),
            limits.decode,
            Set::empty(),
            tabled_at.objects,
            context@.objects,
        );
        lemma_trees_on(trees@, Set::empty(), tabled_at.objects, context@.objects);
    }
    let objects = context.sorted_objects();
    let object_count = objects.len() as u64;
    if object_count > limits.maximum_objects {
        return Err(
            OperationFailure::new(
                ClosureError::TooManyObjects {
                    observed: object_count,
                    maximum: limits.maximum_objects,
                },
                context.work(),
            ),
        );
    }
    let held = match object_count.checked_mul(OBJECT_LOGICAL_BYTES) {
        Some(held) => held,
        None => u64::MAX,
    };
    let mut counted = WorkCounters::of_items_examined(object_count);
    counted.bytes_copied = held;
    counted.allocation_operations =
    if object_count != 0 {
        1
    } else {
        0
    };
    counted.peak_allocation_bytes = held;
    assert(counted == listing_work(object_count));
    let work = match context.work().checked_add(counted) {
        Ok(work) => work,
        Err(error) => {
            return Err(OperationFailure::new(ClosureError::Work(error), context.work()));
        },
    };
    if let Err(error) = work.verify(budget) {
        return Err(OperationFailure::new(ClosureError::Work(error), work));
    }
    proof {
        assert(context@.objects.contains(generation_root@));
        assert(views(objects@).to_set().contains(generation_root@));
        assert(filed(records@));
        if can {
            let keys = ascending::<FileId>(records@.dom());
            assert forall|among: Set<ObjectView>| #[trigger]
                generation_among(
                    store.contents(),
                    limits.decode,
                    generation_root@,
                    *root,
                    metadata@,
                    trees@,
                    among,
                ) implies views(objects@).to_set().subset_of(among) by {
                let begun = proof_begun(limits, budget);
                lemma_read_among(store, begun, generation_root@, false, among);
                lemma_table_among(store, first, root.file_table@, among);
                assert forall|j: int| 0 <= j < keys.len() implies record_asked(
                    among,
                    metadata@,
                    records@[#[trigger] keys[j]],
                ) by {
                    assert(keys.to_set().contains(keys[j]));
                    assert(recorded(records@, records@[keys[j]]));
                }
                lemma_records_among(
                    store,
                    tabled_at,
                    kinds@,
                    metadata@,
                    trees@,
                    records@,
                    keys,
                    0,
                    among,
                );
            }
        }
    }
    Ok(
        GenerationProof {
            generation_id: GenerationId::new(generation_root.digest),
            root: copy_root(root),
            object_count,
            file_count,
            objects,
            work,
        },
    )
}

} // verus!
