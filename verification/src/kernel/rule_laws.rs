//! What single rules of the kernel say.

use super::attribute::{name_lt, AttributeClass, AttributeEntryView, AttributeNameView};
use super::attribute_mutation::{
    batch_mistake, mutated, mutation_problem, AttributeMutation, AttributeMutationView,
    AttributeSemanticError,
};
use super::checkpoint::{
    checkpoint_refused, merge_refused, CheckpointError, CheckpointRequest, GenerationRoot,
};
use super::closure::ClosureLimits;
use super::closure_tree::logical_lt;
use super::codec::DecodeLimits;
use super::export::{manifest_problem, object_follows, objects_ordered, ManifestView};
use super::extent::ExtentView;
use super::extent_clone::ExtentPlan;
use super::extent_mutation::{children_fit_page, extents_fit_page};
use super::extent_patch::{byte_at, ByteView};
use super::extent_rewrite::{internal_end, leaf_end};
use super::file_read::{
    file_outcome, position_reads_as, range_reads_as, FileRangeErrorView, FileRangeRequest,
};
use super::file_table::{PayloadView, RecordView};
use super::generation_proof::record_admitted;
use super::name::{FileKind, NameEncoding, NameView};
use crate::order::bytes_lt;
use crate::performance::{within, WorkCounters};
use crate::storage::{
    kind_tag, kind_tags_differ, object_preimage, ByteRange, ImmediateObjectStore, ObjectKind,
    ObjectView, Objects,
};
use vstd::prelude::*;

verus! {

/// A record is admitted exactly where its kind is offered, a symbolic link only where they
/// are, and one of more than one link only where hard links are.
pub proof fn records_are_admitted_by_kind(
    record: RecordView,
    kinds: Seq<FileKind>,
    limits: ClosureLimits,
)
    ensures
        record_admitted(record, kinds, limits) == ((exists|i: int|
            0 <= i < kinds.len() && #[trigger] kinds[i] == record.kind) && (record.kind
            != FileKind::SymbolicLink || limits.symbolic_links) && (record.link_count <= 1
            || limits.hard_links)),
{
    if kinds.contains(record.kind) {
        let i = kinds.index_of(record.kind);
        assert(kinds[i] == record.kind);
    }
}

/// An entry is put only where there is none; it is removed where there is one, and it is
/// the one expected if one is; and it is replaced where it is the one expected. Anything
/// else is refused, as already there, missing, or in conflict.
pub proof fn mutations_expect_the_state(
    entry: AttributeEntryView,
    other: AttributeEntryView,
    current: AttributeEntryView,
)
    ensures
        ({
            let put = AttributeMutationView::Insert(entry);
            let drop_any = AttributeMutationView::Remove { name: entry.name, expected: None };
            let drop_one = AttributeMutationView::Remove {
                name: entry.name,
                expected: Some(entry),
            };
            let swap = AttributeMutationView::Replace { expected: entry, replacement: other };
            &&& mutated(put, None) == Ok::<_, AttributeSemanticError>(Some(entry))
            &&& mutated(put, Some(current)) == Err::<Option<AttributeEntryView>, _>(
                AttributeSemanticError::AlreadyExists,
            )
            &&& mutated(drop_any, Some(current)) == Ok::<_, AttributeSemanticError>(
                None::<AttributeEntryView>,
            )
            &&& mutated(drop_any, None) == Err::<Option<AttributeEntryView>, _>(
                AttributeSemanticError::Missing,
            )
            &&& mutated(drop_one, None) == Err::<Option<AttributeEntryView>, _>(
                AttributeSemanticError::Missing,
            )
            &&& mutated(drop_one, Some(current)) == (if current == entry {
                Ok(None::<AttributeEntryView>)
            } else {
                Err(AttributeSemanticError::StateConflict)
            })
            &&& mutated(swap, None) == Err::<Option<AttributeEntryView>, _>(
                AttributeSemanticError::Missing,
            )
            &&& mutated(swap, Some(current)) == (if current == entry {
                Ok(Some(other))
            } else {
                Err(AttributeSemanticError::StateConflict)
            })
        }),
{
}

/// A mutation is well formed where the values of its entries are blobs, and their names
/// those that it concerns; the first of a batch that is not refuses the batch.
pub proof fn malformed_mutations_refuse_a_batch(
    mutations: Seq<AttributeMutation>,
    mutation: AttributeMutationView,
    at: int,
    from: int,
)
    requires
        0 <= from <= at <= mutations.len(),
        forall|i: int| from <= i < at ==> mutation_problem((#[trigger] mutations[i])@) is None,
    ensures
        (mutation_problem(mutation) is None) == (match mutation {
            AttributeMutationView::Insert(entry) => entry.value.kind == ObjectKind::Blob,
            AttributeMutationView::Remove { name, expected } => match expected {
                Some(entry) => entry.value.kind == ObjectKind::Blob && entry.name == name,
                None => true,
            },
            AttributeMutationView::Replace { expected, replacement } => expected.value.kind
                == ObjectKind::Blob && replacement.value.kind == ObjectKind::Blob && expected.name
                == replacement.name,
        }),
        at == mutations.len() ==> batch_mistake(mutations, from) is None,
        at < mutations.len() && mutation_problem(mutations[at]@) is Some ==> batch_mistake(
            mutations,
            from,
        ) == mutation_problem(mutations[at]@),
    decreases at - from,
{
    if from < at {
        assert(mutation_problem(mutations[from]@) is None);
        malformed_mutations_refuse_a_batch(mutations, mutation, at, from + 1);
    }
}

/// A checkpoint is taken up where its base and the generation it merges are generation
/// roots, its table is a file table, and it does not merge its base; two generations are
/// merged where they are of one volume and one root.
pub proof fn checkpoints_continue_generations(
    request: CheckpointRequest,
    base: GenerationRoot,
    parent: GenerationRoot,
)
    ensures
        ({
            let base_is = request.base.kind == ObjectKind::GenerationRoot;
            let parent_is = request.merge_parent matches Some(other) ==> other.kind
                == ObjectKind::GenerationRoot;
            let table_is = request.file_table.kind == ObjectKind::FileTablePage;
            let repeats = request.merge_parent matches Some(other) && other@ == request.base@;
            &&& (checkpoint_refused(request) is None) == (base_is && parent_is && table_is
                && !repeats)
            &&& !(base_is && parent_is) ==> checkpoint_refused(request) == Some(
                CheckpointError::WrongGenerationKind,
            )
            &&& base_is && parent_is && !table_is ==> checkpoint_refused(request) == Some(
                CheckpointError::WrongFileTableKind,
            )
            &&& base_is && parent_is && table_is && repeats ==> checkpoint_refused(request) == Some(
                CheckpointError::DuplicateParent,
            )
        }),
        (merge_refused(base, parent) is None) == (base.volume_id == parent.volume_id
            && base.root_file_id == parent.root_file_id),
        base.volume_id != parent.volume_id ==> merge_refused(base, parent) == Some(
            CheckpointError::CrossVolumeMerge,
        ),
        base.volume_id == parent.volume_id && base.root_file_id != parent.root_file_id
            ==> merge_refused(base, parent) == Some(CheckpointError::RootIdentityMismatch),
{
}

/// Whether an object comes before the next: by class, and within a class by digest.
pub open spec fn in_turn(objects: Seq<ObjectView>, i: int) -> bool {
    let (a, b) = (objects[i], objects[i + 1]);
    kind_tag(a.kind) < kind_tag(b.kind) || a.kind == b.kind && bytes_lt(a.digest, b.digest)
}

/// Whether every object comes before the next.
pub open spec fn stand_in_order(objects: Seq<ObjectView>) -> bool {
    forall|i: int| 0 <= i < objects.len() - 1 ==> #[trigger] in_turn(objects, i)
}

proof fn lemma_in_order(objects: Seq<ObjectView>)
    ensures
        objects_ordered(objects) == stand_in_order(objects),
{
    assert forall|i: int| 0 <= i < objects.len() - 1 implies #[trigger] in_turn(objects, i)
        == object_follows(objects, i + 1) by {
        if kind_tag(objects[i].kind) == kind_tag(objects[i + 1].kind) {
            kind_tags_differ(objects[i].kind, objects[i + 1].kind);
        }
    }
    if stand_in_order(objects) {
        assert forall|i: int| 0 < i < objects.len() implies #[trigger] object_follows(
            objects,
            i,
        ) by {
            assert(in_turn(objects, i - 1));
        }
    }
}

/// A manifest is accepted exactly where its volume admits something, it names its root by
/// the root's digest, it lists the root, its files and objects are no more than admitted,
/// and its objects stand in order.
pub proof fn manifests_are_accepted_in_order(manifest: ManifestView, maximum_objects: u64)
    ensures
        (manifest_problem(manifest, maximum_objects) is None) == ({
            let limits = manifest.config.limits;
            &&& limits.maximum_objects_per_generation > 0 && limits.maximum_files_per_generation
                > 0
            &&& manifest.generation_root.kind == ObjectKind::GenerationRoot
            &&& manifest.generation_id == manifest.generation_root.digest
            &&& manifest.file_count <= limits.maximum_files_per_generation
            &&& manifest.objects.len() <= maximum_objects && manifest.objects.len()
                <= limits.maximum_objects_per_generation
            &&& manifest.objects.contains(manifest.generation_root)
            &&& stand_in_order(manifest.objects)
        }),
{
    lemma_in_order(manifest.objects);
}

/// The bytes that name an object tell its class and its contents.
pub proof fn object_names_cover_class_and_contents(
    a: ObjectKind,
    b: ObjectKind,
    x: Seq<u8>,
    y: Seq<u8>,
)
    ensures
        (object_preimage(a, x) == object_preimage(b, y)) == (a == b && x == y),
{
    let left = object_preimage(a, x);
    let right = object_preimage(b, y);
    if left == right {
        assert(left[0] == kind_tag(a) && right[0] == kind_tag(b));
        kind_tags_differ(a, b);
        assert(left.skip(1) =~= x);
        assert(right.skip(1) =~= y);
    }
}

/// A page of extents takes as many as fit it, and a page of trees too.
pub proof fn pages_are_filled(
    extents: Seq<ExtentView>,
    count: int,
    start: int,
    from: int,
    limits: DecodeLimits,
)
    requires
        0 <= start <= from,
        from <= extents.len(),
        from <= count,
    ensures
        ({
            let end = leaf_end(extents, start, from, limits);
            &&& from <= end <= extents.len()
            &&& end < extents.len() ==> !extents_fit_page(extents, start, end + 1, limits)
            &&& forall|to: int|
                from < to <= end ==> #[trigger] extents_fit_page(extents, start, to, limits)
        }),
        ({
            let end = internal_end(count, start, from, limits);
            &&& from <= end <= count
            &&& end < count ==> !children_fit_page(end + 1 - start, limits)
            &&& from < end ==> children_fit_page(end - start, limits)
        }),
    decreases extents.len() - from, count - from,
{
    if from < extents.len() && from < count {
        pages_are_filled(extents, count, start, from + 1, limits);
    } else if from < extents.len() {
        lemma_leaf_filled(extents, start, from, limits);
    } else if from < count {
        lemma_internal_filled(count, start, from, limits);
    }
}

proof fn lemma_leaf_filled(extents: Seq<ExtentView>, start: int, from: int, limits: DecodeLimits)
    requires
        0 <= start <= from <= extents.len(),
    ensures
        ({
            let end = leaf_end(extents, start, from, limits);
            &&& from <= end <= extents.len()
            &&& end < extents.len() ==> !extents_fit_page(extents, start, end + 1, limits)
            &&& forall|to: int|
                from < to <= end ==> #[trigger] extents_fit_page(extents, start, to, limits)
        }),
    decreases extents.len() - from,
{
    if from < extents.len() {
        lemma_leaf_filled(extents, start, from + 1, limits);
    }
}

proof fn lemma_internal_filled(count: int, start: int, from: int, limits: DecodeLimits)
    requires
        0 <= start <= from <= count,
    ensures
        ({
            let end = internal_end(count, start, from, limits);
            &&& from <= end <= count
            &&& end < count ==> !children_fit_page(end + 1 - start, limits)
            &&& from < end ==> children_fit_page(end - start, limits)
        }),
    decreases count - from,
{
    if from < count {
        lemma_internal_filled(count, start, from + 1, limits);
    }
}

/// Bytes of a range that no content covers read as zero.
pub proof fn uncovered_bytes_read_as_zero(
    objects: Objects,
    limits: DecodeLimits,
    spans: Seq<ExtentView>,
    range: ByteRange,
    bytes: Seq<u8>,
    i: int,
)
    requires
        range_reads_as(objects, limits, spans, range, bytes),
        0 <= i < bytes.len(),
        byte_at(spans, range.offset + i) == Some(ByteView::Hole) || byte_at(spans, range.offset + i)
            == Some(ByteView::Zero),
    ensures
        bytes[i] == 0,
{
    assert(position_reads_as(objects, limits, spans, range.offset + i, bytes[i]));
}

/// A file that is held in its record reads as its bytes at the range asked for, where the
/// range lies within them; one that is not regular is refused.
pub proof fn inline_files_read_as_their_bytes<S: ImmediateObjectStore>(
    store: &S,
    request: FileRangeRequest,
    plan: ExtentPlan,
    bytes: Seq<u8>,
)
    requires
        request.record@.payload == PayloadView::InlineRegular(bytes),
        forall|work: WorkCounters| #[trigger] within(work, request.budget),
    ensures
        request.record.kind != FileKind::Regular ==> (file_outcome(store, request, plan) matches Err(
            failing,
        ) && failing.0 == FileRangeErrorView::NotRegular),
        request.record.kind == FileKind::Regular && request.range.offset + request.range.length
            > bytes.len() ==> (file_outcome(store, request, plan) matches Err(failing) && failing.0
            == FileRangeErrorView::InvalidRange),
        request.record.kind == FileKind::Regular && request.range.offset + request.range.length
            <= bytes.len() ==> (file_outcome(store, request, plan) matches Ok((read, _))
            && read.len() == request.range.length && forall|i: int|
            0 <= i < read.len() ==> #[trigger] read[i] == bytes[request.range.offset + i]),
{
}

/// Attributes are ordered by class, extended ones first and resource forks last, and within
/// a class by their bytes; names by encoding, portable ones first and those of wide
/// characters last, and within an encoding by their bytes.
pub proof fn names_are_ordered_by_class_and_bytes(
    a: AttributeNameView,
    b: AttributeNameView,
    x: NameView,
    y: NameView,
)
    ensures
        a.class == b.class ==> name_lt(a, b) == bytes_lt(a.bytes, b.bytes),
        a.class == AttributeClass::PosixXattr && b.class != AttributeClass::PosixXattr ==> name_lt(
            a,
            b,
        ) && !name_lt(b, a),
        a.class == AttributeClass::WindowsStream && b.class == AttributeClass::MacResourceFork
            ==> name_lt(a, b) && !name_lt(b, a),
        x.encoding == y.encoding ==> logical_lt(x, y) == bytes_lt(x.bytes, y.bytes),
        x.encoding == NameEncoding::Utf8 && y.encoding != NameEncoding::Utf8 ==> logical_lt(x, y)
            && !logical_lt(y, x),
        x.encoding == NameEncoding::PosixBytes && y.encoding == NameEncoding::WindowsUtf16Le
            ==> logical_lt(x, y) && !logical_lt(y, x),
{
}

} // verus!
