//! What batches of extent mutations are for.

use super::codec::DecodeLimits;
use super::extent::ExtentKindView;
use super::extent_mutation::{mutation_request_refused, ExtentMutationError};
use super::extent_patch::{
    lemma_run_found, patched_at, replay_byte, replay_size, ByteView, ExtentMutationView, PatchView,
};
use super::patch_plan::{
    admitted, assign_items, compile_refused, compile_roomy, normalize_items, patch_items,
    plan_stands, raw_count, scratch_bytes, CompiledPatchPlan, PlanFailing,
};
use crate::order::views;
use crate::performance::{no_work, within, WorkBudget, WorkCounters};
use crate::storage::{ObjectId, ObjectKind};
use vstd::prelude::*;

verus! {

/// Whether sizes are those that a file has before, between and after the mutations of a
/// batch: a replacement makes the file reach its end and never shortens it, and a resize
/// sets the size.
pub open spec fn sizes_follow(
    old_size: u64,
    mutations: Seq<ExtentMutationView>,
    sizes: Seq<int>,
) -> bool {
    &&& sizes.len() == mutations.len() + 1
    &&& sizes[0] == old_size
    &&& forall|i: int|
        0 <= i < mutations.len() ==> match #[trigger] mutations[i] {
            ExtentMutationView::Replace { offset, length, .. } => {
                &&& sizes[i + 1] >= sizes[i]
                &&& sizes[i + 1] >= offset + length
                &&& sizes[i + 1] == sizes[i] || sizes[i + 1] == offset + length
            },
            ExtentMutationView::Resize { logical_bytes } => sizes[i + 1] == logical_bytes,
        }
}

/// Whether a mutation may be applied to a file of a given size: a replacement has bytes,
/// its range and the range of its content can be counted, its content is a blob, and it
/// stays within the file unless it may extend it, wherever it begins.
pub open spec fn may_apply(mutation: ExtentMutationView, size: int) -> bool {
    match mutation {
        ExtentMutationView::Replace { offset, length, kind, extend } => {
            &&& length > 0
            &&& offset + length <= u64::MAX
            &&& kind matches ExtentKindView::Content { object, object_offset } ==> object.kind
                == ObjectKind::Blob && object_offset + length <= u64::MAX
            &&& extend || offset + length <= size
        },
        ExtentMutationView::Resize { .. } => true,
    }
}

/// Whether a mutation replaces a byte.
pub open spec fn replaces(mutation: ExtentMutationView, x: int) -> bool {
    mutation matches ExtentMutationView::Replace { offset, length, .. } && offset <= x < offset
        + length
}

/// The size that a batch leaves is the last one of those that follow from it.
pub proof fn batches_leave_their_size(
    old_size: u64,
    mutations: Seq<ExtentMutationView>,
    sizes: Seq<int>,
    count: nat,
)
    requires
        sizes_follow(old_size, mutations, sizes),
        count <= mutations.len(),
    ensures
        replay_size(old_size, mutations, count) == sizes[count as int],
    decreases count,
{
    if count > 0 {
        batches_leave_their_size(old_size, mutations, sizes, (count - 1) as nat);
        let last = mutations[count - 1];
        assert(sizes[count - 1 + 1] == sizes[count as int]);
    }
}

/// A byte that a mutation replaces, and no later mutation replaces or cuts off, is the
/// replacement, at the same distance from its beginning.
pub proof fn the_last_write_is_kept(
    old: spec_fn(int) -> ByteView,
    old_size: u64,
    mutations: Seq<ExtentMutationView>,
    sizes: Seq<int>,
    at: int,
    x: int,
    count: nat,
)
    requires
        sizes_follow(old_size, mutations, sizes),
        0 <= at < count <= mutations.len(),
        replaces(mutations[at], x),
        forall|i: int| at < i < count ==> !replaces(#[trigger] mutations[i], x) && sizes[i] > x,
    ensures
        match mutations[at] {
            ExtentMutationView::Replace { offset, kind, .. } => replay_byte(
                old,
                old_size,
                mutations,
                count,
                x,
            ) == (match kind {
                ExtentKindView::Hole => ByteView::Hole,
                ExtentKindView::AllocatedZero => ByteView::Zero,
                ExtentKindView::Content { object, object_offset } => ByteView::Content(
                    object,
                    object_offset + (x - offset),
                ),
            }),
            ExtentMutationView::Resize { .. } => false,
        },
    decreases count,
{
    if at < count - 1 {
        the_last_write_is_kept(old, old_size, mutations, sizes, at, x, (count - 1) as nat);
        batches_leave_their_size(old_size, mutations, sizes, (count - 1) as nat);
        assert(!replaces(mutations[count - 1], x) && sizes[count - 1] > x);
    }
}

/// A byte that lies behind the end of the file at some point, and that no mutation
/// replaces from then on, is a hole, once there is such a byte.
pub proof fn new_bytes_are_holes(
    old: spec_fn(int) -> ByteView,
    old_size: u64,
    mutations: Seq<ExtentMutationView>,
    sizes: Seq<int>,
    at: int,
    x: int,
    count: nat,
)
    requires
        sizes_follow(old_size, mutations, sizes),
        0 <= at < count <= mutations.len(),
        sizes[at] <= x,
        forall|i: int| at <= i < count ==> !replaces(#[trigger] mutations[i], x),
    ensures
        replay_byte(old, old_size, mutations, count, x) == ByteView::Hole,
    decreases count,
{
    batches_leave_their_size(old_size, mutations, sizes, (count - 1) as nat);
    assert(!replaces(mutations[count - 1], x));
    if at < count - 1 {
        new_bytes_are_holes(old, old_size, mutations, sizes, at, x, (count - 1) as nat);
    }
}

/// A byte that no mutation replaces or cuts off stays what it was.
pub proof fn other_bytes_stay(
    old: spec_fn(int) -> ByteView,
    old_size: u64,
    mutations: Seq<ExtentMutationView>,
    sizes: Seq<int>,
    x: int,
    count: nat,
)
    requires
        sizes_follow(old_size, mutations, sizes),
        count <= mutations.len(),
        forall|i: int| 0 <= i < count ==> !replaces(#[trigger] mutations[i], x) && sizes[i] > x,
    ensures
        replay_byte(old, old_size, mutations, count, x) == old(x),
    decreases count,
{
    if count > 0 {
        other_bytes_stay(old, old_size, mutations, sizes, x, (count - 1) as nat);
        batches_leave_their_size(old_size, mutations, sizes, (count - 1) as nat);
        assert(!replaces(mutations[count - 1], x) && sizes[count - 1] > x);
    }
}

proof fn lemma_admitted(
    old_size: u64,
    mutations: Seq<ExtentMutationView>,
    sizes: Seq<int>,
    budget: WorkBudget,
    count: nat,
)
    requires
        sizes_follow(old_size, mutations, sizes),
        count <= mutations.len(),
        2 * mutations.len() <= usize::MAX,
        forall|i: int| 0 <= i < count ==> may_apply(#[trigger] mutations[i], sizes[i]),
        forall|work: WorkCounters| #[trigger] within(work, budget),
    ensures
        admitted(old_size, mutations, count, budget) == Ok::<WorkCounters, PlanFailing>(
            WorkCounters { items_examined: count as u64, ..no_work() },
        ),
        raw_count(old_size, mutations, count) <= 2 * count,
    decreases count,
{
    if count > 0 {
        lemma_admitted(old_size, mutations, sizes, budget, (count - 1) as nat);
        batches_leave_their_size(old_size, mutations, sizes, (count - 1) as nat);
        assert(may_apply(mutations[count - 1], sizes[count - 1]));
    }
}

/// A batch all of whose mutations may be applied is compiled under a budget without
/// bounds. In particular a write that may extend the file is never refused for where it
/// begins.
pub proof fn batches_that_fit_are_compiled(
    old_size: u64,
    mutations: Seq<ExtentMutationView>,
    sizes: Seq<int>,
    budget: WorkBudget,
)
    requires
        sizes_follow(old_size, mutations, sizes),
        forall|i: int| 0 <= i < mutations.len() ==> may_apply(#[trigger] mutations[i], sizes[i]),
        forall|work: WorkCounters| #[trigger] within(work, budget),
        mutations.len() <= 0x4_0000,
        256 * mutations.len() <= usize::MAX,
    ensures
        compile_refused(old_size, mutations, budget) is None,
        compile_roomy(
            mutations.len() as int,
            raw_count(old_size, mutations, mutations.len()),
            budget,
        ),
{
    lemma_admitted(old_size, mutations, sizes, budget, mutations.len());
    let raw = raw_count(old_size, mutations, mutations.len()) as int;
    let full = WorkCounters {
        items_examined: u64::MAX,
        bytes_copied: u64::MAX,
        allocation_operations: u64::MAX,
        peak_allocation_bytes: u64::MAX,
        ..no_work()
    };
    assert(within(full, budget));
    assert(within(no_work(), budget));
    let each = patch_items(2 * raw);
    assert(raw * raw <= 0x8_0000 * 0x8_0000) by (nonlinear_arith)
        requires
            0 <= raw <= 0x8_0000,
    ;
    assert(each <= 0x400_0000_0000) by (nonlinear_arith)
        requires
            0 <= raw <= 0x8_0000,
            raw * raw <= 0x8_0000 * 0x8_0000,
            each == 1 + 4 * (2 * raw) + (2 * raw) * (1 + 2 * (2 * raw)),
    ;
    assert(raw * each <= 0x8_0000 * 0x400_0000_0000) by (nonlinear_arith)
        requires
            0 <= raw <= 0x8_0000,
            each <= 0x400_0000_0000,
    ;
    assert(assign_items(raw, 2 * raw) == 2 * (2 * raw) + raw * each);
    assert(normalize_items(raw) <= 0x2000_0000_0000_0000 + 64 * raw);
    assert(scratch_bytes(raw as nat) <= 512 * raw);
}

/// A batch whose first mutation that may not be applied is at an index is refused for
/// that mutation: for an empty range, for content that is no blob, for a range that
/// cannot be counted, and otherwise because it lies behind the end of a file that it may
/// not extend.
pub proof fn the_first_misfit_is_reported(
    old_size: u64,
    mutations: Seq<ExtentMutationView>,
    sizes: Seq<int>,
    budget: WorkBudget,
    at: nat,
    upto: nat,
)
    requires
        sizes_follow(old_size, mutations, sizes),
        at < upto <= mutations.len(),
        forall|i: int| 0 <= i < at ==> may_apply(#[trigger] mutations[i], sizes[i]),
        !may_apply(mutations[at as int], sizes[at as int]),
        forall|work: WorkCounters| #[trigger] within(work, budget),
        2 * mutations.len() <= usize::MAX,
    ensures
        ({
            let work = WorkCounters { items_examined: (at + 1) as u64, ..no_work() };
            let error = match mutations[at as int] {
                ExtentMutationView::Replace { offset, length, kind, extend } => if length == 0 {
                    ExtentMutationError::EmptyRange
                } else if kind matches ExtentKindView::Content { object, .. } && object.kind
                    != ObjectKind::Blob {
                    ExtentMutationError::WrongContentKind
                } else if offset + length > u64::MAX || (
                kind matches ExtentKindView::Content { object_offset, .. } && object_offset
                    + length > u64::MAX) {
                    ExtentMutationError::RangeOverflow
                } else {
                    ExtentMutationError::OutsideFile
                },
                ExtentMutationView::Resize { .. } => ExtentMutationError::PatchInvariant,
            };
            &&& admitted(old_size, mutations, upto, budget) == Err::<WorkCounters, PlanFailing>((error, work))
            &&& upto == mutations.len() ==> compile_refused(old_size, mutations, budget) == Some(
                (error, work),
            )
        }),
    decreases upto,
{
    if at + 1 < upto {
        the_first_misfit_is_reported(old_size, mutations, sizes, budget, at, (upto - 1) as nat);
    } else {
        lemma_admitted(old_size, mutations, sizes, budget, at);
        batches_leave_their_size(old_size, mutations, sizes, at);
    }
}

/// Under any budget, a batch is refused as outside the file only where a mutation may not
/// extend the file and ends behind it.
pub proof fn only_misfits_are_outside(
    old_size: u64,
    mutations: Seq<ExtentMutationView>,
    sizes: Seq<int>,
    budget: WorkBudget,
    count: nat,
)
    requires
        sizes_follow(old_size, mutations, sizes),
        count <= mutations.len(),
    ensures
        admitted(old_size, mutations, count, budget) matches Err(failing) ==> failing.0
            == ExtentMutationError::OutsideFile ==> exists|i: int|
            0 <= i < count && (#[trigger] mutations[i] matches ExtentMutationView::Replace {
                offset,
                length,
                extend,
                ..
            } && !extend && offset + length > sizes[i]),
    decreases count,
{
    if count > 0 {
        only_misfits_are_outside(old_size, mutations, sizes, budget, (count - 1) as nat);
        batches_leave_their_size(old_size, mutations, sizes, (count - 1) as nat);
        if admitted(old_size, mutations, (count - 1) as nat, budget) is Ok {
            let last = mutations[count - 1];
        }
    }
}

/// What a compiled plan says of a byte: where a patch holds it, the patch says what it
/// is, and no other patch does; elsewhere the byte stays. Its size and patches are those
/// of the batch.
pub proof fn plans_say_what_batches_do(
    plan: CompiledPatchPlan,
    old: spec_fn(int) -> ByteView,
    old_size: u64,
    mutations: Seq<ExtentMutationView>,
    sizes: Seq<int>,
    x: int,
)
    requires
        plan_stands(plan, old_size, mutations),
        sizes_follow(old_size, mutations, sizes),
        0 <= x < plan.final_size,
    ensures
        plan.final_size == sizes.last(),
        forall|i: int|
            0 <= i < plan.patches@.len() ==> (#[trigger] views(plan.patches@)[i]).offset
                < views(plan.patches@)[i].end <= plan.final_size,
        forall|i: int|
            0 <= i < plan.patches@.len() && (#[trigger] views(plan.patches@)[i]).offset <= x
                < views(plan.patches@)[i].end ==> ({
                let patch = views(plan.patches@)[i];
                replay_byte(old, old_size, mutations, mutations.len(), x) == (match patch.kind {
                    ExtentKindView::Hole => ByteView::Hole,
                    ExtentKindView::AllocatedZero => ByteView::Zero,
                    ExtentKindView::Content { object, object_offset } => ByteView::Content(
                        object,
                        object_offset + (x - patch.offset),
                    ),
                })
            }),
        (forall|i: int|
            0 <= i < plan.patches@.len() ==> !((#[trigger] views(plan.patches@)[i]).offset <= x
                < views(plan.patches@)[i].end)) ==> x < old_size && replay_byte(
            old,
            old_size,
            mutations,
            mutations.len(),
            x,
        ) == old(x),
{
    let patches = views(plan.patches@);
    batches_leave_their_size(old_size, mutations, sizes, mutations.len());
    let byte = replay_byte(old, old_size, mutations, mutations.len(), x);
    if patched_at(patches, x) is Some {
        let at = lemma_run_found(patches, x, patches.len());
        assert forall|i: int|
            0 <= i < patches.len() && (#[trigger] patches[i]).offset <= x
                < patches[i].end implies i == at by {
            if i < at {
                assert(patches[i].end <= patches[at].offset);
            }
            if at < i {
                assert(patches[at].end <= patches[i].offset);
            }
        }
    } else {
        assert forall|i: int| 0 <= i < patches.len() implies !((#[trigger] patches[i]).offset <= x
            < patches[i].end) by {
            if patches[i].offset <= x < patches[i].end {
                lemma_held(patches, x, i, patches.len());
            }
        }
    }
}

proof fn lemma_held(runs: Seq<PatchView>, x: int, at: int, count: nat)
    requires
        0 <= at < count <= runs.len(),
        runs[at].offset <= x < runs[at].end,
    ensures
        super::extent_patch::run_at(runs, x, count) is Some,
    decreases count,
{
    if at < count - 1 {
        lemma_held(runs, x, at, (count - 1) as nat);
    }
}

/// A request for one mutation or more on an extent page, with no more of them than
/// admitted and limits that admit pages of two items, is looked at; any other is refused,
/// for the first of these that fails.
pub proof fn requests_in_bounds_are_taken(
    root: ObjectId,
    mutations: nat,
    maximum_mutations: u32,
    limits: DecodeLimits,
)
    ensures
        root.kind == ObjectKind::ExtentPage && 0 < mutations <= maximum_mutations
            && limits.admits_pages(2) ==> mutation_request_refused(
            root,
            mutations,
            maximum_mutations,
            limits,
        ) is None,
        root.kind != ObjectKind::ExtentPage ==> mutation_request_refused(
            root,
            mutations,
            maximum_mutations,
            limits,
        ) == Some(ExtentMutationError::WrongRootKind),
        root.kind == ObjectKind::ExtentPage && mutations == 0 ==> mutation_request_refused(
            root,
            mutations,
            maximum_mutations,
            limits,
        ) == Some(ExtentMutationError::Empty),
        root.kind == ObjectKind::ExtentPage && mutations > maximum_mutations && mutations > 0
            ==> mutation_request_refused(root, mutations, maximum_mutations, limits) == Some(
            ExtentMutationError::TooManyMutations,
        ),
{
}

} // verus!
