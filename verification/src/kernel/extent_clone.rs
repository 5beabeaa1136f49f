//! Zero-copy logical range clone over immutable sparse extents.

use super::codec::DecodeLimits;
use super::extent::{
    extent_adjoins, extent_end_of, extent_fits, extents_ordered, Extent, ExtentView,
};
use super::extent_mutation::{
    apply_extent_mutations, mutation_end, mutation_ends, replayed, ExtentMutationError, MutationEnd,
};
use super::extent_patch::{
    byte_at, replay_byte, replay_size, ByteView, ExtentMutation, ExtentMutationView,
};
use super::extent_tree::{told, Bytes};
use crate::order::views;
use crate::performance::{
    added, larger, left_over, no_work, total, within, OperationFailure, WorkBudget,
    WorkCounters, WorkError,
};
use crate::storage::{extends, logged, ByteRange, ObjectId, ObjectKind, ObjectStore};
use vstd::prelude::*;

verus! {

/// Logical bytes of one mutation.
pub const MUTATION_LOGICAL_BYTES: u64 = 72;

/// Candidate destination extent root and exact clone work.
#[derive(Clone, Copy, Debug, PartialEq, Eq)]
pub struct ExtentCloneReceipt {
    /// Candidate immutable destination extent root.
    pub root: ObjectId,
    /// Destination logical size after extension, if any.
    pub logical_bytes: u64,
    /// Exact source planning, interval compilation, and destination path-copy work.
    pub work: WorkCounters,
}

/// Complete bounded source and destination range-clone request.
#[derive(Clone, Copy, Debug, PartialEq, Eq)]
pub struct ExtentCloneRequest {
    /// Authenticated source extent root.
    pub source_root: ObjectId,
    /// Exact source logical file size.
    pub source_logical_bytes: u64,
    /// Non-empty source range.
    pub source_range: ByteRange,
    /// Authenticated destination extent root.
    pub destination_root: ObjectId,
    /// Exact destination logical file size before clone.
    pub destination_logical_bytes: u64,
    /// Inclusive destination start offset.
    pub destination_offset: u64,
    /// Maximum source sparse spans admitted in the clone plan.
    pub maximum_spans: u32,
    /// Maximum destination interval mutations admitted.
    pub maximum_mutations: u32,
}

/// Sparse range-clone failures.
#[derive(Debug, PartialEq, Eq)]
pub enum ExtentCloneError {
    /// Source or destination is not an extent-page object.
    WrongRootKind,
    /// Clone length must be positive.
    EmptyRange,
    /// Source or destination range arithmetic overflowed.
    RangeOverflow,
    /// Span/mutation limits cannot admit the operation.
    InvalidLimits,
    /// The admitted clone-plan scratch allocation was unavailable.
    AllocationFailed,
    /// Destination sparse mutation failed.
    Destination(ExtentMutationError),
    /// Exact work exceeded or overflowed its budget.
    Work(WorkError),
}

/// Range clone failure retaining all completed work and safe orphan writes.
pub type ExtentCloneFailure = OperationFailure<ExtentCloneError>;

/// Why a request is refused before any object is read.
pub open spec fn clone_refused(request: ExtentCloneRequest, limits: DecodeLimits) -> Option<
    ExtentCloneError,
> {
    if request.source_root.kind != ObjectKind::ExtentPage || request.destination_root.kind
        != ObjectKind::ExtentPage {
        Some(ExtentCloneError::WrongRootKind)
    } else if request.source_range.length == 0 {
        Some(ExtentCloneError::EmptyRange)
    } else if request.source_range.offset + request.source_range.length > u64::MAX
        || request.destination_offset + request.source_range.length > u64::MAX {
        Some(ExtentCloneError::RangeOverflow)
    } else if request.maximum_spans == 0 || request.maximum_mutations < request.maximum_spans
        || !limits.admits_pages(2) {
        Some(ExtentCloneError::InvalidLimits)
    } else {
        None
    }
}

/// Checks a request before any object is read.
pub fn validate_clone_request(request: ExtentCloneRequest, limits: DecodeLimits) -> (r: Result<
    (),
    ExtentCloneFailure,
>)
    ensures
        match clone_refused(request, limits) {
            Some(error) => r == Err::<(), ExtentCloneFailure>(
                OperationFailure { error, work: no_work() },
            ),
            None => r is Ok,
        },
{
    if request.source_root.kind != ObjectKind::ExtentPage || request.destination_root.kind
        != ObjectKind::ExtentPage {
        return Err(OperationFailure::before_work(ExtentCloneError::WrongRootKind));
    }
    if request.source_range.length == 0 {
        return Err(OperationFailure::before_work(ExtentCloneError::EmptyRange));
    }
    if request.source_range.length > u64::MAX - request.source_range.offset
        || request.source_range.length > u64::MAX - request.destination_offset {
        return Err(OperationFailure::before_work(ExtentCloneError::RangeOverflow));
    }
    if request.maximum_spans == 0 || request.maximum_mutations < request.maximum_spans
        || !limits.page_limits_valid(2) {
        return Err(OperationFailure::before_work(ExtentCloneError::InvalidLimits));
    }
    Ok(())
}

/// Whether a span can be moved to the destination.
pub open spec fn span_moves(request: ExtentCloneRequest, span: ExtentView) -> bool {
    request.source_range.offset <= span.offset && request.destination_offset + (span.offset
        - request.source_range.offset) <= u64::MAX
}

/// The mutation that puts a span at the destination.
pub open spec fn span_moved(request: ExtentCloneRequest, span: ExtentView) -> ExtentMutationView {
    ExtentMutationView::Replace {
        offset: (request.destination_offset + (span.offset - request.source_range.offset)) as u64,
        length: span.length,
        kind: span.kind,
        extend: true,
    }
}

/// The mutations that put spans at the destination.
pub open spec fn spans_moved(request: ExtentCloneRequest, spans: Seq<ExtentView>) -> Seq<
    ExtentMutationView,
> {
    Seq::new(spans.len(), |i: int| span_moved(request, spans[i]))
}

/// Makes the mutations that put the spans of a source range at the destination.
pub fn clone_mutations(request: ExtentCloneRequest, spans: &Vec<Extent>) -> (r: Result<
    Vec<ExtentMutation>,
    ExtentCloneError,
>)
    ensures
        match r {
            Ok(mutations) => views(mutations@) == spans_moved(request, views(spans@)) && forall|
                i: int,
            |
                0 <= i < spans@.len() ==> span_moves(request, #[trigger] views(spans@)[i]),
            Err(error) => error == ExtentCloneError::RangeOverflow && exists|i: int|
                0 <= i < spans@.len() && !span_moves(request, #[trigger] views(spans@)[i]),
        },
{
    let ghost all = views(spans@);
    let mut mutations: Vec<ExtentMutation> = Vec::new();
    let mut i: usize = 0;
    while i < spans.len()
        invariant
            i <= spans@.len(),
            all == views(spans@),
            mutations@.len() == i,
            forall|j: int| 0 <= j < i ==> (#[trigger] mutations@[j])@ == span_moved(request, all[j]),
            forall|j: int| 0 <= j < i ==> span_moves(request, #[trigger] all[j]),
        decreases spans@.len() - i,
    {
        let span = spans[i];
        assert(all[i as int] == span@);
        if span.offset < request.source_range.offset {
            assert(!span_moves(request, all[i as int]));
            return Err(ExtentCloneError::RangeOverflow);
        }
        let relative: u64 = span.offset - request.source_range.offset;
        if relative > u64::MAX - request.destination_offset {
            assert(!span_moves(request, all[i as int]));
            return Err(ExtentCloneError::RangeOverflow);
        }
        mutations.push(
            ExtentMutation::Replace {
                offset: request.destination_offset + relative,
                length: span.length,
                kind: span.kind,
                extend: true,
            },
        );
        i = i + 1;
    }
    assert(views(mutations@) =~= spans_moved(request, all));
    Ok(mutations)
}

/// Logical bytes of one mutation per span.
pub open spec fn clone_held(plan: ExtentPlan) -> u64 {
    if plan.spans@.len() * 72 > u64::MAX {
        u64::MAX
    } else {
        (plan.spans@.len() * 72) as u64
    }
}

/// Work of a clone before its destination is touched, or why it is refused: one
/// allocation and one item per span, while the spans are held.
pub open spec fn clone_begun(plan: ExtentPlan, budget: WorkBudget) -> Result<
    WorkCounters,
    WorkError,
> {
    let counted = WorkCounters {
        items_examined: plan.spans@.len() as u64,
        allocation_operations: 1,
        ..no_work()
    };
    let simultaneous = plan.retained_allocation_bytes + clone_held(plan);
    if simultaneous > u64::MAX {
        Err(WorkError::Overflow)
    } else {
        match total(plan.work, counted) {
            Err(error) => Err(error),
            Ok(sum) => {
                let work = WorkCounters {
                    peak_allocation_bytes: larger(sum.peak_allocation_bytes, simultaneous as u64),
                    ..sum
                };
                if within(work, budget) {
                    Ok(work)
                } else {
                    Err(WorkError::Exceeded)
                }
            },
        }
    }
}

/// Whether every span can be moved to the destination.
pub open spec fn spans_move(request: ExtentCloneRequest, spans: Seq<ExtentView>) -> bool {
    forall|i: int| 0 <= i < spans.len() ==> span_moves(request, #[trigger] spans[i])
}

/// What is left of a budget once the mutations of a clone are held.
pub open spec fn clone_left(plan: ExtentPlan, budget: WorkBudget) -> WorkBudget {
    WorkBudget {
        peak_allocation_bytes: (budget.peak_allocation_bytes - clone_held(plan)) as u64,
        ..left_over(clone_begun(plan, budget)->Ok_0, budget)
    }
}

/// Work of a clone whose destination was written with some work while the mutations were
/// held.
pub open spec fn clone_done(begun: WorkCounters, held: u64, written: WorkCounters) -> WorkCounters {
    let sum = added(begun, WorkCounters { peak_allocation_bytes: 0, ..written });
    WorkCounters {
        peak_allocation_bytes: larger(
            sum.peak_allocation_bytes,
            (held + written.peak_allocation_bytes) as u64,
        ),
        ..sum
    }
}

/// Whether a clone ends as its destination does, behind the work of its plan.
pub open spec fn clone_settled(
    plan: ExtentPlan,
    begun: WorkCounters,
    end: MutationEnd,
    r: Result<ExtentCloneReceipt, ExtentCloneFailure>,
) -> bool {
    match end {
        Ok((root, written)) => r matches Ok(receipt) && receipt.root@ == root && receipt.work
            == clone_done(begun, clone_held(plan), written),
        Err((error, spent)) => match total(begun, spent) {
            Ok(sum) => r matches Err(failure) && (failure.error matches ExtentCloneError::Destination(
                cause,
            ) && cause@ == error) && failure.work == sum,
            Err(error) => r == Err::<ExtentCloneReceipt, ExtentCloneFailure>(
                OperationFailure { error: ExtentCloneError::Work(error), work: begun },
            ),
        },
    }
}

/// Whether a clone gave the destination the spans of the source range.
pub open spec fn clone_copied<S: ObjectStore>(
    before: S,
    after: S,
    request: ExtentCloneRequest,
    plan: ExtentPlan,
    limits: DecodeLimits,
    receipt: ExtentCloneReceipt,
) -> bool {
    let batch = spans_moved(request, views(plan.spans@));
    &&& receipt.logical_bytes == replay_size(
        request.destination_logical_bytes,
        batch,
        batch.len(),
    )
    &&& forall|file: Bytes| #[trigger]
        told(
            before.contents(),
            limits,
            request.destination_root@,
            0,
            request.destination_logical_bytes,
            file,
        ) ==> told(
            after.contents(),
            limits,
            receipt.root@,
            0,
            receipt.logical_bytes,
            replayed(request.destination_logical_bytes, batch, file),
        )
}

/// Clones the spans of a source range without reading or copying content bytes.
///
/// The spans are fully known before any destination object is written, so that an
/// overlapping clone within one file sees the file as it was.
pub fn clone_extent_range<S: ObjectStore>(
    store: &mut S,
    request: ExtentCloneRequest,
    plan: &ExtentPlan,
    limits: DecodeLimits,
    budget: WorkBudget,
) -> (r: Result<ExtentCloneReceipt, ExtentCloneFailure>)
    ensures
        extends(old(store).contents(), final(store).contents()),
        logged(old(store).puts(), final(store).puts()),
        match clone_refused(request, limits) {
            Some(error) => r == Err::<ExtentCloneReceipt, ExtentCloneFailure>(
                OperationFailure { error, work: no_work() },
            ) && *final(store) == *old(store),
            None => match clone_begun(*plan, budget) {
                Err(error) => r == Err::<ExtentCloneReceipt, ExtentCloneFailure>(
                    OperationFailure { error: ExtentCloneError::Work(error), work: plan.work },
                ) && *final(store) == *old(store),
                Ok(begun) => if !spans_move(request, views(plan.spans@)) {
                    r == Err::<ExtentCloneReceipt, ExtentCloneFailure>(
                        OperationFailure { error: ExtentCloneError::RangeOverflow, work: begun },
                    ) && *final(store) == *old(store)
                } else {
                    exists|end: MutationEnd| #[trigger]
                        mutation_ends(
                            *old(store),
                            *final(store),
                            request.destination_root,
                            request.destination_logical_bytes,
                            spans_moved(request, views(plan.spans@)),
                            request.maximum_mutations,
                            limits,
                            clone_left(*plan, budget),
                            end,
                        ) && clone_settled(*plan, begun, end, r)
                },
            },
        },
        r matches Ok(receipt) ==> within(receipt.work, budget) && clone_copied(
            *old(store),
            *final(store),
            request,
            *plan,
            limits,
            receipt,
        ),
{
    assert(store.puts().take(store.puts().len() as int) =~= store.puts());
    if let Err(failure) = validate_clone_request(request, limits) {
        return Err(failure);
    }
    let held: u64 = match (plan.spans.len() as u64).checked_mul(MUTATION_LOGICAL_BYTES) {
        Some(held) => held,
        None => u64::MAX,
    };
    if held > u64::MAX - plan.retained_allocation_bytes {
        return Err(OperationFailure::new(ExtentCloneError::Work(WorkError::Overflow), plan.work));
    }
    let simultaneous: u64 = plan.retained_allocation_bytes + held;
    let mut counted = WorkCounters::of_items_examined(plan.spans.len() as u64);
    counted.allocation_operations = 1;
    let mut work = match plan.work.checked_add(counted) {
        Ok(sum) => sum,
        Err(error) => {
            return Err(OperationFailure::new(ExtentCloneError::Work(error), plan.work));
        },
    };
    if work.peak_allocation_bytes < simultaneous {
        work.peak_allocation_bytes = simultaneous;
    }
    if let Err(error) = work.verify(budget) {
        return Err(OperationFailure::new(ExtentCloneError::Work(error), plan.work));
    }
    let mutations = match clone_mutations(request, &plan.spans) {
        Ok(mutations) => mutations,
        Err(error) => {
            return Err(OperationFailure::new(error, work));
        },
    };
    let mut remaining = match work.remaining(budget) {
        Ok(remaining) => remaining,
        Err(error) => {
            return Err(OperationFailure::new(ExtentCloneError::Work(error), work));
        },
    };
    if held > budget.peak_allocation_bytes {
        return Err(OperationFailure::new(ExtentCloneError::Work(WorkError::Overflow), work));
    }
    remaining.peak_allocation_bytes = budget.peak_allocation_bytes - held;
    let applied = apply_extent_mutations(
        store,
        request.destination_root,
        request.destination_logical_bytes,
        &mutations,
        request.maximum_mutations,
        limits,
        remaining,
    );
    let ghost end = mutation_end(applied);
    assert(mutation_ends(
        *old(store),
        *store,
        request.destination_root,
        request.destination_logical_bytes,
        spans_moved(request, views(plan.spans@)),
        request.maximum_mutations,
        limits,
        clone_left(*plan, budget),
        end,
    ));
    let receipt = match applied {
        Ok(receipt) => receipt,
        Err(failure) => match work.checked_add(failure.work) {
            Ok(sum) => {
                return Err(
                    OperationFailure::new(ExtentCloneError::Destination(failure.error), sum),
                );
            },
            Err(error) => {
                return Err(OperationFailure::new(ExtentCloneError::Work(error), work));
            },
        },
    };
    if receipt.work.peak_allocation_bytes > u64::MAX - held {
        return Err(OperationFailure::new(ExtentCloneError::Work(WorkError::Overflow), work));
    }
    let peak: u64 = held + receipt.work.peak_allocation_bytes;
    let mut written = receipt.work;
    written.peak_allocation_bytes = 0;
    let mut done = match work.checked_add(written) {
        Ok(sum) => sum,
        Err(error) => {
            return Err(OperationFailure::new(ExtentCloneError::Work(error), work));
        },
    };
    if done.peak_allocation_bytes < peak {
        done.peak_allocation_bytes = peak;
    }
    if let Err(error) = done.verify(budget) {
        return Err(OperationFailure::new(ExtentCloneError::Work(error), done));
    }
    Ok(
        ExtentCloneReceipt {
            root: receipt.root,
            logical_bytes: receipt.logical_bytes,
            work: done,
        },
    )
}

/// The spans of a range of a sparse file, with the work of finding them.
#[derive(Debug, PartialEq, Eq)]
pub struct ExtentPlan {
    /// Adjoining spans, from the start of the range to its end.
    pub spans: Vec<Extent>,
    /// Work of finding them.
    pub work: WorkCounters,
    /// Logical bytes that the spans take.
    pub retained_allocation_bytes: u64,
}

/// Whether spans are those of a source range: adjoining, from its start to its end.
pub open spec fn spans_of_range(spans: Seq<ExtentView>, range: ByteRange) -> bool {
    &&& extents_ordered(spans)
    &&& spans.len() > 0
    &&& spans[0].offset == range.offset
    &&& extent_end_of(spans.last()) == range.offset + range.length
}

proof fn lemma_clone_prefix(
    request: ExtentCloneRequest,
    spans: Seq<ExtentView>,
    file: Bytes,
    count: nat,
)
    requires
        spans_of_range(spans, request.source_range),
        request.destination_offset + request.source_range.length <= u64::MAX,
        count <= spans.len(),
    ensures
        ({
            let batch = spans_moved(request, spans);
            let old_size = request.destination_logical_bytes;
            let start = request.destination_offset as int;
            let copied = if count == 0 {
                0
            } else {
                extent_end_of(spans[count - 1]) - request.source_range.offset
            };
            &&& 0 <= copied <= request.source_range.length
            &&& replay_size(old_size, batch, count) == (if count > 0 && start + copied > old_size {
                start + copied
            } else {
                old_size as int
            })
            &&& forall|x: int|
                0 <= x < replay_size(old_size, batch, count) ==> (#[trigger] replay_byte(
                    file,
                    old_size,
                    batch,
                    count,
                    x,
                ) == if start <= x < start + copied {
                    byte_at(spans, x - start + request.source_range.offset)->0
                } else if x < old_size {
                    file(x)
                } else {
                    ByteView::Hole
                })
        }),
    decreases count,
{
    if count > 0 {
        let batch = spans_moved(request, spans);
        let old_size = request.destination_logical_bytes;
        let start = request.destination_offset as int;
        let source = request.source_range.offset as int;
        let at = count - 1;
        let before = at as nat;
        lemma_clone_prefix(request, spans, file, before);
        let span = spans[at];
        assert(extent_fits(span));
        if at > 0 {
            assert(extent_adjoins(spans, at));
        }
        lemma_spans_within(spans, at);
        assert(batch[at] == span_moved(request, span));
        let copied = extent_end_of(span) - source;
        let earlier = span.offset - source;
        assert forall|x: int| 0 <= x < replay_size(old_size, batch, count) implies (
        #[trigger] replay_byte(file, old_size, batch, count, x) == if start <= x < start + copied {
            byte_at(spans, x - start + source)->0
        } else if x < old_size {
            file(x)
        } else {
            ByteView::Hole
        }) by {
            if start + earlier <= x < start + copied {
                super::extent_tree::lemma_held_byte(spans, at, x - start + source);
            } else if x < replay_size(old_size, batch, before) {
                assert(replay_byte(file, old_size, batch, before, x) == if start <= x < start
                    + earlier {
                    byte_at(spans, x - start + source)->0
                } else if x < old_size {
                    file(x)
                } else {
                    ByteView::Hole
                });
            }
        }
    }
}

/// A span of a source range lies within it.
proof fn lemma_spans_within(spans: Seq<ExtentView>, at: int)
    requires
        extents_ordered(spans),
        0 <= at < spans.len(),
    ensures
        spans[0].offset <= spans[at].offset,
        extent_end_of(spans[at]) <= extent_end_of(spans.last()),
{
    super::extent_patch::lemma_extents_disjoint(spans);
    let runs = super::extent_patch::runs_of(spans);
    let last = spans.len() - 1;
    assert(extent_fits(spans[0]) && extent_fits(spans[at]) && extent_fits(spans[last]));
    if at > 0 {
        assert(runs[0].end <= runs[at].offset);
    }
    if at < last {
        assert(runs[at].end <= runs[last].offset);
    }
}

/// A clone puts the bytes of the source range at the destination, leaves all other
/// bytes as they were, and fills a gap behind the old end with holes.
pub proof fn clone_copies_the_range(
    request: ExtentCloneRequest,
    spans: Seq<ExtentView>,
    file: Bytes,
    x: int,
)
    requires
        spans_of_range(spans, request.source_range),
        request.destination_offset + request.source_range.length <= u64::MAX,
        0 <= x < replay_size(
            request.destination_logical_bytes,
            spans_moved(request, spans),
            spans.len(),
        ),
    ensures
        replayed(request.destination_logical_bytes, spans_moved(request, spans), file)(x) == if (
        request.destination_offset <= x < request.destination_offset + request.source_range.length) {
            byte_at(spans, x - request.destination_offset + request.source_range.offset)->0
        } else if x < request.destination_logical_bytes {
            file(x)
        } else {
            ByteView::Hole
        },
{
    lemma_clone_prefix(request, spans, file, spans.len());
    assert(spans.last() == spans[spans.len() - 1]);
    assert(replay_byte(
        file,
        request.destination_logical_bytes,
        spans_moved(request, spans),
        spans.len(),
        x,
    ) == replayed(request.destination_logical_bytes, spans_moved(request, spans), file)(x));
}

} // verus!
