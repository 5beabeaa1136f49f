//! Ordered extent mutations compiled to disjoint patches under a work budget.

use super::extent::ExtentKind;
use super::extent_mutation::{range_cause, ExtentMutationError, ExtentMutationFailure};
use super::extent_patch::{
    bounds_listed, covers, lemma_elementary, lemma_refused_stays, lemma_replay_replace,
    lemma_replay_resize, lemma_run_at, lemma_run_found, lemma_run_none, mutation_refused,
    numbers_ascend, offset_kind, patched_at, plan_refused, push_run, refuse, replay_byte,
    replay_size, run_fits, runs_disjoint, runs_fit, runs_joined, tells_replay, ByteView,
    ExtentMutation, ExtentMutationView, Patch, PatchView,
};
use super::radix::{ascends_below, distribute, lemma_distributed};
use crate::order::views;
use crate::performance::{
    charged, larger, no_work, total, within, OperationFailure, WorkBudget, WorkCounters, WorkError,
};
use vstd::prelude::*;

verus! {

/// Logical bytes of one patch.
pub const PATCH_LOGICAL_BYTES: u64 = 64;

/// Logical bytes of one coordinate.
pub const COORDINATE_BYTES: u64 = 8;

/// Logical bytes of one assignment.
pub const ASSIGNMENT_BYTES: u64 = 16;

/// A failure with the work spent until then.
pub type PlanFailing = (ExtentMutationError, WorkCounters);

/// A failure as an abstract one.
pub open spec fn plan_failure_is(failure: ExtentMutationFailure, failing: PlanFailing) -> bool {
    failure.error == failing.0 && failure.work == failing.1
}

/// Whether work has grown by no more than some items, copied bytes and allocations,
/// and reached no higher peak than a given one.
pub open spec fn grew(
    before: WorkCounters,
    after: WorkCounters,
    items: int,
    copied: int,
    operations: int,
    peak: int,
) -> bool {
    &&& after.items_examined <= before.items_examined + items
    &&& after.bytes_copied <= before.bytes_copied + copied
    &&& after.allocation_operations <= before.allocation_operations + operations
    &&& after.peak_allocation_bytes <= before.peak_allocation_bytes
        || after.peak_allocation_bytes <= peak
    &&& after == (WorkCounters {
        items_examined: after.items_examined,
        bytes_copied: after.bytes_copied,
        allocation_operations: after.allocation_operations,
        peak_allocation_bytes: after.peak_allocation_bytes,
        ..before
    })
}

/// Whether a budget leaves room for some items, copied bytes and allocations.
pub open spec fn roomy(
    work: WorkCounters,
    items: int,
    copied: int,
    operations: int,
    peak: int,
    budget: WorkBudget,
) -> bool {
    &&& within(work, budget)
    &&& work.items_examined + items <= budget.items_examined
    &&& work.bytes_copied + copied <= budget.bytes_copied
    &&& work.allocation_operations + operations <= budget.allocation_operations
    &&& peak <= budget.peak_allocation_bytes
}

/// Work once items have been examined, or why it is refused.
pub open spec fn items_charged(work: WorkCounters, budget: WorkBudget, count: u64) -> Result<
    WorkCounters,
    PlanFailing,
> {
    match charged(work, WorkCounters { items_examined: count, ..no_work() }, budget) {
        Ok(sum) => Ok(sum),
        Err(error) => Err((ExtentMutationError::Work(error), work)),
    }
}

/// Charges examined items.
pub fn charge_items(work: &mut WorkCounters, budget: WorkBudget, count: u64) -> (r: Result<
    (),
    ExtentMutationFailure,
>)
    ensures
        match items_charged(*old(work), budget, count) {
            Ok(sum) => r is Ok && *final(work) == sum && within(sum, budget),
            Err(failing) => r matches Err(failure) && plan_failure_is(failure, failing)
                && failure.error is Work && !roomy(*old(work), count as int, 0, 0, 0, budget),
        },
{
    match work.charge(WorkCounters::of_items_examined(count), budget) {
        Ok(sum) => {
            *work = sum;
            Ok(())
        },
        Err(error) => Err(OperationFailure::new(ExtentMutationError::Work(error), *work)),
    }
}

fn charge_copied_bytes(work: &mut WorkCounters, budget: WorkBudget, bytes: u64) -> (r: Result<
    (),
    ExtentMutationFailure,
>)
    ensures
        match charged(*old(work), WorkCounters { bytes_copied: bytes, ..no_work() }, budget) {
            Ok(sum) => r is Ok && *final(work) == sum && within(sum, budget),
            Err(error) => r matches Err(failure) && plan_failure_is(
                failure,
                (ExtentMutationError::Work(error), *old(work)),
            ) && !roomy(*old(work), 0, bytes as int, 0, 0, budget),
        },
{
    match work.charge(WorkCounters::of_bytes_copied(bytes), budget) {
        Ok(sum) => {
            *work = sum;
            Ok(())
        },
        Err(error) => Err(OperationFailure::new(ExtentMutationError::Work(error), *work)),
    }
}

/// Patches that the first mutations of a batch come to before they are put in order.
pub open spec fn raw_count(old_size: u64, mutations: Seq<ExtentMutationView>, count: nat) -> nat
    decreases count,
{
    if count == 0 {
        0
    } else {
        let size = replay_size(old_size, mutations, (count - 1) as nat);
        raw_count(old_size, mutations, (count - 1) as nat) + match mutations[count - 1] {
            ExtentMutationView::Replace { offset, .. } => if offset > size {
                2nat
            } else {
                1nat
            },
            ExtentMutationView::Resize { logical_bytes } => if logical_bytes != size {
                1nat
            } else {
                0nat
            },
        }
    }
}

/// The work of admitting the first mutations of a batch, or why they are refused: one
/// item for each, counted before it is looked at.
pub open spec fn admitted(
    old_size: u64,
    mutations: Seq<ExtentMutationView>,
    count: nat,
    budget: WorkBudget,
) -> Result<WorkCounters, PlanFailing>
    decreases count,
{
    if count == 0 {
        Ok(no_work())
    } else {
        match admitted(old_size, mutations, (count - 1) as nat, budget) {
            Err(failing) => Err(failing),
            Ok(work) => match items_charged(work, budget, 1) {
                Err(failing) => Err(failing),
                Ok(sum) => match mutation_refused(
                    mutations[count - 1],
                    replay_size(old_size, mutations, (count - 1) as nat),
                ) {
                    Some(error) => Err((range_cause(error), sum)),
                    None => if raw_count(old_size, mutations, count) > usize::MAX {
                        Err((ExtentMutationError::RangeOverflow, sum))
                    } else {
                        Ok(sum)
                    },
                },
            },
        }
    }
}

proof fn lemma_admission_stays(
    old_size: u64,
    mutations: Seq<ExtentMutationView>,
    count: nat,
    upto: nat,
    budget: WorkBudget,
)
    requires
        count <= upto,
        admitted(old_size, mutations, count, budget) is Err,
    ensures
        admitted(old_size, mutations, upto, budget) == admitted(
            old_size,
            mutations,
            count,
            budget,
        ),
    decreases upto,
{
    if count < upto {
        lemma_admission_stays(old_size, mutations, count, (upto - 1) as nat, budget);
    }
}

/// Batches that are admitted are not refused.
pub proof fn lemma_admitted_fits(
    old_size: u64,
    mutations: Seq<ExtentMutationView>,
    count: nat,
    budget: WorkBudget,
)
    requires
        admitted(old_size, mutations, count, budget) is Ok,
    ensures
        plan_refused(old_size, mutations, count) is None,
    decreases count,
{
    if count > 0 {
        lemma_admitted_fits(old_size, mutations, (count - 1) as nat, budget);
    }
}

/// Admission counts the mutations.
proof fn lemma_admitted_items(
    old_size: u64,
    mutations: Seq<ExtentMutationView>,
    count: nat,
    budget: WorkBudget,
)
    ensures
        admitted(old_size, mutations, count, budget) matches Ok(work) ==> work == (WorkCounters {
            items_examined: count as u64,
            ..no_work()
        }) && work.items_examined == count,
    decreases count,
{
    if count > 0 {
        lemma_admitted_items(old_size, mutations, (count - 1) as nat, budget);
    }
}

/// Admits a batch: the size it leaves, the raw patches it comes to and the work.
fn admit_patch_plan(old_size: u64, mutations: &Vec<ExtentMutation>, budget: WorkBudget) -> (r: Result<
    (u64, usize, WorkCounters),
    ExtentMutationFailure,
>)
    ensures
        match admitted(old_size, views(mutations@), mutations@.len(), budget) {
            Err(failing) => r matches Err(failure) && plan_failure_is(failure, failing),
            Ok(work) => r matches Ok(plan) && plan.0 == replay_size(
                old_size,
                views(mutations@),
                mutations@.len(),
            ) && plan.1 == raw_count(old_size, views(mutations@), mutations@.len()) && plan.2
                == work && (mutations@.len() > 0 ==> within(work, budget)),
        },
{
    let ghost all = views(mutations@);
    let mut size: u64 = old_size;
    let mut raw: usize = 0;
    let mut work = WorkCounters::default();
    let mut i: usize = 0;
    while i < mutations.len()
        invariant
            i <= mutations@.len(),
            all == views(mutations@),
            size == replay_size(old_size, all, i as nat),
            raw == raw_count(old_size, all, i as nat),
            admitted(old_size, all, i as nat, budget) == Ok::<WorkCounters, PlanFailing>(work),
            i > 0 ==> within(work, budget),
        decreases mutations@.len() - i,
    {
        let mutation = mutations[i];
        assert(all[i as int] == mutation@);
        let ghost next = (i + 1) as nat;
        if let Err(failure) = charge_items(&mut work, budget, 1) {
            proof {
                lemma_admission_stays(old_size, all, next, all.len(), budget);
            }
            return Err(failure);
        }
        if let Some(error) = refuse(&mutation, size) {
            proof {
                lemma_admission_stays(old_size, all, next, all.len(), budget);
            }
            return Err(OperationFailure::new(ExtentMutationError::from_range(error), work));
        }
        let (more, left): (usize, u64) = match mutation {
            ExtentMutation::Replace { offset, length, .. } => (
                if offset > size {
                    2
                } else {
                    1
                },
                if offset + length > size {
                    offset + length
                } else {
                    size
                },
            ),
            ExtentMutation::Resize { logical_bytes } => (
                if logical_bytes != size {
                    1
                } else {
                    0
                },
                logical_bytes,
            ),
        };
        match raw.checked_add(more) {
            Some(sum) => {
                raw = sum;
            },
            None => {
                proof {
                    lemma_admission_stays(old_size, all, next, all.len(), budget);
                }
                return Err(OperationFailure::new(ExtentMutationError::RangeOverflow, work));
            },
        }
        size = left;
        i = i + 1;
    }
    Ok((size, raw, work))
}

/// Logical bytes of all scratch buffers for some raw patches: the patches, two lists of
/// their bounds, and for every interval between bounds an assignment, a link and a
/// resulting patch.
pub open spec fn scratch_bytes(raw: nat) -> int {
    let intervals = 2 * raw - 1;
    64 * raw + 8 * (2 * raw) + 8 * (2 * raw) + 16 * intervals + 8 * (intervals + 1) + 64 * intervals
}

/// Why the scratch buffers for some raw patches are refused.
pub open spec fn scratch_refused(raw: nat, work: WorkCounters, budget: WorkBudget) -> Option<
    PlanFailing,
> {
    if 64 * (2 * raw - 1) > usize::MAX || scratch_bytes(raw) > u64::MAX {
        Some((ExtentMutationError::RangeOverflow, work))
    } else {
        match total(work, WorkCounters { allocation_operations: 6, ..no_work() }) {
            Err(error) => Some((ExtentMutationError::Work(error), work)),
            Ok(sum) => {
                let reserved = WorkCounters {
                    peak_allocation_bytes: larger(
                        sum.peak_allocation_bytes,
                        scratch_bytes(raw) as u64,
                    ),
                    ..sum
                };
                if within(reserved, budget) {
                    None
                } else {
                    Some((ExtentMutationError::Work(WorkError::Exceeded), work))
                }
            },
        }
    }
}

/// Admits the scratch buffers for some raw patches.
fn reserve_compile_scratch(raw: usize, work: WorkCounters, budget: WorkBudget) -> (r: Result<
    (),
    ExtentMutationFailure,
>)
    requires
        raw > 0,
    ensures
        match scratch_refused(raw as nat, work, budget) {
            Some(failing) => r matches Err(failure) && plan_failure_is(failure, failing),
            None => r is Ok,
        },
{
    let count = raw as u128;
    let intervals: u128 = 2 * count - 1;
    let bytes: u128 = 64 * count + 8 * (2 * count) + 8 * (2 * count) + 16 * intervals + 8 * (
    intervals + 1) + 64 * intervals;
    if 64 * intervals > usize::MAX as u128 || bytes > u64::MAX as u128 {
        return Err(OperationFailure::new(ExtentMutationError::RangeOverflow, work));
    }
    let mut reserved = match work.checked_add(WorkCounters::of_allocation_operations(6)) {
        Ok(sum) => sum,
        Err(error) => {
            return Err(OperationFailure::new(ExtentMutationError::Work(error), work));
        },
    };
    if reserved.peak_allocation_bytes < bytes as u64 {
        reserved.peak_allocation_bytes = bytes as u64;
    }
    match reserved.verify(budget) {
        Ok(()) => Ok(()),
        Err(error) => Err(OperationFailure::new(ExtentMutationError::Work(error), work)),
    }
}

/// Accounts for one buffer.
fn allocate(
    capacity: usize,
    each: u64,
    work: &mut WorkCounters,
    budget: WorkBudget,
    live: &mut u64,
) -> (r: Result<(), ExtentMutationFailure>)
    requires
        *old(live) + capacity * each <= u64::MAX,
    ensures
        r is Ok ==> *final(live) == *old(live) + capacity * each && within(*final(work), budget)
            && grew(*old(work), *final(work), 0, 0, 1, *final(live) as int),
        r matches Err(failure) ==> failure.error is Work && !roomy(
            *old(work),
            0,
            0,
            1,
            *old(live) + capacity * each,
            budget,
        ),
{
    assert(0 <= capacity * each) by (nonlinear_arith);
    let requested: u64 = (capacity as u64) * each;
    let next: u64 = *live + requested;
    let operations: u64 = if capacity != 0 {
        1
    } else {
        0
    };
    let mut prospective = match work.checked_add(
        WorkCounters::of_allocation_operations(operations),
    ) {
        Ok(sum) => sum,
        Err(error) => {
            return Err(OperationFailure::new(ExtentMutationError::Work(error), *work));
        },
    };
    if prospective.peak_allocation_bytes < next {
        prospective.peak_allocation_bytes = next;
    }
    if let Err(error) = prospective.verify(budget) {
        return Err(OperationFailure::new(ExtentMutationError::Work(error), *work));
    }
    *live = next;
    *work = prospective;
    Ok(())
}

/// The raw patches of an admitted batch.
fn raw_patches(
    old_size: u64,
    mutations: &Vec<ExtentMutation>,
    work: &mut WorkCounters,
    budget: WorkBudget,
) -> (r: Result<Vec<Patch>, ExtentMutationFailure>)
    requires
        plan_refused(old_size, views(mutations@), mutations@.len()) is None,
    ensures
        match r {
            Ok(raw) => raw@.len() == raw_count(old_size, views(mutations@), mutations@.len())
                && runs_fit(views(raw@)) && tells_replay(
                views(raw@),
                old_size,
                views(mutations@),
                mutations@.len(),
            ) && grew(*old(work), *final(work), mutations@.len() as int, 0, 0, 0),
            Err(failure) => failure.error is Work && !roomy(
                *old(work),
                mutations@.len() as int,
                0,
                0,
                0,
                budget,
            ),
        },
{
    let ghost all = views(mutations@);
    let mut raw: Vec<Patch> = Vec::new();
    let mut size: u64 = old_size;
    let mut i: usize = 0;
    while i < mutations.len()
        invariant
            i <= mutations@.len(),
            all == views(mutations@),
            plan_refused(old_size, all, all.len()) is None,
            size == replay_size(old_size, all, i as nat),
            raw@.len() == raw_count(old_size, all, i as nat),
            runs_fit(views(raw@)),
            tells_replay(views(raw@), old_size, all, i as nat),
            grew(*old(work), *work, i as int, 0, 0, 0),
            i > 0 ==> within(*work, budget),
        decreases mutations@.len() - i,
    {
        let mutation = mutations[i];
        assert(all[i as int] == mutation@);
        proof {
            if plan_refused(old_size, all, (i + 1) as nat) is Some {
                lemma_refused_stays(old_size, all, (i + 1) as nat, all.len());
            }
            if plan_refused(old_size, all, i as nat) is Some {
                lemma_refused_stays(old_size, all, i as nat, all.len());
            }
        }
        if let Err(failure) = charge_items(work, budget, 1) {
            return Err(failure);
        }
        let ghost before = views(raw@);
        match mutation {
            ExtentMutation::Replace { offset, length, kind, .. } => {
                let end: u64 = offset + length;
                if offset > size {
                    let gap = Patch { offset: size, end: offset, kind: ExtentKind::Hole };
                    raw.push(gap);
                    assert(views(raw@) =~= before.push(gap@));
                }
                let ghost given = views(raw@);
                let own = Patch { offset, end, kind };
                raw.push(own);
                assert(views(raw@) =~= given.push(own@));
                proof {
                    lemma_replay_replace(before, views(raw@), old_size, all, i as nat);
                }
                if end > size {
                    size = end;
                }
            },
            ExtentMutation::Resize { logical_bytes } => {
                if logical_bytes != size {
                    let hole = if logical_bytes > size {
                        Patch { offset: size, end: logical_bytes, kind: ExtentKind::Hole }
                    } else {
                        Patch { offset: logical_bytes, end: size, kind: ExtentKind::Hole }
                    };
                    raw.push(hole);
                    assert(views(raw@) =~= before.push(hole@));
                }
                proof {
                    lemma_replay_resize(before, views(raw@), old_size, all, i as nat);
                }
                size = logical_bytes;
            },
        }
        i = i + 1;
    }
    Ok(raw)
}

/// Bounds of runs within a size, in the order of the runs.
fn coordinates_of(raw: &Vec<Patch>, size: u64, work: &mut WorkCounters, budget: WorkBudget) -> (r:
    Result<Vec<u64>, ExtentMutationFailure>)
    requires
        runs_fit(views(raw@)),
    ensures
        match r {
            Ok(values) => bounds_listed(views(raw@), size, values@, raw@.len() as int) && (forall|
                v: u64,
            | #[trigger]
                values@.contains(v) ==> v <= size) && values@.len() <= 2 * raw@.len() && (
            raw@.len() > 0 ==> within(*final(work), budget)) && grew(
                *old(work),
                *final(work),
                raw@.len() as int,
                0,
                0,
                0,
            ),
            Err(failure) => failure.error is Work && !roomy(
                *old(work),
                raw@.len() as int,
                0,
                0,
                0,
                budget,
            ),
        },
{
    let ghost all = views(raw@);
    let mut values: Vec<u64> = Vec::new();
    let mut i: usize = 0;
    while i < raw.len()
        invariant
            i <= raw@.len(),
            all == views(raw@),
            runs_fit(all),
            bounds_listed(all, size, values@, i as int),
            forall|v: u64| #[trigger] values@.contains(v) ==> v <= size,
            values@.len() <= 2 * i,
            i > 0 ==> within(*work, budget),
            grew(*old(work), *work, i as int, 0, 0, 0),
        decreases raw@.len() - i,
    {
        if let Err(failure) = charge_items(work, budget, 1) {
            return Err(failure);
        }
        assert(all[i as int] == raw@[i as int]@);
        assert(run_fits(all[i as int]));
        let start = if raw[i].offset < size {
            raw[i].offset
        } else {
            size
        };
        let end = if raw[i].end < size {
            raw[i].end
        } else {
            size
        };
        let ghost before = values@;
        if start < end {
            values.push(start);
            values.push(end);
        }
        proof {
            let now = values@;
            assert forall|v: u64| #[trigger] before.contains(v) implies now.contains(v) by {
                let k = before.index_of(v);
                assert(now[k] == v);
            }
            assert forall|v: u64| #[trigger] now.contains(v) implies v <= size by {
                let k = now.index_of(v);
                if k < before.len() {
                    assert(before[k] == v);
                    assert(before.contains(v));
                }
            }
            if start < end {
                assert(now[before.len() as int] == start);
                assert(now[(before.len() + 1) as int] == end);
            }
        }
        i = i + 1;
    }
    Ok(values)
}

/// Whether numbers never descend.
pub open spec fn never_descends(values: Seq<u64>) -> bool {
    forall|i: int, j: int|
        0 <= i < j < values.len() ==> (#[trigger] values[i]) <= (#[trigger] values[j])
}

/// Sorts numbers byte by byte, the lowest first.
fn radix_sort(values: &mut Vec<u64>, work: &mut WorkCounters, budget: WorkBudget) -> (r: Result<
    (),
    ExtentMutationFailure,
>)
    requires
        old(values)@.len() * 8 <= u64::MAX,
    ensures
        match r {
            Ok(()) => never_descends(final(values)@) && final(values)@.len() == old(values)@.len()
                && (forall|v: u64| #[trigger]
                final(values)@.contains(v) == old(values)@.contains(v)) && grew(
                *old(work),
                *final(work),
                16 * old(values)@.len() as int,
                64 * old(values)@.len() as int,
                0,
                0,
            ) && within(*final(work), budget),
            Err(failure) => failure.error is Work && !roomy(
                *old(work),
                16 * old(values)@.len() as int,
                64 * old(values)@.len() as int,
                0,
                0,
                budget,
            ),
        },
{
    let ghost given = values@;
    let count = values.len();
    let mut scratch: Vec<u64> = Vec::new();
    while scratch.len() < count
        invariant
            scratch@.len() <= count,
        decreases count - scratch@.len(),
    {
        scratch.push(0);
    }
    let mut scale: u64 = 1;
    let mut pass: u32 = 0;
    let ghost mut base: nat = 1;
    let ghost mut spent: int = 0;
    assert(ascends_below(values@, 1));
    while pass < 8
        invariant
            pass <= 8,
            count == given.len(),
            values@.len() == count,
            scratch@.len() == count,
            count * 8 <= u64::MAX,
            base > 0,
            pass < 8 ==> scale == base,
            pass == 0 ==> base == 1,
            pass == 1 ==> base == 0x100,
            pass == 2 ==> base == 0x1_0000,
            pass == 3 ==> base == 0x100_0000,
            pass == 4 ==> base == 0x1_0000_0000,
            pass == 5 ==> base == 0x100_0000_0000,
            pass == 6 ==> base == 0x1_0000_0000_0000,
            pass == 7 ==> base == 0x100_0000_0000_0000,
            pass == 8 ==> base == 0x1_0000_0000_0000_0000,
            ascends_below(values@, base),
            forall|v: u64| #[trigger] values@.contains(v) == given.contains(v),
            grew(*old(work), *work, spent * 2, spent * 8, 0, 0),
            spent == pass * count,
            count == old(values)@.len(),
            pass > 0 ==> within(*work, budget),
        decreases 8 - pass,
    {
        proof {
            assert((pass + 1) * count == pass * count + count) by (nonlinear_arith);
            assert((pass + 1) * count <= 8 * count) by (nonlinear_arith)
                requires
                    pass < 8,
            ;
        }
        if let Err(failure) = charge_items(work, budget, count as u64 * 2) {
            return Err(failure);
        }
        if let Err(failure) = charge_copied_bytes(work, budget, count as u64 * 8) {
            return Err(failure);
        }
        let ghost before = values@;
        distribute(values, &mut scratch, scale);
        proof {
            lemma_distributed(before, base, scratch@);
            base = base * 256;
            spent = spent + count;
        }
        std::mem::swap(values, &mut scratch);
        pass = pass + 1;
        if pass < 8 {
            scale = scale * 256;
        }
    }
    assert forall|i: int, j: int| 0 <= i < j < values@.len() implies (#[trigger] values@[i]) <= (
    #[trigger] values@[j]) by {
        let a = values@[i] as int;
        let b = values@[j] as int;
        assert(a % 0x1_0000_0000_0000_0000 == a);
        assert(b % 0x1_0000_0000_0000_0000 == b);
    }
    Ok(())
}

/// Keeps one of each number.
fn deduplicate_coordinates(values: &mut Vec<u64>, work: &mut WorkCounters, budget: WorkBudget) -> (r:
    Result<(), ExtentMutationFailure>)
    requires
        never_descends(old(values)@),
        old(values)@.len() > 0,
    ensures
        match r {
            Ok(()) => numbers_ascend(final(values)@) && final(values)@.len() <= old(values)@.len()
                && final(values)@.len() > 0 && (forall|v: u64| #[trigger]
                final(values)@.contains(v) == old(values)@.contains(v)) && grew(
                *old(work),
                *final(work),
                old(values)@.len() as int,
                0,
                0,
                0,
            ) && within(*final(work), budget),
            Err(failure) => failure.error is Work && !roomy(
                *old(work),
                old(values)@.len() as int,
                0,
                0,
                0,
                budget,
            ),
        },
{
    let ghost given = values@;
    if let Err(failure) = charge_items(work, budget, values.len() as u64) {
        return Err(failure);
    }
    let mut kept: Vec<u64> = Vec::new();
    kept.push(values[0]);
    let mut read: usize = 1;
    proof {
        assert(given.take(1) =~= seq![given[0]]);
        assert(kept@ =~= seq![given[0]]);
    }
    while read < values.len()
        invariant
            1 <= read <= given.len(),
            values@ == given,
            never_descends(given),
            0 < kept@.len() <= read,
            numbers_ascend(kept@),
            kept@.last() == given[read - 1],
            forall|i: int| 0 <= i < read ==> kept@.contains(#[trigger] given[i]),
            forall|i: int| 0 <= i < kept@.len() ==> given.contains(#[trigger] kept@[i]),
        decreases given.len() - read,
    {
        let value = values[read];
        let ghost before = kept@;
        assert(given[read - 1] <= given[read as int]);
        if value != kept[kept.len() - 1] {
            kept.push(value);
            proof {
                assert forall|i: int, j: int| 0 <= i < j < kept@.len() implies (#[trigger] kept@[i])
                    < (#[trigger] kept@[j]) by {
                    if j == before.len() && i < before.len() - 1 {
                        assert(before[i] < before[before.len() - 1]);
                    }
                }
                assert(kept@[before.len() as int] == value);
            }
        }
        proof {
            assert forall|i: int| 0 <= i < read + 1 implies kept@.contains(#[trigger] given[i]) by {
                if i < read {
                    let k = before.index_of(given[i]);
                    assert(kept@[k] == given[i]);
                } else {
                    assert(kept@[kept@.len() - 1] == given[i]);
                }
            }
            assert forall|i: int| 0 <= i < kept@.len() implies given.contains(
                #[trigger] kept@[i],
            ) by {
                if i < before.len() {
                    assert(kept@[i] == before[i]);
                }
            }
        }
        read = read + 1;
    }
    proof {
        let now = kept@;
        assert forall|v: u64| #[trigger] now.contains(v) == given.contains(v) by {
            if now.contains(v) {
                let k = now.index_of(v);
                assert(given.contains(now[k]));
            }
            if given.contains(v) {
                let k = given.index_of(v);
                assert(now.contains(given[k]));
            }
        }
    }
    *values = kept;
    Ok(())
}

/// Finds a number among ascending ones.
fn coordinate_index(values: &Vec<u64>, target: u64, work: &mut WorkCounters, budget: WorkBudget) -> (r:
    Result<usize, ExtentMutationFailure>)
    requires
        numbers_ascend(values@),
        values@.contains(target),
    ensures
        match r {
            Ok(i) => i < values@.len() && values@[i as int] == target && grew(
                *old(work),
                *final(work),
                values@.len() as int,
                0,
                0,
                0,
            ) && within(*final(work), budget),
            Err(failure) => failure.error is Work && !roomy(
                *old(work),
                values@.len() as int,
                0,
                0,
                0,
                budget,
            ),
        },
{
    let ghost wanted = values@.index_of(target);
    assert(values@[wanted] == target);
    let mut left: usize = 0;
    let mut right: usize = values.len();
    while left < right
        invariant
            left <= wanted < right <= values@.len(),
            numbers_ascend(values@),
            values@[wanted] == target,
            grew(*old(work), *work, values@.len() - (right - left), 0, 0, 0),
            right - left < values@.len() ==> within(*work, budget),
        decreases right - left,
    {
        if let Err(failure) = charge_items(work, budget, 1) {
            return Err(failure);
        }
        let middle: usize = left + (right - left) / 2;
        if values[middle] == target {
            return Ok(middle);
        }
        if values[middle] < target {
            left = middle + 1;
        } else {
            right = middle;
        }
    }
    Ok(left)
}

/// Whether links lead over intervals that have been assigned, and only over those.
spec fn linked(parents: Seq<usize>, assigned: Seq<Option<usize>>) -> bool {
    &&& parents.len() == assigned.len() + 1
    &&& forall|i: int|
        0 <= i < parents.len() ==> i <= (#[trigger] parents[i]) <= assigned.len()
    &&& forall|i: int|
        0 <= i < assigned.len() && (#[trigger] parents[i]) == i ==> assigned[i] is None
    &&& forall|i: int, j: int|
        #![trigger parents[i], assigned[j]]
        0 <= i < parents.len() && i <= j < parents[i] ==> assigned[j] is Some
}

/// The first interval from a position on that has not been assigned. Links on the way
/// are drawn straight to it.
fn find_next(
    parents: &mut Vec<usize>,
    start: usize,
    work: &mut WorkCounters,
    budget: WorkBudget,
    Ghost(assigned): Ghost<Seq<Option<usize>>>,
) -> (r: Result<usize, ExtentMutationFailure>)
    requires
        linked(old(parents)@, assigned),
        start <= assigned.len(),
    ensures
        match r {
            Ok(root) => linked(final(parents)@, assigned) && start <= root <= assigned.len()
                && final(parents)@[root as int] == root && (forall|j: int|
                start <= j < root ==> (#[trigger] assigned[j]) is Some) && grew(
                *old(work),
                *final(work),
                2 * assigned.len() as int,
                0,
                0,
                0,
            ) && (within(*old(work), budget) ==> within(*final(work), budget)),
            Err(failure) => failure.error is Work && !roomy(
                *old(work),
                2 * assigned.len() as int,
                0,
                0,
                0,
                budget,
            ),
        },
{
    let ghost n = assigned.len();
    let mut root: usize = start;
    while parents[root] != root
        invariant
            parents@ == old(parents)@,
            linked(parents@, assigned),
            n == assigned.len(),
            start <= root <= n,
            forall|j: int| start <= j < root ==> (#[trigger] assigned[j]) is Some,
            grew(*old(work), *work, root - start, 0, 0, 0),
            within(*old(work), budget) ==> within(*work, budget),
        decreases n - root,
    {
        if let Err(failure) = charge_items(work, budget, 1) {
            return Err(failure);
        }
        let next = parents[root];
        assert forall|j: int| start <= j < next implies (#[trigger] assigned[j]) is Some by {
            assert(parents@[root as int] == next);
        }
        root = next;
    }
    let mut current: usize = start;
    while parents[current] != current
        invariant
            linked(parents@, assigned),
            n == assigned.len(),
            start <= current <= root <= n,
            parents@[root as int] == root,
            forall|j: int| start <= j < root ==> (#[trigger] assigned[j]) is Some,
            grew(*old(work), *work, n + (current - start), 0, 0, 0),
            within(*old(work), budget) ==> within(*work, budget),
        decreases n - current,
    {
        if let Err(failure) = charge_items(work, budget, 1) {
            return Err(failure);
        }
        let next = parents[current];
        let ghost before = parents@;
        proof {
            if root < next {
                assert(root < n);
                assert(assigned[root as int] is None);
                assert(before[current as int] == next);
            }
            assert(current < root);
        }
        parents.set(current, root);
        proof {
            assert forall|i: int, j: int|
                #![trigger parents@[i], assigned[j]]
                0 <= i < parents@.len() && i <= j < parents@[i] implies assigned[j] is Some by {
                if i != current {
                    assert(before[i] == parents@[i]);
                }
            }
        }
        current = next;
    }
    Ok(root)
}

/// Whether an interval is assigned to the last of the patches from a position on that
/// holds its first byte.
spec fn settled(
    runs: Seq<PatchView>,
    values: Seq<u64>,
    from: int,
    k: int,
    assigned: Option<usize>,
) -> bool {
    match assigned {
        Some(i) => from <= i < runs.len() && covers(runs[i as int], values[k] as int) && forall|
            j: int,
        |
            i < j < runs.len() ==> !covers(#[trigger] runs[j], values[k] as int),
        None => forall|j: int|
            from <= j < runs.len() ==> !covers(#[trigger] runs[j], values[k] as int),
    }
}

/// Whether all intervals are assigned as far as the patches from a position on go.
spec fn all_settled(
    runs: Seq<PatchView>,
    values: Seq<u64>,
    from: int,
    assigned: Seq<Option<usize>>,
) -> bool {
    forall|k: int|
        0 <= k < assigned.len() ==> settled(runs, values, from, k, #[trigger] assigned[k])
}

/// A patch holds the first bytes of the intervals between its bounds, and of no others.
proof fn lemma_interval_covered(
    runs: Seq<PatchView>,
    size: u64,
    values: Seq<u64>,
    i: int,
    left: int,
    right: int,
    k: int,
)
    requires
        numbers_ascend(values),
        forall|j: int| 0 <= j < values.len() ==> (#[trigger] values[j]) <= size,
        0 <= i < runs.len(),
        run_fits(runs[i]),
        runs[i].offset < size,
        0 <= left < values.len(),
        values[left] == runs[i].offset,
        0 <= right < values.len(),
        values[right] == (if runs[i].end < size {
            runs[i].end
        } else {
            size
        }),
        0 <= k,
        k + 1 < values.len(),
    ensures
        covers(runs[i], values[k] as int) == (left <= k < right),
{
    assert(values[k] < values[k + 1]);
    assert(values[k + 1] <= size);
    if k < left {
        assert(values[k] < values[left]);
    } else if left < k {
        assert(values[left] < values[k]);
    }
    if k < right {
        assert(values[k] < values[right]);
    } else if right < k {
        assert(values[right] < values[k]);
    }
}

/// Items that assigning one patch takes at most: two searches for its bounds, and for
/// every interval a search for the next.
pub open spec fn patch_items(bounds: int) -> int {
    1 + 4 * bounds + bounds * (1 + 2 * bounds)
}

/// Items that assigning intervals takes at most.
pub open spec fn assign_items(patches: int, bounds: int) -> int {
    2 * bounds + patches * patch_items(bounds)
}

/// Assigns every interval to the last patch that holds it.
fn assign_intervals(
    raw: &Vec<Patch>,
    size: u64,
    values: &Vec<u64>,
    work: &mut WorkCounters,
    budget: WorkBudget,
    live: &mut u64,
) -> (r: Result<Vec<Option<usize>>, ExtentMutationFailure>)
    requires
        runs_fit(views(raw@)),
        numbers_ascend(values@),
        values@.len() > 0,
        bounds_listed(views(raw@), size, values@, raw@.len() as int),
        forall|i: int| 0 <= i < values@.len() ==> (#[trigger] values@[i]) <= size,
        *old(live) + 16 * (values@.len() - 1) + 8 * values@.len() <= u64::MAX,
    ensures
        match r {
            Ok(assigned) => assigned@.len() == values@.len() - 1 && all_settled(
                views(raw@),
                values@,
                0,
                assigned@,
            ) && *final(live) == *old(live) + 16 * (values@.len() - 1) + 8 * values@.len()
                && within(*final(work), budget) && grew(
                *old(work),
                *final(work),
                assign_items(raw@.len() as int, values@.len() as int),
                0,
                2,
                *final(live) as int,
            ),
            Err(failure) => failure.error is Work && !roomy(
                *old(work),
                assign_items(raw@.len() as int, values@.len() as int),
                0,
                2,
                *old(live) + 16 * (values@.len() - 1) + 8 * values@.len(),
                budget,
            ),
        },
{
    let ghost all = views(raw@);
    let ghost bounds = values@.len() as int;
    let ghost each = patch_items(bounds);
    let ghost most = assign_items(raw@.len() as int, bounds);
    let ghost step = 1 + 2 * bounds;
    let count = values.len() - 1;
    proof {
        assert(bounds * step >= 0) by (nonlinear_arith)
            requires
                bounds >= 0,
                step >= 0,
        ;
        assert(raw@.len() * each >= 0) by (nonlinear_arith)
            requires
                each >= 0,
        ;
    }
    if let Err(failure) = allocate(count, ASSIGNMENT_BYTES, work, budget, live) {
        return Err(failure);
    }
    if let Err(failure) = charge_items(work, budget, count as u64) {
        return Err(failure);
    }
    let mut assigned: Vec<Option<usize>> = Vec::new();
    if let Err(failure) = allocate(count + 1, COORDINATE_BYTES, work, budget, live) {
        return Err(failure);
    }
    if let Err(failure) = charge_items(work, budget, count as u64 + 1) {
        return Err(failure);
    }
    let mut parents: Vec<usize> = Vec::new();
    while assigned.len() < count
        invariant
            assigned@.len() <= count,
            parents@.len() == assigned@.len(),
            forall|i: int| 0 <= i < assigned@.len() ==> (#[trigger] assigned@[i]) is None,
            forall|i: int| 0 <= i < parents@.len() ==> (#[trigger] parents@[i]) == i,
        decreases count - assigned@.len(),
    {
        let next = parents.len();
        assigned.push(None);
        parents.push(next);
    }
    parents.push(count);
    let mut index: usize = raw.len();
    while index > 0
        invariant
            index <= raw@.len(),
            all == views(raw@),
            runs_fit(all),
            numbers_ascend(values@),
            count + 1 == values@.len(),
            assigned@.len() == count,
            bounds_listed(all, size, values@, all.len() as int),
            forall|i: int| 0 <= i < values@.len() ==> (#[trigger] values@[i]) <= size,
            linked(parents@, assigned@),
            all_settled(all, values@, index as int, assigned@),
            bounds == values@.len(),
            each == patch_items(bounds),
            each >= 0,
            step == 1 + 2 * bounds,
            most == assign_items(raw@.len() as int, bounds),
            grew(
                *old(work),
                *work,
                2 * bounds + (raw@.len() - index) * each,
                0,
                2,
                *live as int,
            ),
            *live == *old(live) + 16 * (bounds - 1) + 8 * bounds,
            within(*work, budget),
        decreases index,
    {
        proof {
            let done = raw@.len() - index;
            assert((done + 1) * each == done * each + each) by (nonlinear_arith);
            assert((done + 1) * each <= raw@.len() * each) by (nonlinear_arith)
                requires
                    done + 1 <= raw@.len(),
                    each >= 0,
            ;
        }
        let ghost entered = *work;
        index = index - 1;
        if let Err(failure) = charge_items(work, budget, 1) {
            return Err(failure);
        }
        let ghost patch = all[index as int];
        assert(patch == raw@[index as int]@);
        assert(run_fits(patch));
        let start = if raw[index].offset < size {
            raw[index].offset
        } else {
            size
        };
        let end = if raw[index].end < size {
            raw[index].end
        } else {
            size
        };
        if start < end {
            let left = match coordinate_index(values, start, work, budget) {
                Ok(left) => left,
                Err(failure) => {
                    return Err(failure);
                },
            };
            let right = match coordinate_index(values, end, work, budget) {
                Ok(right) => right,
                Err(failure) => {
                    return Err(failure);
                },
            };
            let mut interval = match find_next(&mut parents, left, work, budget, Ghost(assigned@)) {
                Ok(interval) => interval,
                Err(failure) => {
                    return Err(failure);
                },
            };
            proof {
                assert forall|k: int| 0 <= k < count && left <= k < interval implies settled(
                    all,
                    values@,
                    index as int,
                    k,
                    #[trigger] assigned@[k],
                ) by {
                    assert(settled(all, values@, index + 1, k, assigned@[k]));
                }
            }
            let ghost first = interval as int;
            proof {
                assert((interval - first) * step == 0) by (nonlinear_arith)
                    requires
                        interval == first,
                ;
            }
            while interval < right
                invariant
                    within(*work, budget),
                    bounds == values@.len(),
                    step == 1 + 2 * bounds,
                    0 <= first <= interval,
                    grew(
                        entered,
                        *work,
                        1 + 2 * bounds + 2 * bounds + (interval - first) * step,
                        0,
                        0,
                        0,
                    ),
                    each == 1 + 4 * bounds + bounds * step,
                    entered.items_examined + each <= old(work).items_examined + most,
                    grew(*old(work), entered, most, 0, 2, *live as int),
                    *live == *old(live) + 16 * (bounds - 1) + 8 * bounds,
                    most == assign_items(raw@.len() as int, bounds),
                    index < all.len(),
                    right <= count,
                    count + 1 == values@.len(),
                    assigned@.len() == count,
                    left <= interval <= count,
                    numbers_ascend(values@),
                    linked(parents@, assigned@),
                    parents@[interval as int] == interval,
                    forall|j: int| left <= j < interval ==> (#[trigger] assigned@[j]) is Some,
                    forall|k: int|
                        0 <= k < count && left <= k < interval && k < right ==> settled(
                            all,
                            values@,
                            index as int,
                            k,
                            #[trigger] assigned@[k],
                        ),
                    forall|k: int|
                        0 <= k < count ==> settled(
                            all,
                            values@,
                            index + 1,
                            k,
                            #[trigger] assigned@[k],
                        ) || (left <= k < interval && k < right),
                    forall|k: int|
                        left <= k < right && k < count ==> covers(
                            all[index as int],
                            #[trigger] values@[k] as int,
                        ),
                decreases count - interval,
            {
                proof {
                    let taken = interval - first;
                    assert((taken + 1) * step == taken * step + step) by (nonlinear_arith);
                    assert((taken + 1) * step <= bounds * step) by (nonlinear_arith)
                        requires
                            taken + 1 <= bounds,
                            step >= 0,
                    ;
                }
                if let Err(failure) = charge_items(work, budget, 1) {
                    return Err(failure);
                }
                let successor = match find_next(
                    &mut parents,
                    interval + 1,
                    work,
                    budget,
                    Ghost(assigned@),
                ) {
                    Ok(successor) => successor,
                    Err(failure) => {
                        return Err(failure);
                    },
                };
                proof {
                    let taken = interval - first;
                    let next = successor - first;
                    assert((taken + 1) * step <= next * step) by (nonlinear_arith)
                        requires
                            taken + 1 <= next,
                            step >= 0,
                    ;
                }
                let ghost before = assigned@;
                let ghost links = parents@;
                proof {
                    assert(before[interval as int] is None) by {
                        assert(settled(all, values@, index + 1, interval as int, before[interval as int]));
                        assert(links[interval as int] == interval);
                    }
                }
                assigned.set(interval, Some(index));
                parents.set(interval, successor);
                proof {
                    assert forall|i: int, j: int|
                        #![trigger parents@[i], assigned@[j]]
                        0 <= i < parents@.len() && i <= j < parents@[i] implies assigned@[j] is Some by {
                        if j != interval {
                            assert(assigned@[j] == before[j]);
                            if i != interval {
                                assert(parents@[i] == links[i]);
                            }
                        }
                    }
                    assert forall|i: int|
                        0 <= i < assigned@.len() && (#[trigger] parents@[i]) == i implies assigned@[i] is None by {
                        assert(i != interval);
                        assert(parents@[i] == links[i]);
                        assert(assigned@[i] == before[i]);
                    }
                    assert(covers(all[index as int], values@[interval as int] as int));
                    assert(settled(all, values@, index as int, interval as int, assigned@[interval as int]));
                    assert forall|k: int|
                        0 <= k < count && left <= k < successor && k < right implies settled(
                        all,
                        values@,
                        index as int,
                        k,
                        #[trigger] assigned@[k],
                    ) by {
                        if k != interval {
                            assert(assigned@[k] == before[k]);
                        }
                    }
                    assert forall|k: int| 0 <= k < count implies settled(
                        all,
                        values@,
                        index + 1,
                        k,
                        #[trigger] assigned@[k],
                    ) || (left <= k < successor && k < right) by {
                        if k != interval {
                            assert(assigned@[k] == before[k]);
                        }
                    }
                }
                interval = successor;
            }
            proof {
                let taken = interval - first;
                assert(taken * step <= bounds * step) by (nonlinear_arith)
                    requires
                        taken <= bounds,
                        step >= 0,
                ;
                assert forall|k: int| 0 <= k < assigned@.len() implies settled(
                    all,
                    values@,
                    index as int,
                    k,
                    #[trigger] assigned@[k],
                ) by {
                    lemma_interval_covered(
                        all,
                        size,
                        values@,
                        index as int,
                        left as int,
                        right as int,
                        k,
                    );
                }
            }
        } else {
            proof {
                assert forall|k: int| 0 <= k < assigned@.len() implies settled(
                    all,
                    values@,
                    index as int,
                    k,
                    #[trigger] assigned@[k],
                ) by {
                    assert(settled(all, values@, index + 1, k, assigned@[k]));
                    assert(values@[k] < values@[k + 1]);
                    assert(!covers(all[index as int], values@[k] as int));
                }
            }
        }
    }
    Ok(assigned)
}

/// Items that putting raw patches in order takes at most.
pub open spec fn normalize_items(patches: int) -> int {
    patches + 34 * patches + assign_items(patches, 2 * patches) + 2 * patches
}

proof fn lemma_items_ascend(patches: int, bounds: int, more: int)
    requires
        0 <= patches,
        0 <= bounds <= more,
    ensures
        0 <= assign_items(patches, bounds) <= assign_items(patches, more),
{
    let a = patch_items(bounds);
    let b = patch_items(more);
    assert(0 <= bounds * (1 + 2 * bounds) <= more * (1 + 2 * more)) by (nonlinear_arith)
        requires
            0 <= bounds <= more,
    ;
    assert(0 <= patches * a <= patches * b) by (nonlinear_arith)
        requires
            0 <= patches,
            0 <= a <= b,
    ;
}

/// Disjoint patches that say of every byte within a size what raw ones say, with the
/// patches that room was made for.
fn normalize_raw_patches(
    raw: &Vec<Patch>,
    final_size: u64,
    work: &mut WorkCounters,
    budget: WorkBudget,
    live: &mut u64,
) -> (r: Result<(Vec<Patch>, usize), ExtentMutationFailure>)
    requires
        runs_fit(views(raw@)),
        raw@.len() > 0,
        64 * (2 * raw@.len() - 1) <= usize::MAX,
        scratch_bytes(raw@.len()) <= u64::MAX,
        *old(live) == 64 * raw@.len(),
    ensures
        match r {
            Ok((patches, room)) => {
                &&& runs_disjoint(views(patches@))
                &&& runs_joined(views(patches@))
                &&& patches@.len() <= room < 2 * raw@.len()
                &&& within(*final(work), budget)
                &&& forall|i: int|
                    0 <= i < patches@.len() ==> (#[trigger] views(patches@)[i]).end <= final_size
                &&& forall|x: int|
                    0 <= x < final_size ==> #[trigger] patched_at(views(patches@), x) == patched_at(
                        views(raw@),
                        x,
                    )
                &&& grew(
                    *old(work),
                    *final(work),
                    normalize_items(raw@.len() as int),
                    128 * raw@.len() as int,
                    5,
                    scratch_bytes(raw@.len()),
                )
            },
            Err(failure) => failure.error is Work && !roomy(
                *old(work),
                normalize_items(raw@.len() as int),
                128 * raw@.len() as int,
                5,
                scratch_bytes(raw@.len()),
                budget,
            ),
        },
{
    let ghost all = views(raw@);
    let ghost n = raw@.len() as int;
    let ghost most = normalize_items(n);
    proof {
        lemma_items_ascend(n, 0, 2 * n);
    }
    if let Err(failure) = allocate(raw.len() * 2, COORDINATE_BYTES, work, budget, live) {
        return Err(failure);
    }
    let mut values = match coordinates_of(raw, final_size, work, budget) {
        Ok(values) => values,
        Err(failure) => {
            return Err(failure);
        },
    };
    let mut result: Vec<Patch> = Vec::new();
    assert(views(result@) =~= Seq::<PatchView>::empty());
    if values.len() == 0 {
        proof {
            assert forall|x: int| 0 <= x < final_size implies #[trigger] patched_at(
                views(result@),
                x,
            ) == patched_at(all, x) by {
                assert forall|j: int| 0 <= j < all.len() implies !covers(#[trigger] all[j], x) by {
                    if all[j].offset < final_size {
                        assert(values@.contains(all[j].offset));
                    }
                }
                lemma_run_none(all, x, all.len());
            }
        }
        return Ok((result, 0));
    }
    proof {
        lemma_items_ascend(n, values@.len() as int, 2 * n);
    }
    if let Err(failure) = allocate(values.len(), COORDINATE_BYTES, work, budget, live) {
        return Err(failure);
    }
    let ghost listed = values@;
    if let Err(failure) = radix_sort(&mut values, work, budget) {
        return Err(failure);
    }
    if let Err(failure) = deduplicate_coordinates(&mut values, work, budget) {
        return Err(failure);
    }
    proof {
        assert forall|v: u64| #[trigger] values@.contains(v) == listed.contains(v) by {}
        assert forall|i: int| 0 <= i < values@.len() implies (#[trigger] values@[i])
            <= final_size by {
            assert(values@.contains(values@[i]));
        }
        assert(bounds_listed(all, final_size, values@, all.len() as int));
        lemma_items_ascend(n, values@.len() as int, 2 * n);
    }
    let ghost entered = *work;
    let assigned = match assign_intervals(raw, final_size, &values, work, budget, live) {
        Ok(assigned) => assigned,
        Err(failure) => {
            return Err(failure);
        },
    };
    let count = assigned.len();
    if let Err(failure) = allocate(count, PATCH_LOGICAL_BYTES, work, budget, live) {
        return Err(failure);
    }
    let mut k: usize = 0;
    while k < count
        invariant
            k <= count,
            count + 1 == values@.len(),
            assigned@.len() == count,
            all == views(raw@),
            runs_fit(all),
            numbers_ascend(values@),
            bounds_listed(all, final_size, values@, all.len() as int),
            all_settled(all, values@, 0, assigned@),
            forall|i: int| 0 <= i < values@.len() ==> (#[trigger] values@[i]) <= final_size,
            runs_disjoint(views(result@)),
            runs_joined(views(result@)),
            result@.len() <= k,
            within(*work, budget),
            result@.len() > 0 ==> views(result@).last().end <= values@[k as int],
            forall|i: int|
                0 <= i < result@.len() ==> (#[trigger] views(result@)[i]).end <= final_size,
            forall|x: int|
                values@[0] <= x < values@[k as int] ==> #[trigger] patched_at(views(result@), x)
                    == patched_at(all, x),
            forall|x: int|
                x < values@[0] || x >= values@[k as int] ==> #[trigger] patched_at(
                    views(result@),
                    x,
                ) is None,
            n == raw@.len(),
            count <= 2 * n - 1,
            most == normalize_items(n),
            grew(
                *old(work),
                *work,
                n + 34 * n + assign_items(n, 2 * n) + k,
                128 * n,
                5,
                scratch_bytes(n as nat),
            ),
        decreases count - k,
    {
        if let Err(failure) = charge_items(work, budget, 1) {
            return Err(failure);
        }
        let low = values[k];
        let high = values[k + 1];
        let ghost before = views(result@);
        assert(low < high);
        assert(settled(all, values@, 0, k as int, assigned@[k as int]));
        match assigned[k] {
            None => {
                assert forall|x: int| low <= x < high implies #[trigger] patched_at(before, x)
                    == patched_at(all, x) by {
                    assert forall|j: int| 0 <= j < all.len() implies !covers(#[trigger] all[j], x) by {
                        lemma_elementary(all, final_size, values@, k as int, j, x);
                    }
                    lemma_run_none(all, x, all.len());
                }
            },
            Some(at) => {
                let source = raw[at];
                assert(all[at as int] == source@);
                proof {
                    lemma_elementary(all, final_size, values@, k as int, at as int, high - 1);
                    assert(run_fits(all[at as int]));
                }
                let piece = Patch {
                    offset: low,
                    end: high,
                    kind: offset_kind(&source.kind, low - source.offset),
                };
                assert(run_fits(piece@));
                push_run(&mut result, piece);
                assert forall|x: int| low <= x < high implies #[trigger] patched_at(
                    views(result@),
                    x,
                ) == patched_at(all, x) by {
                    lemma_elementary(all, final_size, values@, k as int, at as int, x);
                    assert forall|j: int| at < j < all.len() implies !covers(#[trigger] all[j], x) by {
                        lemma_elementary(all, final_size, values@, k as int, j, x);
                    }
                    lemma_run_at(all, x, at as int, all.len());
                }
                assert forall|i: int| 0 <= i < result@.len() implies (
                #[trigger] views(result@)[i]).end <= final_size by {
                    if i < result@.len() - 1 {
                        assert(views(result@)[i].end <= views(result@)[result@.len() - 1].offset);
                        assert(run_fits(views(result@)[result@.len() - 1]));
                    }
                }
            },
        }
        k = k + 1;
    }
    proof {
        let done = views(result@);
        assert forall|x: int| 0 <= x < final_size implies #[trigger] patched_at(done, x)
            == patched_at(all, x) by {
            if patched_at(all, x) is Some {
                let at = lemma_run_found(all, x, all.len());
                assert(all[at].offset < final_size);
                let stop = if all[at].end < final_size {
                    all[at].end
                } else {
                    final_size
                };
                let a = values@.index_of(all[at].offset);
                let b = values@.index_of(stop);
                assert(values@[a] == all[at].offset && values@[b] == stop);
                if a > 0 {
                    assert(values@[0] < values@[a]);
                }
                if b < values@.len() - 1 {
                    assert(values@[b] < values@[values@.len() - 1]);
                }
            }
        }
    }
    Ok((result, count))
}

/// A compiled batch of mutations.
#[derive(Debug)]
pub struct CompiledPatchPlan {
    /// Ascending disjoint patches.
    pub patches: Vec<Patch>,
    /// Logical size after the batch.
    pub final_size: u64,
    /// Work of compiling.
    pub work: WorkCounters,
    /// Logical bytes that the patches take.
    pub live_allocation_bytes: u64,
}

/// Whether a plan stands for a batch: laid over the old file, its patches give what
/// replaying the mutations one after another gives.
pub open spec fn plan_stands(
    plan: CompiledPatchPlan,
    old_size: u64,
    mutations: Seq<ExtentMutationView>,
) -> bool {
    &&& plan.final_size == replay_size(old_size, mutations, mutations.len())
    &&& runs_disjoint(views(plan.patches@))
    &&& runs_joined(views(plan.patches@))
    &&& forall|i: int|
        0 <= i < plan.patches@.len() ==> (#[trigger] views(plan.patches@)[i]).end <= plan.final_size
    &&& tells_replay(views(plan.patches@), old_size, mutations, mutations.len())
}

/// Why a batch is refused before it is compiled: it does not fit the file or the budget,
/// or has no room for its scratch buffers.
pub open spec fn compile_refused(
    old_size: u64,
    mutations: Seq<ExtentMutationView>,
    budget: WorkBudget,
) -> Option<PlanFailing> {
    match admitted(old_size, mutations, mutations.len(), budget) {
        Err(failing) => Some(failing),
        Ok(work) => {
            let raw = raw_count(old_size, mutations, mutations.len());
            if raw == 0 {
                None
            } else {
                scratch_refused(raw, work, budget)
            }
        },
    }
}

/// Whether a budget leaves room for compiling some mutations that come to some raw
/// patches.
pub open spec fn compile_roomy(mutations: int, raw: nat, budget: WorkBudget) -> bool {
    roomy(
        no_work(),
        2 * mutations + normalize_items(raw as int),
        128 * raw as int,
        6,
        scratch_bytes(raw),
        budget,
    )
}

/// Whether work is no more than compiling some mutations that come to some raw patches
/// takes.
pub open spec fn compile_work(mutations: int, raw: nat, work: WorkCounters) -> bool {
    grew(
        no_work(),
        work,
        2 * mutations + normalize_items(raw as int),
        128 * raw as int,
        6,
        scratch_bytes(raw),
    )
}

/// Compiles mutations to disjoint patches.
///
/// A batch that is not refused is compiled under every budget that leaves room for it.
pub fn compile_patch_plan(old_size: u64, mutations: &Vec<ExtentMutation>, budget: WorkBudget) -> (r: Result<
    CompiledPatchPlan,
    ExtentMutationFailure,
>)
    ensures
        match compile_refused(old_size, views(mutations@), budget) {
            Some(failing) => r matches Err(failure) && plan_failure_is(failure, failing),
            None => match r {
                Ok(plan) => plan_stands(plan, old_size, views(mutations@)) && (mutations@.len() > 0
                    ==> within(plan.work, budget)) && 64 * plan.patches@.len()
                    <= plan.live_allocation_bytes <= 128 * raw_count(
                    old_size,
                    views(mutations@),
                    mutations@.len(),
                ) && compile_work(
                    mutations@.len() as int,
                    raw_count(old_size, views(mutations@), mutations@.len()),
                    plan.work,
                ),
                Err(failure) => failure.error is Work && !compile_roomy(
                    mutations@.len() as int,
                    raw_count(old_size, views(mutations@), mutations@.len()),
                    budget,
                ),
            },
        },
{
    let ghost all = views(mutations@);
    let (final_size, raw_size, admission) = match admit_patch_plan(old_size, mutations, budget) {
        Ok(plan) => plan,
        Err(failure) => {
            return Err(failure);
        },
    };
    let mut work = admission;
    proof {
        lemma_admitted_fits(old_size, all, all.len(), budget);
        lemma_admitted_items(old_size, all, all.len(), budget);
        lemma_items_ascend(raw_size as int, 0, 2 * raw_size);
    }
    if raw_size == 0 {
        let patches: Vec<Patch> = Vec::new();
        proof {
            lemma_nothing_to_do(old_size, all, all.len());
            assert(views(patches@) =~= Seq::<PatchView>::empty());
        }
        return Ok(CompiledPatchPlan { patches, final_size, work, live_allocation_bytes: 0 });
    }
    if let Err(failure) = reserve_compile_scratch(raw_size, work, budget) {
        return Err(failure);
    }
    let mut live: u64 = 0;
    if let Err(failure) = allocate(raw_size, PATCH_LOGICAL_BYTES, &mut work, budget, &mut live) {
        return Err(failure);
    }
    let raw = match raw_patches(old_size, mutations, &mut work, budget) {
        Ok(raw) => raw,
        Err(failure) => {
            return Err(failure);
        },
    };
    let (patches, room) = match normalize_raw_patches(
        &raw,
        final_size,
        &mut work,
        budget,
        &mut live,
    ) {
        Ok(made) => made,
        Err(failure) => {
            return Err(failure);
        },
    };
    proof {
        assert forall|old: spec_fn(int) -> ByteView, x: int|
            #![trigger replay_byte(old, old_size, all, all.len(), x)]
            0 <= x < replay_size(old_size, all, all.len()) implies match patched_at(
            views(patches@),
            x,
        ) {
            Some(byte) => replay_byte(old, old_size, all, all.len(), x) == byte,
            None => x < old_size && replay_byte(old, old_size, all, all.len(), x) == old(x),
        } by {
            assert(patched_at(views(patches@), x) == patched_at(views(raw@), x));
        }
    }
    let live_allocation_bytes: u64 = room as u64 * PATCH_LOGICAL_BYTES;
    Ok(CompiledPatchPlan { patches, final_size, work, live_allocation_bytes })
}

/// A batch without a raw patch leaves the file as it is.
proof fn lemma_nothing_to_do(old_size: u64, mutations: Seq<ExtentMutationView>, count: nat)
    requires
        raw_count(old_size, mutations, count) == 0,
    ensures
        replay_size(old_size, mutations, count) == old_size,
        tells_replay(Seq::<PatchView>::empty(), old_size, mutations, count),
    decreases count,
{
    let none = Seq::<PatchView>::empty();
    if count > 0 {
        lemma_nothing_to_do(old_size, mutations, (count - 1) as nat);
    }
    assert forall|old: spec_fn(int) -> ByteView, x: int|
        #![trigger replay_byte(old, old_size, mutations, count, x)]
        0 <= x < replay_size(old_size, mutations, count) implies match patched_at(none, x) {
        Some(byte) => replay_byte(old, old_size, mutations, count, x) == byte,
        None => x < old_size && replay_byte(old, old_size, mutations, count, x) == old(x),
    } by {
        if count > 0 {
            assert(replay_byte(old, old_size, mutations, (count - 1) as nat, x) == old(x));
        }
    }
}

} // verus!
