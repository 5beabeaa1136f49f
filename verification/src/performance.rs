//! Exact work accounting.

use vstd::prelude::*;

verus! {

/// Exact work of one operation. All counters add up, except the peak of live
/// logical allocations, of which the larger one stands.
#[derive(Clone, Copy, Debug, PartialEq, Eq, Structural)]
pub struct WorkCounters {
    /// Authenticated pages read.
    pub page_reads: u64,
    /// Authenticated pages written.
    pub page_writes: u64,
    /// Keys, spans or slots looked at.
    pub items_examined: u64,
    /// Results handed out.
    pub items_returned: u64,
    /// Bytes copied between buffers.
    pub bytes_copied: u64,
    /// Canonical bytes produced.
    pub bytes_encoded: u64,
    /// Bytes fed to a digest.
    pub bytes_hashed: u64,
    /// Bytes taken from a source.
    pub source_bytes_read: u64,
    /// Bytes of immutable objects read.
    pub object_bytes_read: u64,
    /// Bytes handed out.
    pub output_bytes: u64,
    /// Logical allocations.
    pub allocation_operations: u64,
    /// Largest number of live logical bytes.
    pub peak_allocation_bytes: u64,
}

/// Largest work that an operation may spend, counter by counter.
#[derive(Clone, Copy, Debug, PartialEq, Eq, Structural)]
pub struct WorkBudget {
    /// Authenticated pages read.
    pub page_reads: u64,
    /// Authenticated pages written.
    pub page_writes: u64,
    /// Keys, spans or slots looked at.
    pub items_examined: u64,
    /// Results handed out.
    pub items_returned: u64,
    /// Bytes copied between buffers.
    pub bytes_copied: u64,
    /// Canonical bytes produced.
    pub bytes_encoded: u64,
    /// Bytes fed to a digest.
    pub bytes_hashed: u64,
    /// Bytes taken from a source.
    pub source_bytes_read: u64,
    /// Bytes of immutable objects read.
    pub object_bytes_read: u64,
    /// Bytes handed out.
    pub output_bytes: u64,
    /// Logical allocations.
    pub allocation_operations: u64,
    /// Largest number of live logical bytes.
    pub peak_allocation_bytes: u64,
}

/// Work accounting failures.
#[derive(Clone, Copy, Debug, PartialEq, Eq, Structural)]
pub enum WorkError {
    /// A counter cannot be represented.
    Overflow,
    /// A counter exceeds its budget.
    Exceeded,
}

/// No work.
pub open spec fn no_work() -> WorkCounters {
    WorkCounters {
        page_reads: 0,
        page_writes: 0,
        items_examined: 0,
        items_returned: 0,
        bytes_copied: 0,
        bytes_encoded: 0,
        bytes_hashed: 0,
        source_bytes_read: 0,
        object_bytes_read: 0,
        output_bytes: 0,
        allocation_operations: 0,
        peak_allocation_bytes: 0,
    }
}

/// The larger of two numbers.
pub open spec fn larger(a: u64, b: u64) -> u64 {
    if a >= b {
        a
    } else {
        b
    }
}

/// Whether two counts of work can be added.
pub open spec fn addable(a: WorkCounters, b: WorkCounters) -> bool {
    &&& a.page_reads + b.page_reads <= u64::MAX
    &&& a.page_writes + b.page_writes <= u64::MAX
    &&& a.items_examined + b.items_examined <= u64::MAX
    &&& a.items_returned + b.items_returned <= u64::MAX
    &&& a.bytes_copied + b.bytes_copied <= u64::MAX
    &&& a.bytes_encoded + b.bytes_encoded <= u64::MAX
    &&& a.bytes_hashed + b.bytes_hashed <= u64::MAX
    &&& a.source_bytes_read + b.source_bytes_read <= u64::MAX
    &&& a.object_bytes_read + b.object_bytes_read <= u64::MAX
    &&& a.output_bytes + b.output_bytes <= u64::MAX
    &&& a.allocation_operations + b.allocation_operations <= u64::MAX
}

/// The work of two operations, one after the other.
pub open spec fn added(a: WorkCounters, b: WorkCounters) -> WorkCounters {
    WorkCounters {
        page_reads: (a.page_reads + b.page_reads) as u64,
        page_writes: (a.page_writes + b.page_writes) as u64,
        items_examined: (a.items_examined + b.items_examined) as u64,
        items_returned: (a.items_returned + b.items_returned) as u64,
        bytes_copied: (a.bytes_copied + b.bytes_copied) as u64,
        bytes_encoded: (a.bytes_encoded + b.bytes_encoded) as u64,
        bytes_hashed: (a.bytes_hashed + b.bytes_hashed) as u64,
        source_bytes_read: (a.source_bytes_read + b.source_bytes_read) as u64,
        object_bytes_read: (a.object_bytes_read + b.object_bytes_read) as u64,
        output_bytes: (a.output_bytes + b.output_bytes) as u64,
        allocation_operations: (a.allocation_operations + b.allocation_operations) as u64,
        peak_allocation_bytes: larger(a.peak_allocation_bytes, b.peak_allocation_bytes),
    }
}

/// Whether work stays within a budget.
pub open spec fn within(work: WorkCounters, budget: WorkBudget) -> bool {
    &&& work.page_reads <= budget.page_reads
    &&& work.page_writes <= budget.page_writes
    &&& work.items_examined <= budget.items_examined
    &&& work.items_returned <= budget.items_returned
    &&& work.bytes_copied <= budget.bytes_copied
    &&& work.bytes_encoded <= budget.bytes_encoded
    &&& work.bytes_hashed <= budget.bytes_hashed
    &&& work.source_bytes_read <= budget.source_bytes_read
    &&& work.object_bytes_read <= budget.object_bytes_read
    &&& work.output_bytes <= budget.output_bytes
    &&& work.allocation_operations <= budget.allocation_operations
    &&& work.peak_allocation_bytes <= budget.peak_allocation_bytes
}

/// What a budget leaves after some work; the peak is not used up.
pub open spec fn left_over(work: WorkCounters, budget: WorkBudget) -> WorkBudget {
    WorkBudget {
        page_reads: (budget.page_reads - work.page_reads) as u64,
        page_writes: (budget.page_writes - work.page_writes) as u64,
        items_examined: (budget.items_examined - work.items_examined) as u64,
        items_returned: (budget.items_returned - work.items_returned) as u64,
        bytes_copied: (budget.bytes_copied - work.bytes_copied) as u64,
        bytes_encoded: (budget.bytes_encoded - work.bytes_encoded) as u64,
        bytes_hashed: (budget.bytes_hashed - work.bytes_hashed) as u64,
        source_bytes_read: (budget.source_bytes_read - work.source_bytes_read) as u64,
        object_bytes_read: (budget.object_bytes_read - work.object_bytes_read) as u64,
        output_bytes: (budget.output_bytes - work.output_bytes) as u64,
        allocation_operations: (budget.allocation_operations - work.allocation_operations) as u64,
        peak_allocation_bytes: budget.peak_allocation_bytes,
    }
}

/// Work behind a possible failure to count it.
pub open spec fn total(a: WorkCounters, b: WorkCounters) -> Result<WorkCounters, WorkError> {
    if addable(a, b) {
        Ok(added(a, b))
    } else {
        Err(WorkError::Overflow)
    }
}

/// Whether no counter of some work is above a step.
pub open spec fn small_work(work: WorkCounters, step: u64) -> bool {
    &&& work.page_reads <= step
    &&& work.page_writes <= step
    &&& work.items_examined <= step
    &&& work.items_returned <= step
    &&& work.bytes_copied <= step
    &&& work.bytes_encoded <= step
    &&& work.bytes_hashed <= step
    &&& work.source_bytes_read <= step
    &&& work.object_bytes_read <= step
    &&& work.output_bytes <= step
    &&& work.allocation_operations <= step
    &&& work.peak_allocation_bytes <= step
}

/// Whether one more step takes work past its budget or out of its counters.
pub open spec fn spent_up(work: WorkCounters, step: u64, budget: WorkBudget) -> bool {
    exists|more: WorkCounters| #[trigger]
        small_work(more, step) && !(addable(work, more) && within(added(work, more), budget))
}

/// Work that has left its budget is spent up.
pub proof fn lemma_outside_is_spent_up(work: WorkCounters, step: u64, budget: WorkBudget)
    requires
        !within(work, budget),
    ensures
        spent_up(work, step, budget),
{
    assert(small_work(no_work(), step));
    assert(added(work, no_work()) == work);
}

/// Work added and held against a budget.
pub open spec fn charged(a: WorkCounters, b: WorkCounters, budget: WorkBudget) -> Result<
    WorkCounters,
    WorkError,
> {
    if !addable(a, b) {
        Err(WorkError::Overflow)
    } else if !within(added(a, b), budget) {
        Err(WorkError::Exceeded)
    } else {
        Ok(added(a, b))
    }
}

impl Default for WorkCounters {
    fn default() -> (r: Self)
        ensures
            r == no_work(),
    {
        WorkCounters {
            page_reads: 0,
            page_writes: 0,
            items_examined: 0,
            items_returned: 0,
            bytes_copied: 0,
            bytes_encoded: 0,
            bytes_hashed: 0,
            source_bytes_read: 0,
            object_bytes_read: 0,
            output_bytes: 0,
            allocation_operations: 0,
            peak_allocation_bytes: 0,
        }
    }
}

impl WorkBudget {
    /// A budget that every representable work meets.
    pub fn unbounded() -> (r: Self)
        ensures
            forall|work: WorkCounters| #[trigger] within(work, r),
    {
        WorkBudget {
            page_reads: u64::MAX,
            page_writes: u64::MAX,
            items_examined: u64::MAX,
            items_returned: u64::MAX,
            bytes_copied: u64::MAX,
            bytes_encoded: u64::MAX,
            bytes_hashed: u64::MAX,
            source_bytes_read: u64::MAX,
            object_bytes_read: u64::MAX,
            output_bytes: u64::MAX,
            allocation_operations: u64::MAX,
            peak_allocation_bytes: u64::MAX,
        }
    }
}

impl WorkCounters {
    /// Adds up work.
    pub fn checked_add(self, other: WorkCounters) -> (r: Result<WorkCounters, WorkError>)
        ensures
            r == total(self, other),
    {
        if self.page_reads > u64::MAX - other.page_reads || self.page_writes > u64::MAX - other.page_writes || self.items_examined > u64::MAX - other.items_examined || self.items_returned > u64::MAX - other.items_returned || self.bytes_copied > u64::MAX - other.bytes_copied || self.bytes_encoded > u64::MAX - other.bytes_encoded || self.bytes_hashed > u64::MAX - other.bytes_hashed || self.source_bytes_read > u64::MAX - other.source_bytes_read || self.object_bytes_read > u64::MAX - other.object_bytes_read || self.output_bytes > u64::MAX - other.output_bytes || self.allocation_operations > u64::MAX - other.allocation_operations {
            return Err(WorkError::Overflow);
        }
        Ok(
            WorkCounters {
                page_reads: self.page_reads + other.page_reads,
                page_writes: self.page_writes + other.page_writes,
                items_examined: self.items_examined + other.items_examined,
                items_returned: self.items_returned + other.items_returned,
                bytes_copied: self.bytes_copied + other.bytes_copied,
                bytes_encoded: self.bytes_encoded + other.bytes_encoded,
                bytes_hashed: self.bytes_hashed + other.bytes_hashed,
                source_bytes_read: self.source_bytes_read + other.source_bytes_read,
                object_bytes_read: self.object_bytes_read + other.object_bytes_read,
                output_bytes: self.output_bytes + other.output_bytes,
                allocation_operations: self.allocation_operations + other.allocation_operations,
                peak_allocation_bytes: if self.peak_allocation_bytes >= other.peak_allocation_bytes {
                    self.peak_allocation_bytes
                } else {
                    other.peak_allocation_bytes
                },
            },
        )
    }

    /// Holds work against a budget.
    pub fn verify(self, budget: WorkBudget) -> (r: Result<(), WorkError>)
        ensures
            r == (if within(self, budget) {
                Ok::<(), WorkError>(())
            } else {
                Err::<(), WorkError>(WorkError::Exceeded)
            }),
    {
        if self.page_reads > budget.page_reads || self.page_writes > budget.page_writes || self.items_examined > budget.items_examined || self.items_returned > budget.items_returned || self.bytes_copied > budget.bytes_copied || self.bytes_encoded > budget.bytes_encoded || self.bytes_hashed > budget.bytes_hashed || self.source_bytes_read > budget.source_bytes_read || self.object_bytes_read > budget.object_bytes_read || self.output_bytes > budget.output_bytes || self.allocation_operations > budget.allocation_operations || self.peak_allocation_bytes > budget.peak_allocation_bytes {
            return Err(WorkError::Exceeded);
        }
        Ok(())
    }

    /// What a budget leaves after this work.
    pub fn remaining(self, budget: WorkBudget) -> (r: Result<WorkBudget, WorkError>)
        ensures
            r == (if within(self, budget) {
                Ok::<WorkBudget, WorkError>(left_over(self, budget))
            } else {
                Err::<WorkBudget, WorkError>(WorkError::Exceeded)
            }),
    {
        match self.verify(budget) {
            Err(error) => Err(error),
            Ok(()) => Ok(
                WorkBudget {
                    page_reads: budget.page_reads - self.page_reads,
                    page_writes: budget.page_writes - self.page_writes,
                    items_examined: budget.items_examined - self.items_examined,
                    items_returned: budget.items_returned - self.items_returned,
                    bytes_copied: budget.bytes_copied - self.bytes_copied,
                    bytes_encoded: budget.bytes_encoded - self.bytes_encoded,
                    bytes_hashed: budget.bytes_hashed - self.bytes_hashed,
                    source_bytes_read: budget.source_bytes_read - self.source_bytes_read,
                    object_bytes_read: budget.object_bytes_read - self.object_bytes_read,
                    output_bytes: budget.output_bytes - self.output_bytes,
                    allocation_operations: budget.allocation_operations - self.allocation_operations,
                    peak_allocation_bytes: budget.peak_allocation_bytes,
                },
            ),
        }
    }

    /// Adds work and holds the sum against a budget.
    pub fn charge(self, other: WorkCounters, budget: WorkBudget) -> (r: Result<
        WorkCounters,
        WorkError,
    >)
        ensures
            r == charged(self, other, budget),
    {
        match self.checked_add(other) {
            Err(error) => Err(error),
            Ok(sum) => match sum.verify(budget) {
                Err(error) => Err(error),
                Ok(()) => Ok(sum),
            },
        }
    }

    /// Work of one counter alone.
    pub fn of_page_reads(count: u64) -> (r: Self)
        ensures
            r == (WorkCounters { page_reads: count, ..no_work() }),
    {
        let mut r = WorkCounters::default();
        r.page_reads = count;
        r
    }

    /// Work of one counter alone.
    pub fn of_page_writes(count: u64) -> (r: Self)
        ensures
            r == (WorkCounters { page_writes: count, ..no_work() }),
    {
        let mut r = WorkCounters::default();
        r.page_writes = count;
        r
    }

    /// Work of one counter alone.
    pub fn of_items_examined(count: u64) -> (r: Self)
        ensures
            r == (WorkCounters { items_examined: count, ..no_work() }),
    {
        let mut r = WorkCounters::default();
        r.items_examined = count;
        r
    }

    /// Work of one counter alone.
    pub fn of_items_returned(count: u64) -> (r: Self)
        ensures
            r == (WorkCounters { items_returned: count, ..no_work() }),
    {
        let mut r = WorkCounters::default();
        r.items_returned = count;
        r
    }

    /// Work of one counter alone.
    pub fn of_bytes_copied(count: u64) -> (r: Self)
        ensures
            r == (WorkCounters { bytes_copied: count, ..no_work() }),
    {
        let mut r = WorkCounters::default();
        r.bytes_copied = count;
        r
    }

    /// Work of one counter alone.
    pub fn of_bytes_encoded(count: u64) -> (r: Self)
        ensures
            r == (WorkCounters { bytes_encoded: count, ..no_work() }),
    {
        let mut r = WorkCounters::default();
        r.bytes_encoded = count;
        r
    }

    /// Work of one counter alone.
    pub fn of_bytes_hashed(count: u64) -> (r: Self)
        ensures
            r == (WorkCounters { bytes_hashed: count, ..no_work() }),
    {
        let mut r = WorkCounters::default();
        r.bytes_hashed = count;
        r
    }

    /// Work of one counter alone.
    pub fn of_source_bytes_read(count: u64) -> (r: Self)
        ensures
            r == (WorkCounters { source_bytes_read: count, ..no_work() }),
    {
        let mut r = WorkCounters::default();
        r.source_bytes_read = count;
        r
    }

    /// Work of one counter alone.
    pub fn of_object_bytes_read(count: u64) -> (r: Self)
        ensures
            r == (WorkCounters { object_bytes_read: count, ..no_work() }),
    {
        let mut r = WorkCounters::default();
        r.object_bytes_read = count;
        r
    }

    /// Work of one counter alone.
    pub fn of_output_bytes(count: u64) -> (r: Self)
        ensures
            r == (WorkCounters { output_bytes: count, ..no_work() }),
    {
        let mut r = WorkCounters::default();
        r.output_bytes = count;
        r
    }

    /// Work of one counter alone.
    pub fn of_allocation_operations(count: u64) -> (r: Self)
        ensures
            r == (WorkCounters { allocation_operations: count, ..no_work() }),
    {
        let mut r = WorkCounters::default();
        r.allocation_operations = count;
        r
    }

    /// Work of one counter alone.
    pub fn of_peak_allocation_bytes(count: u64) -> (r: Self)
        ensures
            r == (WorkCounters { peak_allocation_bytes: count, ..no_work() }),
    {
        let mut r = WorkCounters::default();
        r.peak_allocation_bytes = count;
        r
    }
}

/// A failure together with the work that was spent.
#[derive(Clone, Copy, Debug, PartialEq, Eq)]
pub struct OperationFailure<E> {
    /// What went wrong.
    pub error: E,
    /// Work spent until then.
    pub work: WorkCounters,
}

impl<E> OperationFailure<E> {
    /// A failure after some work.
    pub fn new(error: E, work: WorkCounters) -> (r: Self)
        ensures
            r == (OperationFailure { error, work }),
    {
        OperationFailure { error, work }
    }

    /// A failure before any work.
    pub fn before_work(error: E) -> (r: Self)
        ensures
            r == (OperationFailure { error, work: no_work() }),
    {
        OperationFailure { error, work: WorkCounters::default() }
    }
}

/// Adding no work changes nothing.
pub proof fn no_work_is_neutral(work: WorkCounters)
    ensures
        total(work, no_work()) == Ok::<WorkCounters, WorkError>(work),
        total(no_work(), work) == Ok::<WorkCounters, WorkError>(work),
{
}

/// The order in which work is added does not matter.
pub proof fn work_adds_in_any_order(a: WorkCounters, b: WorkCounters, c: WorkCounters)
    requires
        addable(a, b),
        addable(added(a, b), c),
    ensures
        added(a, b) == added(b, a),
        addable(b, c),
        added(added(a, b), c) == added(a, added(b, c)),
{
}

/// What is left over admits exactly the work that keeps the sum within the
/// budget, peaks aside.
pub proof fn left_over_is_exact(a: WorkCounters, b: WorkCounters, budget: WorkBudget)
    requires
        within(a, budget),
    ensures
        within(b, left_over(a, budget)) == (addable(a, b) && within(added(a, b), budget)),
{
}

/// Work adds up counter by counter, and the peak is the larger one; where one counter
/// cannot be counted, none is. A budget is exceeded as soon as one counter is.
pub proof fn every_counter_counts(a: WorkCounters, b: WorkCounters, budget: WorkBudget)
    ensures
        total(a, b) matches Ok(sum) ==> {
            &&& sum.page_reads == a.page_reads + b.page_reads
            &&& sum.page_writes == a.page_writes + b.page_writes
            &&& sum.items_examined == a.items_examined + b.items_examined
            &&& sum.items_returned == a.items_returned + b.items_returned
            &&& sum.bytes_copied == a.bytes_copied + b.bytes_copied
            &&& sum.bytes_encoded == a.bytes_encoded + b.bytes_encoded
            &&& sum.bytes_hashed == a.bytes_hashed + b.bytes_hashed
            &&& sum.source_bytes_read == a.source_bytes_read + b.source_bytes_read
            &&& sum.object_bytes_read == a.object_bytes_read + b.object_bytes_read
            &&& sum.output_bytes == a.output_bytes + b.output_bytes
            &&& sum.allocation_operations == a.allocation_operations + b.allocation_operations
            &&& sum.peak_allocation_bytes >= a.peak_allocation_bytes && sum.peak_allocation_bytes
                >= b.peak_allocation_bytes && (sum.peak_allocation_bytes == a.peak_allocation_bytes
                || sum.peak_allocation_bytes == b.peak_allocation_bytes)
        },
        total(a, b) is Err ==> a.page_reads + b.page_reads > u64::MAX || a.page_writes
            + b.page_writes > u64::MAX || a.items_examined + b.items_examined > u64::MAX
            || a.items_returned + b.items_returned > u64::MAX || a.bytes_copied + b.bytes_copied
            > u64::MAX || a.bytes_encoded + b.bytes_encoded > u64::MAX || a.bytes_hashed
            + b.bytes_hashed > u64::MAX || a.source_bytes_read + b.source_bytes_read > u64::MAX
            || a.object_bytes_read + b.object_bytes_read > u64::MAX || a.output_bytes
            + b.output_bytes > u64::MAX || a.allocation_operations + b.allocation_operations
            > u64::MAX,
        a.page_reads > budget.page_reads || a.page_writes > budget.page_writes || a.items_examined
            > budget.items_examined || a.items_returned > budget.items_returned || a.bytes_copied
            > budget.bytes_copied || a.bytes_encoded > budget.bytes_encoded || a.bytes_hashed
            > budget.bytes_hashed || a.source_bytes_read > budget.source_bytes_read
            || a.object_bytes_read > budget.object_bytes_read || a.output_bytes
            > budget.output_bytes || a.allocation_operations > budget.allocation_operations
            || a.peak_allocation_bytes > budget.peak_allocation_bytes || within(a, budget),
        within(a, budget) ==> a.page_reads <= budget.page_reads && a.page_writes
            <= budget.page_writes && a.items_examined <= budget.items_examined && a.items_returned
            <= budget.items_returned && a.bytes_copied <= budget.bytes_copied && a.bytes_encoded
            <= budget.bytes_encoded && a.bytes_hashed <= budget.bytes_hashed && a.source_bytes_read
            <= budget.source_bytes_read && a.object_bytes_read <= budget.object_bytes_read
            && a.output_bytes <= budget.output_bytes && a.allocation_operations
            <= budget.allocation_operations && a.peak_allocation_bytes
            <= budget.peak_allocation_bytes,
{
}

} // verus!
