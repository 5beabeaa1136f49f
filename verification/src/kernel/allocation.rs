//! Deterministic logical allocation accounting for bounded kernel work.

use crate::performance::{larger, within, WorkBudget, WorkCounters, WorkError};
use vstd::prelude::*;

verus! {

/// Stable logical-allocation failures.
#[derive(Clone, Copy, Debug, PartialEq, Eq, Structural)]
pub enum AllocationError {
    /// Logical allocation arithmetic overflowed.
    Overflow,
    /// A release exceeded the live bytes.
    ReleaseInvariant,
    /// A capacity must be positive.
    InvalidCapacity,
    /// The entry capacity was exceeded.
    CapacityExceeded,
    /// Work accounting failed.
    Work(WorkError),
}

/// Work that claims logical bytes on top of live ones.
pub open spec fn claiming(work: WorkCounters, live: int, operations: u64) -> WorkCounters {
    WorkCounters {
        allocation_operations: (work.allocation_operations + operations) as u64,
        peak_allocation_bytes: larger(work.peak_allocation_bytes, live as u64),
        ..work
    }
}

/// The work behind a claim, or why it is refused.
pub open spec fn claimed(
    live: u64,
    bytes: u64,
    operations: u64,
    work: WorkCounters,
    budget: WorkBudget,
) -> Result<WorkCounters, AllocationError> {
    if live + bytes > u64::MAX {
        Err(AllocationError::Overflow)
    } else if work.allocation_operations + operations > u64::MAX {
        Err(AllocationError::Work(WorkError::Overflow))
    } else if !within(claiming(work, live + bytes, operations), budget) {
        Err(AllocationError::Work(WorkError::Exceeded))
    } else {
        Ok(claiming(work, live + bytes, operations))
    }
}

/// Logical owned-buffer bytes, excluding allocator headers and stack storage.
///
/// Every claim is admitted before allocation. Callers retain the byte count
/// and release it when that capacity ceases to be live. The peak is
/// operation-wide and is mirrored into the work receipt.
#[derive(Clone, Copy, Debug, PartialEq, Eq, Structural)]
pub struct AllocationLedger {
    /// Bytes that are live.
    pub live_bytes: u64,
}

impl Default for AllocationLedger {
    fn default() -> (r: Self)
        ensures
            r.live_bytes == 0,
    {
        AllocationLedger { live_bytes: 0 }
    }
}

impl AllocationLedger {
    /// Claims bytes before they are allocated.
    pub fn claim_bytes(
        &mut self,
        bytes: u64,
        operations: u64,
        work: &mut WorkCounters,
        budget: WorkBudget,
    ) -> (r: Result<(), AllocationError>)
        ensures
            match claimed(old(self).live_bytes, bytes, operations, *old(work), budget) {
                Ok(next) => r is Ok && *final(work) == next && final(self).live_bytes
                    == old(self).live_bytes + bytes,
                Err(error) => r == Err::<(), AllocationError>(error) && *final(work) == *old(work)
                    && *final(self) == *old(self),
            },
    {
        if bytes > u64::MAX - self.live_bytes {
            return Err(AllocationError::Overflow);
        }
        let next_live: u64 = self.live_bytes + bytes;
        let mut prospective = match work.checked_add(
            WorkCounters::of_allocation_operations(operations),
        ) {
            Ok(sum) => sum,
            Err(error) => {
                return Err(AllocationError::Work(error));
            },
        };
        if prospective.peak_allocation_bytes < next_live {
            prospective.peak_allocation_bytes = next_live;
        }
        if let Err(error) = prospective.verify(budget) {
            return Err(AllocationError::Work(error));
        }
        self.live_bytes = next_live;
        *work = prospective;
        Ok(())
    }

    /// Claims room for elements of a given logical size and returns its bytes.
    pub fn claim_elements(
        &mut self,
        count: u64,
        element_bytes: u64,
        work: &mut WorkCounters,
        budget: WorkBudget,
    ) -> (r: Result<u64, AllocationError>)
        ensures
            count * element_bytes > u64::MAX ==> r == Err::<u64, AllocationError>(
                AllocationError::Overflow,
            ) && *final(work) == *old(work) && *final(self) == *old(self),
            count * element_bytes <= u64::MAX ==> match claimed(
                old(self).live_bytes,
                (count * element_bytes) as u64,
                if count != 0 {
                    1
                } else {
                    0
                },
                *old(work),
                budget,
            ) {
                Ok(next) => r == Ok::<u64, AllocationError>((count * element_bytes) as u64)
                    && *final(work) == next && final(self).live_bytes == old(self).live_bytes + count
                    * element_bytes,
                Err(error) => r == Err::<u64, AllocationError>(error) && *final(work) == *old(work)
                    && *final(self) == *old(self),
            },
    {
        let bytes = match count.checked_mul(element_bytes) {
            Some(bytes) => bytes,
            None => {
                return Err(AllocationError::Overflow);
            },
        };
        let operations: u64 = if count != 0 {
            1
        } else {
            0
        };
        match self.claim_bytes(bytes, operations, work, budget) {
            Ok(()) => Ok(bytes),
            Err(error) => Err(error),
        }
    }

    /// Releases bytes that are no longer live.
    pub fn release(&mut self, bytes: u64) -> (r: Result<(), AllocationError>)
        ensures
            bytes <= old(self).live_bytes ==> r is Ok && final(self).live_bytes
                == old(self).live_bytes - bytes,
            bytes > old(self).live_bytes ==> r == Err::<(), AllocationError>(
                AllocationError::ReleaseInvariant,
            ) && *final(self) == *old(self),
    {
        if bytes > self.live_bytes {
            return Err(AllocationError::ReleaseInvariant);
        }
        self.live_bytes = self.live_bytes - bytes;
        Ok(())
    }
}

/// Deterministic logical capacity for a growing operation vector.
#[derive(Clone, Copy, Debug, PartialEq, Eq, Structural)]
pub struct LogicalVecCapacity {
    /// Elements that fit.
    pub elements: u64,
    /// Bytes claimed for them.
    pub logical_bytes: u64,
}

impl Default for LogicalVecCapacity {
    fn default() -> (r: Self)
        ensures
            r == (LogicalVecCapacity { elements: 0, logical_bytes: 0 }),
    {
        LogicalVecCapacity { elements: 0, logical_bytes: 0 }
    }
}

/// The capacity after growth: one, then twice as much, at most the maximum.
pub open spec fn grown(elements: u64, maximum: u64) -> u64 {
    if elements == 0 {
        1
    } else if 2 * elements > maximum {
        maximum
    } else {
        (2 * elements) as u64
    }
}

/// The capacity, live bytes and work behind making room for one more element in
/// a vector of a given length, or why it is refused.
pub open spec fn ensured(
    capacity: LogicalVecCapacity,
    length: u64,
    element_bytes: u64,
    maximum: u64,
    live: u64,
    work: WorkCounters,
    budget: WorkBudget,
) -> Result<(LogicalVecCapacity, u64, WorkCounters), AllocationError> {
    if length < capacity.elements {
        Ok((capacity, live, work))
    } else if capacity.elements >= maximum {
        Err(AllocationError::CapacityExceeded)
    } else {
        let bytes = (grown(capacity.elements, maximum) - capacity.elements) * element_bytes;
        if bytes > u64::MAX {
            Err(AllocationError::Overflow)
        } else {
            match claimed(live, bytes as u64, 1, work, budget) {
                Err(error) => Err(error),
                Ok(work) => Ok(
                    (
                        LogicalVecCapacity {
                            elements: grown(capacity.elements, maximum),
                            logical_bytes: (capacity.logical_bytes + bytes) as u64,
                        },
                        (live + bytes) as u64,
                        work,
                    ),
                ),
            }
        }
    }
}

impl LogicalVecCapacity {
    /// Makes room for one more element in a vector of a given length.
    pub fn ensure_for_push(
        &mut self,
        length: u64,
        element_bytes: u64,
        maximum_elements: u64,
        ledger: &mut AllocationLedger,
        work: &mut WorkCounters,
        budget: WorkBudget,
    ) -> (r: Result<(), AllocationError>)
        requires
            old(self).logical_bytes <= old(ledger).live_bytes,
        ensures
            match ensured(
                *old(self),
                length,
                element_bytes,
                maximum_elements,
                old(ledger).live_bytes,
                *old(work),
                budget,
            ) {
                Ok((capacity, live, spent)) => r is Ok && *final(self) == capacity
                    && final(ledger).live_bytes == live && *final(work) == spent,
                Err(error) => r == Err::<(), AllocationError>(error) && *final(self) == *old(self)
                    && *final(ledger) == *old(ledger) && *final(work) == *old(work),
            },
            final(self).logical_bytes <= final(ledger).live_bytes,
    {
        if length < self.elements {
            return Ok(());
        }
        if self.elements >= maximum_elements {
            return Err(AllocationError::CapacityExceeded);
        }
        let next: u64 = if self.elements == 0 {
            1
        } else if self.elements > maximum_elements - self.elements {
            maximum_elements
        } else {
            self.elements + self.elements
        };
        let delta: u64 = next - self.elements;
        let bytes = match ledger.claim_elements(delta, element_bytes, work, budget) {
            Ok(bytes) => bytes,
            Err(error) => {
                return Err(error);
            },
        };
        self.elements = next;
        self.logical_bytes = self.logical_bytes + bytes;
        Ok(())
    }
}

/// What is claimed and then released leaves the live bytes as they were.
pub proof fn claim_then_release(
    live: u64,
    bytes: u64,
    operations: u64,
    work: WorkCounters,
    budget: WorkBudget,
)
    requires
        claimed(live, bytes, operations, work, budget) is Ok,
    ensures
        bytes <= live + bytes <= u64::MAX,
        live + bytes - bytes == live,
        claimed(live, bytes, operations, work, budget)->Ok_0.peak_allocation_bytes >= live + bytes,
{
}

} // verus!
