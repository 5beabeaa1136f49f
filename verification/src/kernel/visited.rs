//! Bounded cycle and alias detection for authenticated object walks.

use super::allocation::{claimed, AllocationError, AllocationLedger};
use super::object_table::{lemma_search_end, looks, search_end, ObjectTable};
use crate::performance::{charged, no_work, within, WorkBudget, WorkCounters};
use crate::storage::{ObjectId, ObjectView};
use vstd::prelude::*;

verus! {

/// Logical bytes of one slot.
pub const SLOT_BYTES: u64 = 33;

/// Logical bytes of one identity.
pub const IDENTITY_BYTES: u64 = 33;

/// Entries that a fresh set has room for.
pub const INITIAL_ENTRIES: usize = 8;

/// A number of slots doubled until it reaches what is wanted.
pub open spec fn doubled(slots: nat, wanted: nat) -> nat
    decreases 2 * wanted - slots,
{
    if slots == 0 || slots >= wanted {
        slots
    } else {
        doubled(2 * slots, wanted)
    }
}

/// Slots for some entries: the least power of two that leaves half of them free.
pub open spec fn slots_needed(entries: nat) -> nat {
    doubled(1, 2 * entries)
}

proof fn lemma_doubled(slots: nat, wanted: nat)
    requires
        slots > 0,
    ensures
        doubled(slots, wanted) >= wanted,
        doubled(slots, wanted) >= slots,
        doubled(slots, wanted) < 2 * wanted || doubled(slots, wanted) == slots,
    decreases 2 * wanted - slots,
{
    if slots < wanted {
        lemma_doubled(2 * slots, wanted);
    }
}

/// Entries that a fresh set of a given bound has room for.
pub open spec fn initial_entries(maximum: nat) -> nat {
    if maximum <= INITIAL_ENTRIES {
        maximum
    } else {
        INITIAL_ENTRIES as nat
    }
}

/// Finds the slots for some entries.
pub fn slot_count(entries: usize) -> (r: Result<usize, AllocationError>)
    ensures
        if entries <= usize::MAX / 4 {
            r is Ok && r->Ok_0 == slots_needed(entries as nat)
        } else {
            r == Err::<usize, AllocationError>(AllocationError::Overflow)
        },
{
    if entries > usize::MAX / 4 {
        return Err(AllocationError::Overflow);
    }
    let wanted: usize = entries * 2;
    let mut slots: usize = 1;
    while slots < wanted
        invariant
            wanted <= usize::MAX / 2,
            slots >= 1,
            doubled(slots as nat, wanted as nat) == doubled(1, wanted as nat),
        decreases usize::MAX - slots,
    {
        slots = slots * 2;
    }
    Ok(slots)
}

/// Result of one deterministic visited-set probe.
#[derive(Clone, Copy, Debug, PartialEq, Eq, Structural)]
pub struct VisitedInsert {
    /// Whether the identity was absent.
    pub inserted: bool,
    /// Slots looked at.
    pub probes: u64,
}

/// One examined item.
pub open spec fn one_item() -> WorkCounters {
    WorkCounters { items_examined: 1, ..no_work() }
}

/// One identity copied.
pub open spec fn one_identity() -> WorkCounters {
    WorkCounters { bytes_copied: IDENTITY_BYTES, ..no_work() }
}

/// Examined slots counted one at a time: whether the budget admits them all, and the
/// work then.
pub open spec fn items_charged(work: WorkCounters, budget: WorkBudget, count: nat) -> (
    Result<(), AllocationError>,
    WorkCounters,
)
    decreases count,
{
    if count == 0 {
        (Ok(()), work)
    } else {
        match charged(work, one_item(), budget) {
            Err(error) => (Err(AllocationError::Work(error)), work),
            Ok(next) => items_charged(next, budget, (count - 1) as nat),
        }
    }
}

/// Counting slots changes nothing else.
pub proof fn lemma_items_charged(work: WorkCounters, budget: WorkBudget, count: nat)
    ensures
        ({
            let (outcome, next) = items_charged(work, budget, count);
            &&& next == (WorkCounters { items_examined: next.items_examined, ..work })
            &&& work.items_examined <= next.items_examined <= work.items_examined + count
            &&& outcome is Ok ==> next.items_examined == work.items_examined + count
            &&& outcome matches Err(error) ==> error is Work
        }),
    decreases count,
{
    if count > 0 {
        if let Ok(next) = charged(work, one_item(), budget) {
            lemma_items_charged(next, budget, (count - 1) as nat);
        }
    }
}

fn charge_items(work: &mut WorkCounters, budget: WorkBudget, count: u64) -> (r: Result<
    (),
    AllocationError,
>)
    ensures
        (r, *final(work)) == items_charged(*old(work), budget, count as nat),
{
    let ghost begun = *work;
    let mut left: u64 = count;
    while left > 0
        invariant
            begun == *old(work),
            items_charged(begun, budget, count as nat) == items_charged(
                *work,
                budget,
                left as nat,
            ),
        decreases left,
    {
        match work.charge(WorkCounters::of_items_examined(1), budget) {
            Ok(next) => {
                *work = next;
            },
            Err(error) => {
                return Err(AllocationError::Work(error));
            },
        }
        left = left - 1;
    }
    Ok(())
}

/// Abstract value of a set of visited objects.
#[verifier::ext_equal]
pub struct VisitedView {
    /// Contents of every slot.
    pub slots: Seq<Option<ObjectView>>,
    /// Identities held.
    pub length: nat,
    /// Most identities that fit.
    pub maximum: nat,
    /// Logical bytes held.
    pub bytes: u64,
}

impl VisitedView {
    /// Whether at most half of the slots are in use, and there are no more of them
    /// than the bound calls for.
    pub open spec fn sound(self) -> bool {
        &&& 2 * self.length <= self.slots.len()
        &&& self.slots.len() <= 4 * self.maximum
        &&& self.bytes == 33 * self.slots.len()
        &&& self.slots.len() >= 2
        &&& self.length <= self.maximum
        &&& self.maximum > 0
    }

    /// Identities that fit before the set grows.
    pub open spec fn room(self) -> nat {
        if self.slots.len() / 2 <= self.maximum {
            self.slots.len() / 2
        } else {
            self.maximum
        }
    }

    /// Whether the search for an identity ends where it is held.
    pub open spec fn finds(self, object: ObjectView) -> bool {
        self.slots[search_end(self.slots, object)] == Some(object)
    }

    /// The set with an identity put where the search for it ends.
    pub open spec fn placed(self, object: ObjectView) -> VisitedView {
        VisitedView {
            slots: self.slots.update(search_end(self.slots, object), Some(object)),
            length: self.length + 1,
            ..self
        }
    }
}

/// An empty set, the live bytes and the work then, or why there is none.
pub open spec fn visited_begun(
    maximum: nat,
    live: u64,
    work: WorkCounters,
    budget: WorkBudget,
) -> Result<(VisitedView, u64, WorkCounters), AllocationError> {
    let slots = slots_needed(initial_entries(maximum));
    if maximum == 0 {
        Err(AllocationError::InvalidCapacity)
    } else {
        match claimed(live, (33 * slots) as u64, 1, work, budget) {
            Err(error) => Err(error),
            Ok(work) => Ok(
                (
                    VisitedView {
                        slots: Seq::new(slots, |i: int| None),
                        length: 0,
                        maximum,
                        bytes: (33 * slots) as u64,
                    },
                    (live + 33 * slots) as u64,
                    work,
                ),
            ),
        }
    }
}

/// Slots once the identities from one slot on have been put into them, and the
/// work then: every slot looked at is an item, every identity moved is copied.
pub open spec fn moved(
    held: Seq<Option<ObjectView>>,
    from: nat,
    slots: Seq<Option<ObjectView>>,
    work: WorkCounters,
    budget: WorkBudget,
) -> Result<(Seq<Option<ObjectView>>, WorkCounters), (AllocationError, WorkCounters)>
    decreases held.len() - from,
{
    if from >= held.len() {
        Ok((slots, work))
    } else {
        match held[from as int] {
            None => moved(held, from + 1, slots, work, budget),
            Some(object) => match items_charged(work, budget, looks(slots, object, 0)) {
                (Err(error), work) => Err((error, work)),
                (Ok(_), work) => match charged(work, one_identity(), budget) {
                    Err(error) => Err((AllocationError::Work(error), work)),
                    Ok(work) => moved(
                        held,
                        from + 1,
                        slots.update(search_end(slots, object), Some(object)),
                        work,
                        budget,
                    ),
                },
            },
        }
    }
}

/// Entries that a set has room for once it has grown.
pub open spec fn grown_entries(set: VisitedView) -> nat {
    if 2 * set.room() <= set.maximum {
        2 * set.room()
    } else {
        set.maximum
    }
}

/// A set moved to a table of twice the size, at most that of its bound.
pub open spec fn grown(
    set: VisitedView,
    live: u64,
    work: WorkCounters,
    budget: WorkBudget,
) -> Result<(VisitedView, u64, WorkCounters), (AllocationError, WorkCounters)> {
    let slots = slots_needed(grown_entries(set));
    if grown_entries(set) > usize::MAX / 4 || 33 * slots > u64::MAX {
        Err((AllocationError::Overflow, work))
    } else {
        match claimed(live, (33 * slots) as u64, 1, work, budget) {
            Err(error) => Err((error, work)),
            Ok(work) => match moved(set.slots, 0, Seq::new(slots, |i: int| None), work, budget) {
                Err(failing) => Err(failing),
                Ok((slots, work)) => Ok(
                    (
                        VisitedView { slots, bytes: (33 * slots.len()) as u64, ..set },
                        (live + 33 * slots.len() - set.bytes) as u64,
                        work,
                    ),
                ),
            },
        }
    }
}

/// Whether an identity is new to a set, or why that is not known; then the set, the
/// live bytes and the work.
///
/// Every slot looked at is counted as an examined item. A set that has no room left
/// grows first.
#[verifier::opaque]
pub open spec fn visited_added(
    set: VisitedView,
    object: ObjectView,
    live: u64,
    work: WorkCounters,
    budget: WorkBudget,
) -> (Result<bool, AllocationError>, VisitedView, u64, WorkCounters) {
    match items_charged(work, budget, looks(set.slots, object, 0)) {
        (Err(error), work) => (Err(error), set, live, work),
        (Ok(_), work) => if set.finds(object) {
            (Ok(false), set, live, work)
        } else if set.length >= set.maximum {
            (Err(AllocationError::CapacityExceeded), set, live, work)
        } else if set.length < set.room() {
            (Ok(true), set.placed(object), live, work)
        } else {
            match grown(set, live, work, budget) {
                Err((error, work)) => (Err(error), set, live, work),
                Ok((set, live, work)) => match items_charged(
                    work,
                    budget,
                    looks(set.slots, object, 0),
                ) {
                    (Err(error), work) => (Err(error), set, live, work),
                    (Ok(_), work) => (Ok(true), set.placed(object), live, work),
                },
            }
        },
    }
}

proof fn lemma_moved(
    held: Seq<Option<ObjectView>>,
    from: nat,
    slots: Seq<Option<ObjectView>>,
    work: WorkCounters,
    budget: WorkBudget,
)
    requires
        slots.len() > 0,
    ensures
        moved(held, from, slots, work, budget) matches Ok((next, spent)) ==> next.len()
            == slots.len() && spent.items_examined >= work.items_examined,
        moved(held, from, slots, work, budget) matches Err((error, spent)) ==> error is Work
            && spent.items_examined >= work.items_examined,
    decreases held.len() - from,
{
    if from < held.len() {
        match held[from as int] {
            None => {
                lemma_moved(held, from + 1, slots, work, budget);
            },
            Some(object) => {
                let count = looks(slots, object, 0);
                lemma_items_charged(work, budget, count);
                lemma_search_end(slots, object);
                let (_, next) = items_charged(work, budget, count);
                if let Ok(copied) = charged(next, one_identity(), budget) {
                    lemma_moved(
                        held,
                        from + 1,
                        slots.update(search_end(slots, object), Some(object)),
                        copied,
                        budget,
                    );
                }
            },
        }
    }
}

/// A set that grows has room for one more identity, and keeps its bound.
proof fn lemma_grown(set: VisitedView, live: u64, work: WorkCounters, budget: WorkBudget)
    requires
        set.sound(),
        set.bytes <= live,
        set.length < set.maximum,
        set.length >= set.room(),
    ensures
        grown(set, live, work, budget) matches Ok((next, held, spent)) ==> {
            &&& next.sound()
            &&& next.length == set.length
            &&& next.maximum == set.maximum
            &&& 2 * (next.length + 1) <= next.slots.len()
            &&& next.bytes <= held
            &&& held - next.bytes == live - set.bytes
            &&& spent.items_examined >= work.items_examined
        },
        grown(set, live, work, budget) matches Err((error, spent)) ==> !(
        error is CapacityExceeded) && spent.items_examined >= work.items_examined,
{
    let slots = slots_needed(grown_entries(set));
    lemma_doubled(1, 2 * grown_entries(set));
    if let Ok(next) = claimed(live, (33 * slots) as u64, 1, work, budget) {
        lemma_moved(set.slots, 0, Seq::new(slots, |i: int| None), next, budget);
    }
}

/// A fresh set is sound.
pub proof fn lemma_visited_begun(maximum: nat, live: u64, work: WorkCounters, budget: WorkBudget)
    ensures
        visited_begun(maximum, live, work, budget) matches Ok((set, held, _)) ==> set.sound()
            && set.maximum == maximum && set.length == 0 && held == live + set.bytes,
{
    lemma_doubled(1, 2 * initial_entries(maximum));
}

/// Adding an identity keeps a set sound, and the bytes held besides it.
pub proof fn lemma_visited_added(
    set: VisitedView,
    object: ObjectView,
    live: u64,
    work: WorkCounters,
    budget: WorkBudget,
)
    requires
        set.sound(),
        set.bytes <= live,
    ensures
        ({
            let (outcome, next, held, spent) = visited_added(set, object, live, work, budget);
            &&& next.sound()
            &&& next.maximum == set.maximum
            &&& next.bytes <= held
            &&& held - next.bytes == live - set.bytes
            &&& next.length == set.length + (if outcome == Ok::<bool, AllocationError>(true) {
                1int
            } else {
                0
            })
            &&& spent.items_examined >= work.items_examined
        }),
{
    reveal(visited_added);
    lemma_items_charged(work, budget, looks(set.slots, object, 0));
    let (_, looked) = items_charged(work, budget, looks(set.slots, object, 0));
    lemma_search_end(set.slots, object);
    if set.length < set.maximum && set.length >= set.room() {
        lemma_grown(set, live, looked, budget);
        if let Ok((next, _, spent)) = grown(set, live, looked, budget) {
            lemma_items_charged(spent, budget, looks(next.slots, object, 0));
            lemma_search_end(next.slots, object);
        }
    }
}

/// Counting slots keeps work within its budget.
proof fn lemma_items_within(work: WorkCounters, budget: WorkBudget, count: nat)
    ensures
        ({
            let (outcome, next) = items_charged(work, budget, count);
            outcome is Ok && within(work, budget) ==> within(next, budget)
        }),
    decreases count,
{
    if count > 0 {
        if let Ok(next) = charged(work, one_item(), budget) {
            lemma_items_within(next, budget, (count - 1) as nat);
        }
    }
}

proof fn lemma_moved_within(
    held: Seq<Option<ObjectView>>,
    from: nat,
    slots: Seq<Option<ObjectView>>,
    work: WorkCounters,
    budget: WorkBudget,
)
    ensures
        moved(held, from, slots, work, budget) matches Ok((_, spent)) ==> (within(work, budget)
            ==> within(spent, budget)),
    decreases held.len() - from,
{
    if from < held.len() {
        match held[from as int] {
            None => {
                lemma_moved_within(held, from + 1, slots, work, budget);
            },
            Some(object) => {
                let (_, next) = items_charged(work, budget, looks(slots, object, 0));
                if let Ok(copied) = charged(next, one_identity(), budget) {
                    lemma_moved_within(
                        held,
                        from + 1,
                        slots.update(search_end(slots, object), Some(object)),
                        copied,
                        budget,
                    );
                }
            },
        }
    }
}

/// Adding an identity keeps work within its budget.
pub proof fn lemma_visited_within(
    set: VisitedView,
    object: ObjectView,
    live: u64,
    work: WorkCounters,
    budget: WorkBudget,
)
    ensures
        ({
            let (outcome, _, _, spent) = visited_added(set, object, live, work, budget);
            outcome is Ok && within(work, budget) ==> within(spent, budget)
        }),
{
    reveal(visited_added);
    lemma_items_within(work, budget, looks(set.slots, object, 0));
    let (_, looked) = items_charged(work, budget, looks(set.slots, object, 0));
    let slots = slots_needed(grown_entries(set));
    if let Ok(claim) = claimed(live, (33 * slots) as u64, 1, looked, budget) {
        lemma_moved_within(set.slots, 0, Seq::new(slots, |i: int| None), claim, budget);
    }
    if let Ok((next, _, spent)) = grown(set, live, looked, budget) {
        lemma_items_within(spent, budget, looks(next.slots, object, 0));
    }
}

/// An identity that is new to a set takes up room.
pub proof fn lemma_visited_progress(
    set: VisitedView,
    object: ObjectView,
    live: u64,
    work: WorkCounters,
    budget: WorkBudget,
)
    requires
        visited_added(set, object, live, work, budget).0 == Ok::<bool, AllocationError>(true),
    ensures
        set.length < set.maximum,
        visited_added(set, object, live, work, budget).1.length == set.length + 1,
        visited_added(set, object, live, work, budget).1.maximum == set.maximum,
{
    reveal(visited_added);
}

/// Deterministic bounded cycle and alias set for authenticated object walks.
pub struct VisitedObjectSet {
    table: ObjectTable,
    maximum_entries: usize,
    logical_bytes: u64,
}

impl View for VisitedObjectSet {
    type V = Set<ObjectView>;

    closed spec fn view(&self) -> Set<ObjectView> {
        self.table@
    }
}

impl VisitedObjectSet {
    /// Slots, bound and bytes of the set.
    pub closed spec fn model(&self) -> VisitedView {
        VisitedView {
            slots: self.table.model(),
            length: self.table@.len(),
            maximum: self.maximum_entries as nat,
            bytes: self.logical_bytes,
        }
    }

    /// Whether at most half of the slots are in use.
    pub open spec fn sound(&self) -> bool {
        self.model().sound()
    }

    /// Logical bytes that the set holds.
    pub open spec fn held_bytes(&self) -> nat {
        self.model().bytes as nat
    }

    /// Logical bytes that the set holds.
    pub fn logical_bytes(&self) -> (r: u64)
        ensures
            r == self.model().bytes,
    {
        self.logical_bytes
    }

    /// Identities held.
    pub fn len(&self) -> (r: usize)
        ensures
            r == self.model().length,
    {
        self.table.len()
    }

    /// Creates an empty set for at most a given number of identities.
    pub fn new(
        maximum_entries: usize,
        ledger: &mut AllocationLedger,
        work: &mut WorkCounters,
        budget: WorkBudget,
    ) -> (r: Result<Self, AllocationError>)
        ensures
            match visited_begun(maximum_entries as nat, old(ledger).live_bytes, *old(work), budget) {
                Ok((set, live, spent)) => r is Ok && r->Ok_0.model() == set
                    && final(ledger).live_bytes == live && *final(work) == spent
                    && r->Ok_0@ == Set::<ObjectView>::empty() && set.sound() && live
                    == old(ledger).live_bytes + set.bytes,
                Err(error) => r is Err && r->Err_0 == error && *final(ledger) == *old(ledger)
                    && *final(work) == *old(work),
            },
    {
        if maximum_entries == 0 {
            return Err(AllocationError::InvalidCapacity);
        }
        let entries = if maximum_entries <= INITIAL_ENTRIES {
            maximum_entries
        } else {
            INITIAL_ENTRIES
        };
        proof {
            lemma_doubled(1, 2 * entries as nat);
        }
        let slots = match slot_count(entries) {
            Ok(slots) => slots,
            Err(error) => {
                return Err(error);
            },
        };
        assert(slots * SLOT_BYTES == 33 * slots);
        let logical_bytes = match ledger.claim_elements(slots as u64, SLOT_BYTES, work, budget) {
            Ok(bytes) => bytes,
            Err(error) => {
                return Err(error);
            },
        };
        let table = ObjectTable::new(slots);
        assert(table@.len() == 0);
        let r = VisitedObjectSet { table, maximum_entries, logical_bytes };
        assert(r.model().slots =~= Seq::new(slots as nat, |i: int| None::<ObjectView>));
        Ok(r)
    }

    /// Entries that fit before the set grows.
    fn entry_capacity(&self) -> (r: usize)
        ensures
            r == self.model().room(),
    {
        let half = self.table.slots() / 2;
        if half <= self.maximum_entries {
            half
        } else {
            self.maximum_entries
        }
    }

    /// Adds an identity, and tells whether it was absent.
    pub fn insert(
        &mut self,
        object: ObjectId,
        ledger: &mut AllocationLedger,
        work: &mut WorkCounters,
        budget: WorkBudget,
    ) -> (r: Result<VisitedInsert, AllocationError>)
        requires
            old(self).sound(),
            old(self).held_bytes() <= old(ledger).live_bytes,
        ensures
            ({
                let (outcome, set, live, spent) = visited_added(
                    old(self).model(),
                    object@,
                    old(ledger).live_bytes,
                    *old(work),
                    budget,
                );
                &&& final(self).model() == set
                &&& final(ledger).live_bytes == live
                &&& *final(work) == spent
                &&& match outcome {
                    Ok(inserted) => r is Ok && r->Ok_0 == (VisitedInsert {
                        inserted,
                        probes: (spent.items_examined - old(work).items_examined) as u64,
                    }),
                    Err(error) => r == Err::<VisitedInsert, AllocationError>(error),
                }
            }),
            final(self).sound(),
            final(self).held_bytes() <= final(ledger).live_bytes,
            final(ledger).live_bytes - final(self).held_bytes() == old(ledger).live_bytes - old(
                self).held_bytes(),
            match r {
                Ok(done) => done.inserted == !old(self)@.contains(object@) && final(self)@
                    == old(self)@.insert(object@),
                Err(error) => final(self)@ == old(self)@,
            },
            old(self)@.finite(),
            old(self).model().length == old(self)@.len(),
            old(self).model().finds(object@) == old(self)@.contains(object@),
            old(self)@.contains(object@) ==> (r matches Err(error) ==> error is Work),
            !old(self)@.contains(object@) && old(self)@.len() >= old(self).model().maximum ==> (
            r matches Err(error) && (error is CapacityExceeded || error is Work)),
            old(self)@.len() < old(self).model().maximum ==> (r matches Err(error) ==> !(
            error is CapacityExceeded)),
    {
        let ghost begun = *work;
        let ghost set = self.model();
        proof {
            reveal(visited_added);
            lemma_visited_added(set, object@, ledger.live_bytes, begun, budget);
        }
        let before = work.items_examined;
        let slots = self.table.slots();
        let (index, found, looked) = self.table.search(&object);
        proof {
            lemma_items_charged(begun, budget, looked as nat);
        }
        if let Err(error) = charge_items(work, budget, looked) {
            return Err(error);
        }
        if found {
            assert(self@.insert(object@) =~= self@);
            return Ok(VisitedInsert { inserted: false, probes: work.items_examined - before });
        }
        let length = self.table.len();
        if length >= self.maximum_entries {
            return Err(AllocationError::CapacityExceeded);
        }
        if length < self.entry_capacity() {
            self.table.place(index, object, Ghost(looked as int));
            assert(self.model() =~= set.placed(object@));
            return Ok(VisitedInsert { inserted: true, probes: work.items_examined - before });
        }
        proof {
            lemma_grown(set, ledger.live_bytes, *work, budget);
        }
        if let Err(error) = self.grow(ledger, work, budget) {
            return Err(error);
        }
        let ghost wider = self.model();
        let (index, _, again) = self.table.search(&object);
        proof {
            lemma_items_charged(*work, budget, again as nat);
        }
        if let Err(error) = charge_items(work, budget, again) {
            return Err(error);
        }
        let length = self.table.len();
        self.table.place(index, object, Ghost(again as int));
        assert(self.model() =~= wider.placed(object@));
        Ok(VisitedInsert { inserted: true, probes: work.items_examined - before })
    }

    /// Moves to a larger table.
    fn grow(&mut self, ledger: &mut AllocationLedger, work: &mut WorkCounters, budget: WorkBudget) -> (r:
        Result<(), AllocationError>)
        requires
            old(self).sound(),
            old(self).held_bytes() <= old(ledger).live_bytes,
            old(self).model().length < old(self).model().maximum,
            old(self).model().length >= old(self).model().room(),
        ensures
            match grown(old(self).model(), old(ledger).live_bytes, *old(work), budget) {
                Ok((set, live, spent)) => r is Ok && final(self).model() == set && final(ledger).live_bytes
                    == live && *final(work) == spent,
                Err((error, spent)) => r == Err::<(), AllocationError>(error) && final(self).model()
                    == old(self).model() && final(ledger).live_bytes == old(ledger).live_bytes
                    && *final(work) == spent,
            },
            final(self)@ == old(self)@,
    {
        let ghost set = self.model();
        let ghost live = ledger.live_bytes;
        let ghost begun = *work;
        let capacity = self.entry_capacity();
        let size = self.table.slots();
        let doubled = capacity * 2;
        let entries = if doubled <= self.maximum_entries {
            doubled
        } else {
            self.maximum_entries
        };
        assert(entries == grown_entries(set));
        proof {
            lemma_doubled(1, 2 * entries as nat);
        }
        let slots = match slot_count(entries) {
            Ok(slots) => slots,
            Err(error) => {
                return Err(error);
            },
        };
        assert(slots == slots_needed(grown_entries(set)));
        assert(slots * SLOT_BYTES == 33 * slots);
        let new_bytes = match ledger.claim_elements(slots as u64, SLOT_BYTES, work, budget) {
            Ok(bytes) => bytes,
            Err(error) => {
                return Err(error);
            },
        };
        let ghost fresh = Seq::new(slots as nat, |i: int| None::<ObjectView>);
        let ghost claimed_work = *work;
        let mut table = ObjectTable::new(slots);
        self.table.check_slots();
        let length = self.table.len();
        let mut i: usize = 0;
        while i < size
            invariant
                set == self.model(),
                self.table@ == old(self)@,
                self.table@.finite(),
                self.table@.len() < slots,
                size == set.slots.len(),
                set.slots == self.table.model(),
                self.table.slot_count() == size,
                i <= size,
                live == old(ledger).live_bytes,
                begun == *old(work),
                set == old(self).model(),
                new_bytes == 33 * slots,
                33 * slots <= u64::MAX,
                ledger.live_bytes == live + new_bytes,
                slots == slots_needed(grown_entries(set)),
                grown_entries(set) <= usize::MAX / 4,
                claimed(live, (33 * slots) as u64, 1, begun, budget) == Ok::<
                    WorkCounters,
                    AllocationError,
                >(claimed_work),
                table.slot_count() == slots,
                table.model().len() == slots,
                fresh == Seq::new(slots as nat, |i: int| None::<ObjectView>),
                moved(set.slots, 0, fresh, claimed_work, budget) == moved(
                    set.slots,
                    i as nat,
                    table.model(),
                    *work,
                    budget,
                ),
                forall|a: int, b: int|
                    0 <= a < set.slots.len() && 0 <= b < set.slots.len() && (
                    #[trigger] set.slots[a]) is Some && set.slots[a] == #[trigger] set.slots[b]
                        ==> a == b,
                forall|object: ObjectView| #[trigger]
                    table@.contains(object) ==> self.table@.contains(object) && exists|j: int|
                        0 <= j < i && #[trigger] set.slots[j] == Some(object),
                forall|j: int|
                    0 <= j < i ==> ((#[trigger] set.slots[j]) matches Some(object)
                        ==> table@.contains(object)),
            decreases size - i,
        {
            if let Some(object) = self.table.slot(i) {
                assert(set.slots[i as int] == Some(object@));
                let (index, found, looked) = table.search(&object);
                assert(!found) by {
                    if table@.contains(object@) {
                        let j = choose|j: int|
                            0 <= j < i && #[trigger] set.slots[j] == Some(object@);
                        assert(set.slots[j] == set.slots[i as int]);
                    }
                }
                if let Err(error) = charge_items(work, budget, looked) {
                    ledger.live_bytes = ledger.live_bytes - new_bytes;
                    return Err(error);
                }
                match work.charge(WorkCounters::of_bytes_copied(IDENTITY_BYTES), budget) {
                    Ok(sum) => {
                        *work = sum;
                    },
                    Err(error) => {
                        ledger.live_bytes = ledger.live_bytes - new_bytes;
                        return Err(AllocationError::Work(error));
                    },
                }
                proof {
                    let wider = table@.insert(object@);
                    assert(wider.subset_of(self.table@));
                    vstd::set_lib::lemma_len_subset(wider, self.table@);
                }
                let held = table.len();
                table.place(index, object, Ghost(looked as int));
            }
            i = i + 1;
        }
        self.table.check_slots();
        proof {
            assert forall|object: ObjectView| self.table@.contains(object) implies table@.contains(
                object,
            ) by {
                let j = choose|j: int|
                    0 <= j < set.slots.len() && #[trigger] self.table.model()[j] == Some(object);
                assert(set.slots[j] == Some(object));
            }
            assert(table@ =~= self.table@);
        }
        ledger.live_bytes = ledger.live_bytes - self.logical_bytes;
        self.table = table;
        self.logical_bytes = new_bytes;
        Ok(())
    }

    /// Gives up the set, and the bytes that it held.
    pub fn release(self, ledger: &mut AllocationLedger) -> (r: Result<(), AllocationError>)
        ensures
            self.held_bytes() <= old(ledger).live_bytes ==> r is Ok && final(ledger).live_bytes
                == old(ledger).live_bytes - self.held_bytes(),
            self.held_bytes() > old(ledger).live_bytes ==> r == Err::<(), AllocationError>(
                AllocationError::ReleaseInvariant,
            ) && *final(ledger) == *old(ledger),
    {
        ledger.release(self.logical_bytes)
    }
}

} // verus!
