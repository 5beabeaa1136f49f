//! Bounded authenticated named-attribute lookup.

use super::allocation::{claimed, AllocationError, AllocationLedger};
use super::attribute::{
    attribute_children_ordered, attribute_decoded, attribute_format, attribute_leaf_ordered,
    attribute_page_decode_shape, decode_attribute_page, lemma_name_order, name_lt, AttributeChild,
    AttributeChildView, AttributeEntry, AttributeEntryView, AttributeName, AttributeNameView,
    AttributePage,
};
use super::batch::{
    batch_begun, batch_outcome, child_at, child_upper, found_view, key_models, lookup_batch,
    tree_search, tree_sound, BatchCause, BatchError, TreeFormat,
};
use super::codec::{
    page_shape, CanonicalDecodeError, DecodeErrorView, DecodeLimits, DecodedPageKind, Page,
    PageView,
};
use super::file_lookup::serves;
use super::visited::{
    lemma_visited_added, lemma_visited_begun, visited_added, visited_begun, VisitedObjectSet,
    VisitedView,
};
use crate::order::{views, Position, Replicate};
use crate::performance::{
    charged, larger, left_over, no_work, total, within, OperationFailure, WorkBudget, WorkCounters,
    WorkError,
};
use crate::storage::{
    ImmediateObjectStore, ObjectFailure, ObjectId, ObjectKind, ObjectRead, ObjectReadRetention,
    ObjectStoreError, ObjectView, Objects, ReadRequest, ReadView, RequestView,
};
use vstd::prelude::*;

verus! {

/// Logical bytes of one decoded leaf entry, its name aside.
pub const ATTRIBUTE_ENTRY_BYTES: u64 = 80;

/// Logical bytes of one decoded child, its name aside.
pub const ATTRIBUTE_CHILD_BYTES: u64 = 72;

/// Authenticated named-attribute lookup failures.
#[derive(Debug, PartialEq, Eq)]
pub enum AttributeLookupError {
    /// Cancellation occurred before a storage boundary.
    Cancelled,
    /// Batch lookup requires at least one name.
    EmptyBatch,
    /// Batch lookup exceeds its explicit query limit.
    TooManyQueries,
    /// Root is not an attribute page.
    WrongRootKind,
    /// Traversal or page limits are invalid.
    InvalidLimits,
    /// Traversal exceeded the admitted height.
    HeightExceeded,
    /// Authenticated graph cycles or aliases.
    CycleOrAlias,
    /// A parent route does not match child bounds.
    ChildBoundsMismatch,
    /// No child can route the requested name.
    InvalidRouting,
    /// Bounded scratch allocation failed.
    AllocationFailed,
    /// Immutable object storage failed.
    Storage(ObjectStoreError),
    /// Canonical attribute page failed decoding.
    Decode(CanonicalDecodeError),
    /// Work accounting overflowed or exceeded the admitted budget.
    Work(WorkError),
}

/// Abstract value of [`AttributeLookupError`].
#[verifier::ext_equal]
pub enum AttributeLookupErrorView {
    /// Cancellation occurred before a storage boundary.
    Cancelled,
    /// Batch lookup requires at least one name.
    EmptyBatch,
    /// Batch lookup exceeds its explicit query limit.
    TooManyQueries,
    /// Root is not an attribute page.
    WrongRootKind,
    /// Traversal or page limits are invalid.
    InvalidLimits,
    /// Traversal exceeded the admitted height.
    HeightExceeded,
    /// Authenticated graph cycles or aliases.
    CycleOrAlias,
    /// A parent route does not match child bounds.
    ChildBoundsMismatch,
    /// No child can route the requested name.
    InvalidRouting,
    /// Bounded scratch allocation failed.
    AllocationFailed,
    /// Immutable object storage failed.
    Storage(ObjectStoreError),
    /// Canonical attribute page failed decoding.
    Decode(DecodeErrorView),
    /// Work accounting overflowed or exceeded the admitted budget.
    Work(WorkError),
}

impl View for AttributeLookupError {
    type V = AttributeLookupErrorView;

    open spec fn view(&self) -> AttributeLookupErrorView {
        match *self {
            AttributeLookupError::Cancelled => AttributeLookupErrorView::Cancelled,
            AttributeLookupError::EmptyBatch => AttributeLookupErrorView::EmptyBatch,
            AttributeLookupError::TooManyQueries => AttributeLookupErrorView::TooManyQueries,
            AttributeLookupError::WrongRootKind => AttributeLookupErrorView::WrongRootKind,
            AttributeLookupError::InvalidLimits => AttributeLookupErrorView::InvalidLimits,
            AttributeLookupError::HeightExceeded => AttributeLookupErrorView::HeightExceeded,
            AttributeLookupError::CycleOrAlias => AttributeLookupErrorView::CycleOrAlias,
            AttributeLookupError::ChildBoundsMismatch => {
                AttributeLookupErrorView::ChildBoundsMismatch
            },
            AttributeLookupError::InvalidRouting => AttributeLookupErrorView::InvalidRouting,
            AttributeLookupError::AllocationFailed => AttributeLookupErrorView::AllocationFailed,
            AttributeLookupError::Storage(error) => AttributeLookupErrorView::Storage(error),
            AttributeLookupError::Decode(error) => AttributeLookupErrorView::Decode(error@),
            AttributeLookupError::Work(error) => AttributeLookupErrorView::Work(error),
        }
    }
}

/// Named-attribute lookup failure retaining all exact spent work.
pub type AttributeLookupFailure = OperationFailure<AttributeLookupError>;

/// A failure with the work spent until then.
pub type Failing = (AttributeLookupErrorView, WorkCounters);

/// A failure as an abstract one.
pub open spec fn failure_is(failure: AttributeLookupFailure, failing: Failing) -> bool {
    failure.error@ == failing.0 && failure.work == failing.1
}

/// Exact authenticated named-attribute lookup result.
#[derive(Debug, PartialEq, Eq)]
pub struct AttributeLookup {
    /// Matching complete entry, or authenticated absence.
    pub entry: Option<AttributeEntry>,
    /// Exact backend, traversal, and logical allocation work.
    pub work: WorkCounters,
}

/// An allocation failure as a lookup failure.
pub open spec fn allocation_cause(error: AllocationError) -> AttributeLookupErrorView {
    match error {
        AllocationError::Work(error) => AttributeLookupErrorView::Work(error),
        _ => AttributeLookupErrorView::AllocationFailed,
    }
}

fn map_allocation(error: AllocationError) -> (r: AttributeLookupError)
    ensures
        r@ == allocation_cause(error),
{
    match error {
        AllocationError::Work(error) => AttributeLookupError::Work(error),
        _ => AttributeLookupError::AllocationFailed,
    }
}

/// A storage failure as a lookup failure.
pub open spec fn storage_cause(error: ObjectStoreError) -> AttributeLookupErrorView {
    if error == ObjectStoreError::Cancelled {
        AttributeLookupErrorView::Cancelled
    } else {
        AttributeLookupErrorView::Storage(error)
    }
}

fn map_storage(error: ObjectStoreError) -> (r: AttributeLookupError)
    ensures
        r@ == storage_cause(error),
{
    match error {
        ObjectStoreError::Cancelled => AttributeLookupError::Cancelled,
        error => AttributeLookupError::Storage(error),
    }
}

/// Backend work on top of earlier work: its peak adds to the bytes live meanwhile.
pub open spec fn backend_merged(prior: WorkCounters, backend: WorkCounters, live: u64) -> Result<
    WorkCounters,
    WorkError,
> {
    if live + backend.peak_allocation_bytes > u64::MAX {
        Err(WorkError::Overflow)
    } else {
        match total(prior, WorkCounters { peak_allocation_bytes: 0, ..backend }) {
            Err(error) => Err(error),
            Ok(sum) => Ok(
                WorkCounters {
                    peak_allocation_bytes: larger(
                        sum.peak_allocation_bytes,
                        (live + backend.peak_allocation_bytes) as u64,
                    ),
                    ..sum
                },
            ),
        }
    }
}

/// Adds backend work on top of earlier work.
pub fn merge_backend_work(prior: WorkCounters, backend: WorkCounters, live_bytes: u64) -> (r: Result<
    WorkCounters,
    WorkError,
>)
    ensures
        r == backend_merged(prior, backend, live_bytes),
{
    if backend.peak_allocation_bytes > u64::MAX - live_bytes {
        return Err(WorkError::Overflow);
    }
    let simultaneous: u64 = live_bytes + backend.peak_allocation_bytes;
    let mut counted = backend;
    counted.peak_allocation_bytes = 0;
    match prior.checked_add(counted) {
        Err(error) => Err(error),
        Ok(sum) => {
            let mut merged = sum;
            if merged.peak_allocation_bytes < simultaneous {
                merged.peak_allocation_bytes = simultaneous;
            }
            Ok(merged)
        },
    }
}

/// Binary search of a leaf: where a name stands, and how many comparisons it took.
pub open spec fn entry_search(
    entries: Seq<AttributeEntryView>,
    name: AttributeNameView,
    low: int,
    high: int,
) -> (Option<int>, nat)
    decreases high - low,
{
    if low >= high {
        (None, 0)
    } else {
        let middle = low + (high - low) / 2;
        if name_lt(entries[middle].name, name) {
            let (found, steps) = entry_search(entries, name, middle + 1, high);
            (found, steps + 1)
        } else if name_lt(name, entries[middle].name) {
            let (found, steps) = entry_search(entries, name, low, middle);
            (found, steps + 1)
        } else {
            (Some(middle), 1)
        }
    }
}

/// Binary search of children: how many begin at or before a name, and how many
/// comparisons it took.
pub open spec fn child_search(
    children: Seq<AttributeChildView>,
    name: AttributeNameView,
    low: int,
    high: int,
) -> (int, nat)
    decreases high - low,
{
    if low >= high {
        (low, 0)
    } else {
        let middle = low + (high - low) / 2;
        if !name_lt(name, children[middle].first_name) {
            let (found, steps) = child_search(children, name, middle + 1, high);
            (found, steps + 1)
        } else {
            let (found, steps) = child_search(children, name, low, middle);
            (found, steps + 1)
        }
    }
}

proof fn lemma_entry_steps(
    entries: Seq<AttributeEntryView>,
    name: AttributeNameView,
    low: int,
    high: int,
)
    requires
        0 <= low <= high,
    ensures
        entry_search(entries, name, low, high).1 <= high - low,
        entry_search(entries, name, low, high).0 matches Some(i) ==> low <= i < high,
    decreases high - low,
{
    if low < high {
        let middle = low + (high - low) / 2;
        lemma_entry_steps(entries, name, middle + 1, high);
        lemma_entry_steps(entries, name, low, middle);
    }
}

proof fn lemma_child_steps(
    children: Seq<AttributeChildView>,
    name: AttributeNameView,
    low: int,
    high: int,
)
    requires
        0 <= low <= high,
    ensures
        child_search(children, name, low, high).1 <= high - low,
        low <= child_search(children, name, low, high).0 <= high,
    decreases high - low,
{
    if low < high {
        let middle = low + (high - low) / 2;
        lemma_child_steps(children, name, middle + 1, high);
        lemma_child_steps(children, name, low, middle);
    }
}

/// Searches a leaf.
fn search_entries(entries: &Vec<AttributeEntry>, name: &AttributeName) -> (r: (Option<usize>, u64))
    ensures
        ({
            let found = entry_search(views(entries@), name@, 0, entries@.len() as int);
            &&& r.1 == found.1
            &&& match r.0 {
                Some(i) => found.0 == Some(i as int) && i < entries@.len(),
                None => found.0 is None,
            }
        }),
{
    let ghost all = views(entries@);
    let ghost whole = entry_search(all, name@, 0, all.len() as int);
    let mut low: usize = 0;
    let size: usize = entries.len();
    let mut high: usize = size;
    let mut steps: u64 = 0;
    proof {
        lemma_entry_steps(all, name@, 0, all.len() as int);
    }
    while low < high
        invariant
            low <= high <= entries@.len(),
            size == all.len(),
            all == views(entries@),
            whole == entry_search(all, name@, 0, all.len() as int),
            whole.1 <= all.len(),
            whole.0 == entry_search(all, name@, low as int, high as int).0,
            whole.1 == entry_search(all, name@, low as int, high as int).1 + steps,
        decreases high - low,
    {
        let middle: usize = low + (high - low) / 2;
        assert(all[middle as int] == entries@[middle as int]@);
        proof {
            lemma_name_order(all[middle as int].name, name@, name@);
        }
        assert(entry_search(all, name@, low as int, high as int).1 >= 1);
        steps = steps + 1;
        match entries[middle].name.placed(name) {
            Position::Before => {
                low = middle + 1;
            },
            Position::After => {
                high = middle;
            },
            Position::Same => {
                return (Some(middle), steps);
            },
        }
    }
    (None, steps)
}

/// Counts the children that begin at or before a name.
fn upper_bound_children(children: &Vec<AttributeChild>, name: &AttributeName) -> (r: (usize, u64))
    ensures
        ({
            let found = child_search(views(children@), name@, 0, children@.len() as int);
            r.0 == found.0 && r.1 == found.1 && r.0 <= children@.len()
        }),
{
    let ghost all = views(children@);
    let ghost whole = child_search(all, name@, 0, all.len() as int);
    let mut low: usize = 0;
    let size: usize = children.len();
    let mut high: usize = size;
    let mut steps: u64 = 0;
    proof {
        lemma_child_steps(all, name@, 0, all.len() as int);
    }
    while low < high
        invariant
            low <= high <= children@.len(),
            size == all.len(),
            all == views(children@),
            whole == child_search(all, name@, 0, all.len() as int),
            whole.1 <= all.len(),
            whole.0 == child_search(all, name@, low as int, high as int).0,
            whole.1 == child_search(all, name@, low as int, high as int).1 + steps,
        decreases high - low,
    {
        let middle: usize = low + (high - low) / 2;
        assert(all[middle as int] == children@[middle as int]@);
        assert(child_search(all, name@, low as int, high as int).1 >= 1);
        steps = steps + 1;
        if !name.precedes(&children[middle].first_name) {
            low = middle + 1;
        } else {
            high = middle;
        }
    }
    (low, steps)
}

/// Whether leaf entries agree with the bounds under which they were reached.
pub open spec fn entries_within(
    entries: Seq<AttributeEntryView>,
    lower: Option<AttributeNameView>,
    upper: Option<AttributeNameView>,
) -> bool {
    &&& lower matches Some(low) ==> entries.len() > 0 && entries[0].name == low
    &&& upper matches Some(high) ==> entries.len() > 0 ==> name_lt(entries.last().name, high)
}

/// Whether children agree with the bounds under which they were reached.
pub open spec fn children_within(
    children: Seq<AttributeChildView>,
    lower: Option<AttributeNameView>,
    upper: Option<AttributeNameView>,
) -> bool {
    &&& lower matches Some(low) ==> children.len() > 0 && children[0].first_name == low
    &&& upper matches Some(high) ==> children.len() > 0 ==> name_lt(
        children.last().first_name,
        high,
    )
}

/// An optional name.
pub open spec fn name_view(name: Option<AttributeName>) -> Option<AttributeNameView> {
    match name {
        Some(name) => Some(name@),
        None => None,
    }
}

/// Tells whether leaf entries agree with the bounds under which they were reached.
pub fn validate_leaf(
    entries: &Vec<AttributeEntry>,
    lower: &Option<AttributeName>,
    upper: &Option<AttributeName>,
) -> (r: bool)
    ensures
        r == entries_within(views(entries@), name_view(*lower), name_view(*upper)),
{
    let ghost all = views(entries@);
    if entries.len() > 0 {
        assert(all[0] == entries@[0]@);
        assert(all.last() == entries@[entries@.len() - 1]@);
    }
    if let Some(low) = lower {
        if entries.len() == 0 || !entries[0].name.same(low) {
            return false;
        }
    }
    if let Some(high) = upper {
        if entries.len() > 0 && !entries[entries.len() - 1].name.precedes(high) {
            return false;
        }
    }
    true
}

/// Tells whether children agree with the bounds under which they were reached.
pub fn validate_children(
    children: &Vec<AttributeChild>,
    lower: &Option<AttributeName>,
    upper: &Option<AttributeName>,
) -> (r: bool)
    ensures
        r == children_within(views(children@), name_view(*lower), name_view(*upper)),
{
    let ghost all = views(children@);
    if children.len() > 0 {
        assert(all[0] == children@[0]@);
        assert(all.last() == children@[children@.len() - 1]@);
    }
    if let Some(low) = lower {
        if children.len() == 0 || !children[0].first_name.same(low) {
            return false;
        }
    }
    if let Some(high) = upper {
        if children.len() > 0 && !children[children.len() - 1].first_name.precedes(high) {
            return false;
        }
    }
    true
}

/// A lookup between two reads.
pub struct AttributeLookupMachine {
    name: AttributeName,
    limits: DecodeLimits,
    budget: WorkBudget,
    page: ObjectId,
    lower: Option<AttributeName>,
    upper: Option<AttributeName>,
    visited: VisitedObjectSet,
    work: WorkCounters,
}

/// Abstract value of [`AttributeLookupMachine`].
#[verifier::ext_equal]
pub struct AttributeLookupView {
    /// Name looked up.
    pub name: AttributeNameView,
    /// Decoding bounds.
    pub limits: DecodeLimits,
    /// Work admitted.
    pub budget: WorkBudget,
    /// Page to read next.
    pub page: ObjectView,
    /// Name that the page must begin with.
    pub lower: Option<AttributeNameView>,
    /// Name that the page must stay below.
    pub upper: Option<AttributeNameView>,
    /// Pages read.
    pub visited: VisitedView,
    /// Work spent.
    pub work: WorkCounters,
}

impl View for AttributeLookupMachine {
    type V = AttributeLookupView;

    closed spec fn view(&self) -> AttributeLookupView {
        AttributeLookupView {
            name: self.name@,
            limits: self.limits,
            budget: self.budget,
            page: self.page@,
            lower: name_view(self.lower),
            upper: name_view(self.upper),
            visited: self.visited.model(),
            work: self.work,
        }
    }
}

/// Bytes of an optional name.
pub open spec fn bound_bytes(name: Option<AttributeNameView>) -> nat {
    match name {
        Some(name) => name.bytes.len(),
        None => 0,
    }
}

/// Logical bytes that a lookup holds between two reads: its two bounds and the pages
/// visited.
pub open spec fn live_of(lookup: AttributeLookupView) -> nat {
    bound_bytes(lookup.lower) + bound_bytes(lookup.upper) + lookup.visited.bytes as nat
}

/// Whether a lookup is in a state that its steps lead to.
pub open spec fn lookup_sound(lookup: AttributeLookupView) -> bool {
    &&& bound_bytes(lookup.lower) <= u32::MAX
    &&& bound_bytes(lookup.upper) <= u32::MAX
    &&& lookup.visited.sound()
    &&& lookup.visited.maximum <= u16::MAX
}

/// Most pages that a lookup may read.
pub open spec fn visit_bound(limits: DecodeLimits) -> nat {
    if limits.maximum_page_height <= limits.maximum_visited_pages {
        limits.maximum_page_height as nat
    } else {
        limits.maximum_visited_pages as nat
    }
}

/// A lookup that has counted its next page as visited, or why it may not read it.
pub open spec fn attribute_visits(lookup: AttributeLookupView) -> Result<
    AttributeLookupView,
    Failing,
> {
    if lookup.visited.length >= lookup.limits.maximum_page_height {
        Err((AttributeLookupErrorView::HeightExceeded, lookup.work))
    } else {
        match visited_added(
            lookup.visited,
            lookup.page,
            live_of(lookup) as u64,
            lookup.work,
            lookup.budget,
        ) {
            (Err(error), _, _, work) => Err((allocation_cause(error), work)),
            (Ok(inserted), visited, _, work) => if !inserted {
                Err((AttributeLookupErrorView::CycleOrAlias, work))
            } else {
                Ok(AttributeLookupView { visited, work, ..lookup })
            },
        }
    }
}

/// What a lookup asks for, with the work that the read is counted into.
pub open spec fn attribute_asks(lookup: AttributeLookupView) -> Result<
    (RequestView, WorkCounters),
    Failing,
> {
    match total(lookup.work, WorkCounters { page_reads: 1, ..no_work() }) {
        Err(error) => Err((AttributeLookupErrorView::Work(error), lookup.work)),
        Ok(prospective) => if !within(prospective, lookup.budget) {
            Err((AttributeLookupErrorView::Work(WorkError::Exceeded), lookup.work))
        } else if live_of(lookup) > lookup.budget.peak_allocation_bytes {
            Err((AttributeLookupErrorView::Work(WorkError::Overflow), lookup.work))
        } else {
            Ok(
                (
                    RequestView {
                        object: lookup.page,
                        maximum_bytes: lookup.limits.page_object_bytes(),
                        remaining: WorkBudget {
                            peak_allocation_bytes: (lookup.budget.peak_allocation_bytes
                                - live_of(lookup)) as u64,
                            ..left_over(prospective, lookup.budget)
                        },
                    },
                    prospective,
                ),
            )
        },
    }
}

/// What a lookup asks for next, with the work that the read is counted into and the
/// lookup while it waits.
pub open spec fn attribute_request(lookup: AttributeLookupView) -> Result<
    (RequestView, WorkCounters, AttributeLookupView),
    Failing,
> {
    match attribute_visits(lookup) {
        Err(failing) => Err(failing),
        Ok(waiting) => match attribute_asks(waiting) {
            Err(failing) => Err(failing),
            Ok((request, prospective)) => Ok((request, prospective, waiting)),
        },
    }
}

/// What a page tells a lookup.
pub enum AttributeStep {
    /// The answer.
    Found(Option<AttributeEntryView>, WorkCounters),
    /// The next page.
    Descend(AttributeLookupView),
}

/// Bytes that a read holds on to.
pub open spec fn retained_bytes(read: ReadView) -> u64 {
    match read.retention {
        ObjectReadRetention::Shared => 0,
        ObjectReadRetention::Owned { logical_bytes } => logical_bytes,
    }
}

/// Logical bytes of a decoded page.
pub open spec fn decoded_bytes(kind: DecodedPageKind, items: nat, nested: nat) -> nat {
    (if kind == DecodedPageKind::Leaf {
        items * 80
    } else {
        items * 72
    }) + nested
}

/// Examined items.
pub open spec fn examining(count: nat) -> WorkCounters {
    WorkCounters { items_examined: count as u64, ..no_work() }
}

/// The work behind reading and decoding a page, or why it is refused: backend
/// work, the retained buffer, one examined item and the copied names per
/// entry, and the decoded page.
pub open spec fn page_charged(
    live: nat,
    prospective: WorkCounters,
    read: ReadView,
    limits: DecodeLimits,
    budget: WorkBudget,
) -> Result<WorkCounters, Failing> {
    match backend_merged(prospective, read.work, live as u64) {
        Err(error) => Err((AttributeLookupErrorView::Work(error), prospective)),
        Ok(merged) => if !within(merged, budget) {
            Err((AttributeLookupErrorView::Work(WorkError::Exceeded), merged))
        } else {
            match claimed(live as u64, retained_bytes(read), 0, merged, budget) {
                Err(error) => Err((allocation_cause(error), merged)),
                Ok(work) => match page_shape::<AttributeEntry, AttributeChild>(
                    read.bytes,
                    attribute_format(),
                    limits,
                ) {
                    Err(error) => Err((AttributeLookupErrorView::Decode(error), work)),
                    Ok((kind, items, nested)) => match charged(work, examining(items), budget) {
                        Err(error) => Err((AttributeLookupErrorView::Work(error), work)),
                        Ok(work) => match charged(
                            work,
                            WorkCounters { bytes_copied: nested as u64, ..no_work() },
                            budget,
                        ) {
                            Err(error) => Err((AttributeLookupErrorView::Work(error), work)),
                            Ok(work) => {
                                let size = decoded_bytes(kind, items, nested);
                                match claimed(
                                    (live + retained_bytes(read)) as u64,
                                    size as u64,
                                    if size != 0 {
                                        1
                                    } else {
                                        0
                                    },
                                    work,
                                    budget,
                                ) {
                                    Err(error) => Err((allocation_cause(error), work)),
                                    Ok(work) => Ok(work),
                                }
                            },
                        },
                    },
                },
            }
        },
    }
}

/// What a lookup makes of the page it asked for.
pub open spec fn attribute_accepts(
    lookup: AttributeLookupView,
    prospective: WorkCounters,
    read: ReadView,
) -> Result<AttributeStep, Failing> {
    match page_charged(live_of(lookup), prospective, read, lookup.limits, lookup.budget) {
        Err(failing) => Err(failing),
        Ok(work) => match attribute_decoded(read.bytes, lookup.limits) {
            Err(error) => Err((AttributeLookupErrorView::Decode(error), work)),
            Ok(PageView::Leaf(entries)) => if !entries_within(entries, lookup.lower, lookup.upper) {
                Err((AttributeLookupErrorView::ChildBoundsMismatch, work))
            } else {
                let (found, steps) = entry_search(
                    entries,
                    lookup.name,
                    0,
                    entries.len() as int,
                );
                match charged(work, examining(steps), lookup.budget) {
                    Err(error) => Err((AttributeLookupErrorView::Work(error), work)),
                    Ok(work) => {
                        let returned = WorkCounters {
                            items_returned: if found is Some {
                                1
                            } else {
                                0
                            },
                            ..no_work()
                        };
                        match total(work, returned) {
                            Err(error) => Err((AttributeLookupErrorView::Work(error), work)),
                            Ok(work) => if !within(work, lookup.budget) {
                                Err((AttributeLookupErrorView::Work(WorkError::Exceeded), work))
                            } else {
                                Ok(
                                    AttributeStep::Found(
                                        match found {
                                            Some(i) => Some(entries[i]),
                                            None => None,
                                        },
                                        work,
                                    ),
                                )
                            },
                        }
                    },
                }
            },
            Ok(PageView::Internal(children)) => if !children_within(
                children,
                lookup.lower,
                lookup.upper,
            ) {
                Err((AttributeLookupErrorView::ChildBoundsMismatch, work))
            } else {
                let (before, steps) = child_search(
                    children,
                    lookup.name,
                    0,
                    children.len() as int,
                );
                match charged(work, examining(steps), lookup.budget) {
                    Err(error) => Err((AttributeLookupErrorView::Work(error), work)),
                    Ok(work) => {
                        let at = if before == 0 {
                            0
                        } else {
                            before - 1
                        };
                        Ok(
                            AttributeStep::Descend(
                                AttributeLookupView {
                                    page: children[at].page,
                                    lower: Some(children[at].first_name),
                                    upper: if at + 1 < children.len() {
                                        Some(children[at + 1].first_name)
                                    } else {
                                        lookup.upper
                                    },
                                    work,
                                    ..lookup
                                },
                            ),
                        )
                    },
                }
            },
        },
    }
}

/// A fresh lookup, or why it cannot begin.
pub open spec fn attribute_begun(
    root: ObjectView,
    name: AttributeNameView,
    limits: DecodeLimits,
    budget: WorkBudget,
) -> Result<AttributeLookupView, Failing> {
    if root.kind != ObjectKind::AttributePage {
        Err((AttributeLookupErrorView::WrongRootKind, no_work()))
    } else if !limits.admits_pages(1) {
        Err((AttributeLookupErrorView::InvalidLimits, no_work()))
    } else {
        match visited_begun(visit_bound(limits), 0, no_work(), budget) {
            Err(error) => Err((allocation_cause(error), no_work())),
            Ok((visited, _, work)) => Ok(
                AttributeLookupView {
                    name,
                    limits,
                    budget,
                    page: root,
                    lower: None,
                    upper: None,
                    visited,
                    work,
                },
            ),
        }
    }
}

fn bound_size(name: &Option<AttributeName>) -> (r: usize)
    ensures
        r == bound_bytes(name_view(*name)),
{
    match name {
        Some(name) => name.as_bytes().len(),
        None => 0,
    }
}

/// Charges one page, as [`page_charged`] says.
fn charge_page(
    live: u64,
    prospective: WorkCounters,
    read: &ObjectRead,
    limits: DecodeLimits,
    budget: WorkBudget,
) -> (r: Result<WorkCounters, AttributeLookupFailure>)
    ensures
        match page_charged(live as nat, prospective, read@, limits, budget) {
            Ok(work) => r == Ok::<WorkCounters, AttributeLookupFailure>(work),
            Err(failing) => r matches Err(failure) && failure_is(failure, failing),
        },
{
    let merged = match merge_backend_work(prospective, read.work, live) {
        Ok(merged) => merged,
        Err(error) => {
            return Err(OperationFailure::new(AttributeLookupError::Work(error), prospective));
        },
    };
    if let Err(error) = merged.verify(budget) {
        return Err(OperationFailure::new(AttributeLookupError::Work(error), merged));
    }
    let retained: u64 = match read.retention {
        ObjectReadRetention::Shared => 0,
        ObjectReadRetention::Owned { logical_bytes } => logical_bytes,
    };
    let mut ledger = AllocationLedger { live_bytes: live };
    let mut work = merged;
    if let Err(error) = ledger.claim_bytes(retained, 0, &mut work, budget) {
        return Err(OperationFailure::new(map_allocation(error), work));
    }
    let shape = match attribute_page_decode_shape(read.bytes.as_slice(), limits) {
        Ok(shape) => shape,
        Err(error) => {
            return Err(OperationFailure::new(AttributeLookupError::Decode(error), work));
        },
    };
    proof {
        lemma_shape_size(read.bytes@, limits);
    }
    work =
    match work.charge(WorkCounters::of_items_examined(shape.items as u64), budget) {
        Ok(work) => work,
        Err(error) => {
            return Err(OperationFailure::new(AttributeLookupError::Work(error), work));
        },
    };
    work =
    match work.charge(WorkCounters::of_bytes_copied(shape.nested_bytes), budget) {
        Ok(work) => work,
        Err(error) => {
            return Err(OperationFailure::new(AttributeLookupError::Work(error), work));
        },
    };
    let each: u64 = match shape.kind {
        DecodedPageKind::Leaf => ATTRIBUTE_ENTRY_BYTES,
        DecodedPageKind::Internal => ATTRIBUTE_CHILD_BYTES,
    };
    assert(shape.items * each <= 0xffff_ffff * 80) by (nonlinear_arith)
        requires
            shape.items <= 0xffff_ffff,
            each <= 80,
    ;
    let size: u64 = shape.items as u64 * each + shape.nested_bytes;
    let operations: u64 = if size != 0 {
        1
    } else {
        0
    };
    if let Err(error) = ledger.claim_bytes(size, operations, &mut work, budget) {
        return Err(OperationFailure::new(map_allocation(error), work));
    }
    Ok(work)
}

proof fn lemma_skips_within<T: super::codec::CanonicalItem>(
    bytes: Seq<u8>,
    at: int,
    limits: DecodeLimits,
    count: nat,
)
    requires
        0 <= at <= bytes.len(),
        super::codec::skips_at::<T>(bytes, at, limits, count) is Ok,
    ensures
        ({
            let (nested, end) = super::codec::skips_at::<T>(bytes, at, limits, count)->Ok_0;
            at <= end <= bytes.len() && nested <= end - at
        }),
    decreases count,
{
    if count > 0 {
        lemma_skips_within::<T>(bytes, at, limits, (count - 1) as nat);
        let (_, mid) = super::codec::skips_at::<T>(bytes, at, limits, (count - 1) as nat)->Ok_0;
        T::skip_stays_within(bytes, mid, limits);
    }
}

/// The nested bytes of a page are fewer than its bytes, which are bounded.
proof fn lemma_shape_size(bytes: Seq<u8>, limits: DecodeLimits)
    requires
        page_shape::<AttributeEntry, AttributeChild>(bytes, attribute_format(), limits) is Ok,
    ensures
        ({
            let (_, items, nested) = page_shape::<AttributeEntry, AttributeChild>(
                bytes,
                attribute_format(),
                limits,
            )->Ok_0;
            items <= u32::MAX && nested <= u32::MAX
        }),
{
    let (tag, count, at) = super::codec::page_start(bytes, attribute_format(), limits)->Ok_0;
    if tag == 1 {
        lemma_skips_within::<AttributeEntry>(bytes, at, limits, count as nat);
    } else {
        lemma_skips_within::<AttributeChild>(bytes, at, limits, count as nat);
    }
}

impl AttributeLookupMachine {
    /// Begins a lookup.
    pub fn new(
        root: ObjectId,
        name: &AttributeName,
        limits: DecodeLimits,
        budget: WorkBudget,
    ) -> (r: Result<Self, AttributeLookupFailure>)
        ensures
            match attribute_begun(root@, name@, limits, budget) {
                Err(failing) => r matches Err(failure) && failure_is(failure, failing),
                Ok(begun) => r matches Ok(machine) && machine@ == begun && lookup_sound(begun),
            },
    {
        if root.kind != ObjectKind::AttributePage {
            return Err(OperationFailure::before_work(AttributeLookupError::WrongRootKind));
        }
        if !limits.page_limits_valid(1) {
            return Err(OperationFailure::before_work(AttributeLookupError::InvalidLimits));
        }
        let bound: usize = if limits.maximum_page_height as u32 <= limits.maximum_visited_pages {
            limits.maximum_page_height as usize
        } else {
            limits.maximum_visited_pages as usize
        };
        let mut ledger = AllocationLedger::default();
        let mut work = WorkCounters::default();
        let visited = match VisitedObjectSet::new(bound, &mut ledger, &mut work, budget) {
            Ok(visited) => visited,
            Err(error) => {
                return Err(OperationFailure::new(map_allocation(error), work));
            },
        };
        proof {
            lemma_visited_begun(visit_bound(limits), 0, no_work(), budget);
        }
        Ok(
            AttributeLookupMachine {
                name: name.replicate(),
                limits,
                budget,
                page: root,
                lower: None,
                upper: None,
                visited,
                work,
            },
        )
    }

    /// Asks for the next page.
    pub fn prepare_read(&mut self) -> (r: Result<
        (ReadRequest, WorkCounters),
        AttributeLookupFailure,
    >)
        requires
            lookup_sound(old(self)@),
        ensures
            match attribute_request(old(self)@) {
                Ok((request, prospective, waiting)) => r matches Ok(made) && made.0@ == request
                    && made.1 == prospective && final(self)@ == waiting && lookup_sound(waiting),
                Err(failing) => r matches Err(failure) && failure_is(failure, failing),
            },
    {
        if self.visited.len() >= self.limits.maximum_page_height as usize {
            return Err(OperationFailure::new(AttributeLookupError::HeightExceeded, self.work));
        }
        let ghost before = self@;
        let mut ledger = AllocationLedger { live_bytes: self.live() };
        proof {
            lemma_visited_added(
                before.visited,
                before.page,
                ledger.live_bytes,
                before.work,
                before.budget,
            );
        }
        match self.visited.insert(self.page, &mut ledger, &mut self.work, self.budget) {
            Ok(done) => {
                if !done.inserted {
                    return Err(
                        OperationFailure::new(AttributeLookupError::CycleOrAlias, self.work),
                    );
                }
            },
            Err(error) => {
                return Err(OperationFailure::new(map_allocation(error), self.work));
            },
        }
        assert(self@ =~= attribute_visits(before)->Ok_0);
        let prospective = match self.work.checked_add(WorkCounters::of_page_reads(1)) {
            Ok(sum) => sum,
            Err(error) => {
                return Err(OperationFailure::new(AttributeLookupError::Work(error), self.work));
            },
        };
        let mut remaining = match prospective.remaining(self.budget) {
            Ok(remaining) => remaining,
            Err(error) => {
                return Err(OperationFailure::new(AttributeLookupError::Work(error), self.work));
            },
        };
        let live = self.live();
        if live > self.budget.peak_allocation_bytes {
            return Err(
                OperationFailure::new(AttributeLookupError::Work(WorkError::Overflow), self.work),
            );
        }
        remaining.peak_allocation_bytes = self.budget.peak_allocation_bytes - live;
        Ok(
            (
                ReadRequest {
                    object: self.page,
                    maximum_bytes: self.limits.maximum_page_object_bytes(),
                    remaining,
                },
                prospective,
            ),
        )
    }

    /// Logical bytes held between two reads.
    fn live(&self) -> (r: u64)
        requires
            lookup_sound(self@),
        ensures
            r == live_of(self@),
    {
        bound_size(&self.lower) as u64 + bound_size(&self.upper) as u64
            + self.visited.logical_bytes()
    }

    /// Takes the page asked for.
    pub fn accept(&mut self, prospective: WorkCounters, read: &ObjectRead) -> (r: Result<
        Option<AttributeLookup>,
        AttributeLookupFailure,
    >)
        requires
            lookup_sound(old(self)@),
        ensures
            match attribute_accepts(old(self)@, prospective, read@) {
                Err(failing) => r matches Err(failure) && failure_is(failure, failing),
                Ok(AttributeStep::Found(entry, work)) => r matches Ok(Some(found)) && found.work
                    == work && (match found.entry {
                    Some(x) => entry == Some(x@),
                    None => entry is None,
                }),
                Ok(AttributeStep::Descend(next)) => r matches Ok(None) && final(self)@ == next,
            },
    {
        let live = self.live();
        let work = match charge_page(live, prospective, read, self.limits, self.budget) {
            Ok(work) => work,
            Err(failure) => {
                return Err(failure);
            },
        };
        match decode_attribute_page(read.bytes.as_slice(), self.limits) {
            Err(error) => Err(OperationFailure::new(AttributeLookupError::Decode(error), work)),
            Ok(AttributePage::Leaf(entries)) => {
                let ghost all = views(entries@);
                if !validate_leaf(&entries, &self.lower, &self.upper) {
                    return Err(
                        OperationFailure::new(AttributeLookupError::ChildBoundsMismatch, work),
                    );
                }
                let (found, steps) = search_entries(&entries, &self.name);
                let searched = match work.charge(WorkCounters::of_items_examined(steps), self.budget) {
                    Ok(work) => work,
                    Err(error) => {
                        return Err(OperationFailure::new(AttributeLookupError::Work(error), work));
                    },
                };
                let returned: u64 = if found.is_some() {
                    1
                } else {
                    0
                };
                let done = match searched.checked_add(WorkCounters::of_items_returned(returned)) {
                    Ok(work) => work,
                    Err(error) => {
                        return Err(
                            OperationFailure::new(AttributeLookupError::Work(error), searched),
                        );
                    },
                };
                if let Err(error) = done.verify(self.budget) {
                    return Err(OperationFailure::new(AttributeLookupError::Work(error), done));
                }
                let entry = match found {
                    Some(i) => {
                        assert(all[i as int] == entries@[i as int]@);
                        Some(entries[i].replicate())
                    },
                    None => None,
                };
                Ok(Some(AttributeLookup { entry, work: done }))
            },
            Ok(AttributePage::Internal(children)) => {
                let ghost all = views(children@);
                if !validate_children(&children, &self.lower, &self.upper) {
                    return Err(
                        OperationFailure::new(AttributeLookupError::ChildBoundsMismatch, work),
                    );
                }
                let (before, steps) = upper_bound_children(&children, &self.name);
                let searched = match work.charge(WorkCounters::of_items_examined(steps), self.budget) {
                    Ok(work) => work,
                    Err(error) => {
                        return Err(OperationFailure::new(AttributeLookupError::Work(error), work));
                    },
                };
                let at: usize = if before == 0 {
                    0
                } else {
                    before - 1
                };
                assert(all[at as int] == children@[at as int]@);
                self.lower = Some(children[at].first_name.replicate());
                if at + 1 < children.len() {
                    assert(all[at + 1] == children@[at + 1]@);
                    self.upper = Some(children[at + 1].first_name.replicate());
                }
                self.page = children[at].page;
                self.work = searched;
                Ok(None)
            },
        }
    }

    /// Turns a failed read into a failed lookup.
    pub fn storage_failure(&self, prospective: WorkCounters, failure: ObjectFailure) -> (r:
        AttributeLookupFailure)
        requires
            lookup_sound(self@),
        ensures
            match backend_merged(prospective, failure.work, live_of(self@) as u64) {
                Ok(work) => failure_is(r, (storage_cause(failure.error), work)),
                Err(error) => failure_is(r, (AttributeLookupErrorView::Work(error), prospective)),
            },
    {
        match merge_backend_work(prospective, failure.work, self.live()) {
            Ok(work) => OperationFailure::new(map_storage(failure.error), work),
            Err(error) => OperationFailure::new(AttributeLookupError::Work(error), prospective),
        }
    }

    /// The failure of a cancelled lookup.
    pub fn cancelled(&self) -> (r: AttributeLookupFailure)
        ensures
            failure_is(r, (AttributeLookupErrorView::Cancelled, self@.work)),
    {
        OperationFailure::new(AttributeLookupError::Cancelled, self.work)
    }
}

/// The outcome of a lookup that may still read `fuel` pages.
pub open spec fn attribute_outcome<S: ImmediateObjectStore>(
    store: &S,
    lookup: AttributeLookupView,
    fuel: nat,
) -> Result<(Option<AttributeEntryView>, WorkCounters), Failing>
    decreases fuel,
{
    match attribute_request(lookup) {
        Err(failing) => Err(failing),
        Ok((request, prospective, waiting)) => match store.answers(request) {
            Err(failure) => match backend_merged(
                prospective,
                failure.work,
                live_of(waiting) as u64,
            ) {
                Ok(work) => Err((storage_cause(failure.error), work)),
                Err(error) => Err((AttributeLookupErrorView::Work(error), prospective)),
            },
            Ok(read) => match attribute_accepts(waiting, prospective, read) {
                Err(failing) => Err(failing),
                Ok(AttributeStep::Found(entry, work)) => Ok((entry, work)),
                Ok(AttributeStep::Descend(next)) => if fuel == 0 {
                    Err((AttributeLookupErrorView::HeightExceeded, next.work))
                } else {
                    attribute_outcome(store, next, (fuel - 1) as nat)
                },
            },
        },
    }
}

/// Names of decoded pages are bounded, so are the bytes that a lookup holds.
proof fn lemma_live_bounded(
    lookup: AttributeLookupView,
    prospective: WorkCounters,
    read: ReadView,
)
    requires
        bound_bytes(lookup.upper) <= u32::MAX,
        attribute_accepts(lookup, prospective, read) matches Ok(AttributeStep::Descend(_)),
    ensures
        attribute_accepts(lookup, prospective, read) matches Ok(AttributeStep::Descend(next))
            ==> bound_bytes(next.lower) <= u32::MAX && bound_bytes(next.upper) <= u32::MAX,
{
    let bytes = read.bytes;
    let limits = lookup.limits;
    let (tag, count, at) = super::codec::page_start(bytes, attribute_format(), limits)->Ok_0;
    super::codec::items_write_back::<AttributeChild>(bytes, at, limits, count as nat);
    let (children, _) = super::codec::items_at::<AttributeChild>(
        bytes,
        at,
        limits,
        count as nat,
    )->Ok_0;
    let (before, _) = child_search(children, lookup.name, 0, children.len() as int);
    lemma_child_steps(children, lookup.name, 0, children.len() as int);
    let i = if before == 0 {
        0
    } else {
        before - 1
    };
    assert(<AttributeChild as super::codec::CanonicalItem>::item_fits(children[i], limits));
    if i + 1 < children.len() {
        assert(<AttributeChild as super::codec::CanonicalItem>::item_fits(children[i + 1], limits));
    }
}

/// Looks up one exact named attribute through one authenticated frontier.
pub fn lookup_attribute<S: ImmediateObjectStore>(
    store: &S,
    root: ObjectId,
    name: &AttributeName,
    limits: DecodeLimits,
    budget: WorkBudget,
) -> (r: Result<AttributeLookup, AttributeLookupFailure>)
    ensures
        match attribute_begun(root@, name@, limits, budget) {
            Err(failing) => r matches Err(failure) && failure_is(failure, failing),
            Ok(begun) => match attribute_outcome(
                store,
                begun,
                limits.maximum_page_height as nat,
            ) {
                Ok((entry, work)) => r matches Ok(found) && found.work == work && (
                match found.entry {
                    Some(x) => entry == Some(x@),
                    None => entry is None,
                }),
                Err(failing) => r matches Err(failure) && failure_is(failure, failing),
            },
        },
{
    let mut machine = match AttributeLookupMachine::new(root, name, limits, budget) {
        Ok(machine) => machine,
        Err(failure) => {
            return Err(failure);
        },
    };
    let ghost begun = machine@;
    let mut fuel: u16 = limits.maximum_page_height;
    loop
        invariant
            attribute_begun(root@, name@, limits, budget) == Ok::<AttributeLookupView, Failing>(
                begun,
            ),
            machine@.limits == limits,
            machine@.visited.length + fuel == limits.maximum_page_height,
            lookup_sound(machine@),
            attribute_outcome(store, begun, limits.maximum_page_height as nat)
                == attribute_outcome(store, machine@, fuel as nat),
        decreases fuel,
    {
        let ghost held = machine@;
        let (request, prospective) = match machine.prepare_read() {
            Ok(made) => made,
            Err(failure) => {
                return Err(failure);
            },
        };
        let read = match store.read(&request) {
            Ok(read) => read,
            Err(failure) => {
                return Err(machine.storage_failure(prospective, failure));
            },
        };
        let ghost waiting = machine@;
        match machine.accept(prospective, &read) {
            Err(failure) => {
                return Err(failure);
            },
            Ok(Some(found)) => {
                return Ok(found);
            },
            Ok(None) => {
                proof {
                    lemma_live_bounded(waiting, prospective, read@);
                    lemma_visited_added(
                        held.visited,
                        held.page,
                        live_of(held) as u64,
                        held.work,
                        held.budget,
                    );
                }
            },
        }
        fuel = fuel - 1;
    }
}

/// Binary search of ordered entries finds a name exactly where it stands.
pub proof fn entry_search_is_exact(
    entries: Seq<AttributeEntryView>,
    name: AttributeNameView,
    low: int,
    high: int,
)
    requires
        attribute_leaf_ordered(entries),
        0 <= low <= high <= entries.len(),
    ensures
        entry_search(entries, name, low, high).0 matches Some(i) ==> low <= i < high
            && entries[i].name == name,
        entry_search(entries, name, low, high).0 is None ==> forall|i: int|
            low <= i < high ==> (#[trigger] entries[i]).name != name,
    decreases high - low,
{
    if low < high {
        let middle = low + (high - low) / 2;
        entry_search_is_exact(entries, name, middle + 1, high);
        entry_search_is_exact(entries, name, low, middle);
        lemma_name_order(entries[middle].name, name, name);
        assert forall|i: int| low <= i < middle && entries[i].name == name implies !name_lt(
            entries[middle].name,
            name,
        ) by {
            assert(name_lt(entries[i].name, entries[middle].name));
            lemma_name_order(entries[i].name, entries[middle].name, name);
        }
        assert forall|i: int| middle < i < high && entries[i].name == name implies !name_lt(
            name,
            entries[middle].name,
        ) by {
            assert(name_lt(entries[middle].name, entries[i].name));
            lemma_name_order(entries[middle].name, entries[i].name, name);
        }
    }
}

/// The child to which a name is routed: the last that does not begin behind
/// it, or the first.
pub open spec fn attribute_route(
    children: Seq<AttributeChildView>,
    name: AttributeNameView,
) -> int {
    let before = child_search(children, name, 0, children.len() as int).0;
    if before == 0 {
        0
    } else {
        before - 1
    }
}

/// The entry of a name.
pub open spec fn entry_named(entries: Seq<AttributeEntryView>, name: AttributeNameView) -> Option<
    AttributeEntryView,
> {
    match entry_search(entries, name, 0, entries.len() as int).0 {
        Some(i) => Some(entries[i]),
        None => None,
    }
}

proof fn lemma_entry_named(entries: Seq<AttributeEntryView>, name: AttributeNameView, at: int)
    requires
        attribute_leaf_ordered(entries),
        0 <= at < entries.len(),
        entries[at].name == name,
    ensures
        entry_named(entries, name) == Some(entries[at]),
{
    entry_search_is_exact(entries, name, 0, entries.len() as int);
    lemma_name_order(name, name, name);
    match entry_search(entries, name, 0, entries.len() as int).0 {
        Some(i) => {
            if i < at {
                assert(name_lt(entries[i].name, entries[at].name));
            } else if at < i {
                assert(name_lt(entries[at].name, entries[i].name));
            }
        },
        None => {},
    }
}

/// Binary search of ordered children splits them at a name.
pub proof fn child_search_is_exact(
    children: Seq<AttributeChildView>,
    name: AttributeNameView,
    low: int,
    high: int,
)
    requires
        attribute_children_ordered(children),
        0 <= low <= high <= children.len(),
    ensures
        low <= child_search(children, name, low, high).0 <= high,
        forall|i: int|
            low <= i < child_search(children, name, low, high).0 ==> !name_lt(
                name,
                (#[trigger] children[i]).first_name,
            ),
        forall|i: int|
            child_search(children, name, low, high).0 <= i < high ==> name_lt(
                name,
                (#[trigger] children[i]).first_name,
            ),
    decreases high - low,
{
    if low < high {
        let middle = low + (high - low) / 2;
        child_search_is_exact(children, name, middle + 1, high);
        child_search_is_exact(children, name, low, middle);
        let own = children[middle].first_name;
        assert forall|i: int| low <= i < middle && !name_lt(name, own) implies !name_lt(
            name,
            (#[trigger] children[i]).first_name,
        ) by {
            assert(name_lt(children[i].first_name, own));
            lemma_name_order(name, children[i].first_name, own);
        }
        assert forall|i: int| middle < i < high && name_lt(name, own) implies name_lt(
            name,
            (#[trigger] children[i]).first_name,
        ) by {
            assert(name_lt(own, children[i].first_name));
            lemma_name_order(name, own, children[i].first_name);
        }
    }
}

proof fn lemma_attribute_route(children: Seq<AttributeChildView>, id: AttributeNameView)
    requires
        attribute_children_ordered(children),
    ensures
        0 <= attribute_route(children, id) < children.len(),
        attribute_route(children, id) > 0 ==> !name_lt(
            id,
            children[attribute_route(children, id)].first_name,
        ),
        forall|i: int|
            attribute_route(children, id) < i < children.len() ==> name_lt(
                id,
                (#[trigger] children[i]).first_name,
            ),
{
    child_search_is_exact(children, id, 0, children.len() as int);
}


/// One child of a page.
pub open spec fn child_of(children: Seq<AttributeChildView>, i: int) -> AttributeChildView {
    children[i]
}

/// Name that the subtree of a child stays below.
pub open spec fn upper_of(
    children: Seq<AttributeChildView>,
    i: int,
    upper: Option<AttributeNameView>,
) -> Option<AttributeNameView> {
    if i + 1 < children.len() {
        Some(children[i + 1].first_name)
    } else {
        upper
    }
}

/// Whether a page is the root of an attribute tree of at most a given height whose
/// pages decode and keep their bounds.
pub open spec fn attributes_sound(
    objects: Objects,
    limits: DecodeLimits,
    page: ObjectView,
    lower: Option<AttributeNameView>,
    upper: Option<AttributeNameView>,
    height: nat,
) -> bool
    decreases height,
{
    &&& height > 0
    &&& objects(page) is Some
    &&& match attribute_decoded(objects(page)->0, limits) {
        Err(_) => false,
        Ok(PageView::Leaf(entries)) => entries_within(entries, lower, upper),
        Ok(PageView::Internal(children)) => children_within(children, lower, upper) && forall|i: int|
            0 <= i < children.len() ==> attributes_sound(
                objects,
                limits,
                (#[trigger] child_of(children, i)).page,
                Some(children[i].first_name),
                upper_of(children, i, upper),
                (height - 1) as nat,
            ),
    }
}

/// Whether an attribute tree holds a entry.
pub open spec fn attributes_hold(
    objects: Objects,
    limits: DecodeLimits,
    page: ObjectView,
    height: nat,
    entry: AttributeEntryView,
) -> bool
    decreases height,
{
    &&& height > 0
    &&& objects(page) is Some
    &&& match attribute_decoded(objects(page)->0, limits) {
        Err(_) => false,
        Ok(PageView::Leaf(entries)) => entries.contains(entry),
        Ok(PageView::Internal(children)) => exists|i: int|
            0 <= i < children.len() && attributes_hold(
                        objects,
                        limits,
                        (#[trigger] child_of(children, i)).page,
                (height - 1) as nat,
                entry,
            ),
    }
}

/// The entry that descending through routed children finds.
pub open spec fn attributes_search(
    objects: Objects,
    limits: DecodeLimits,
    page: ObjectView,
    height: nat,
    name: AttributeNameView,
) -> Option<AttributeEntryView>
    decreases height,
{
    if height == 0 || objects(page) is None {
        None
    } else {
        match attribute_decoded(objects(page)->0, limits) {
            Err(_) => None,
            Ok(PageView::Leaf(entries)) => entry_named(entries, name),
            Ok(PageView::Internal(children)) => attributes_search(
                objects,
                limits,
                children[attribute_route(children, name)].page,
                (height - 1) as nat,
                name,
            ),
        }
    }
}

proof fn lemma_decoded_ordered(bytes: Seq<u8>, limits: DecodeLimits)
    ensures
        attribute_decoded(bytes, limits) matches Ok(PageView::Leaf(entries)) ==> attribute_leaf_ordered(entries),
        attribute_decoded(bytes, limits) matches Ok(PageView::Internal(children))
            ==> attribute_children_ordered(children),
{
}

/// Every entry of a sound tree lies within its bounds.
pub(crate) proof fn lemma_holds_within(
    objects: Objects,
    limits: DecodeLimits,
    page: ObjectView,
    lower: Option<AttributeNameView>,
    upper: Option<AttributeNameView>,
    height: nat,
    entry: AttributeEntryView,
)
    requires
        attributes_sound(objects, limits, page, lower, upper, height),
        attributes_hold(objects, limits, page, height, entry),
    ensures
        lower matches Some(low) ==> !name_lt(entry.name, low),
        upper matches Some(high) ==> name_lt(entry.name, high),
    decreases height,
{
    let bytes = objects(page)->0;
    lemma_decoded_ordered(bytes, limits);
    match attribute_decoded(bytes, limits) {
        Err(_) => {},
        Ok(PageView::Leaf(entries)) => {
            let i = entries.index_of(entry);
            assert(entries[i] == entry);
            let n = entries.len() - 1;
            lemma_name_order(entry.name, entry.name, entry.name);
            if i > 0 {
                assert(name_lt(entries[0].name, entries[i].name));
                if name_lt(entries[i].name, entries[0].name) {
                    lemma_name_order(entries[i].name, entries[0].name, entries[i].name);
                }
            }
            if let Some(high) = upper {
                if i < n {
                    assert(name_lt(entries[i].name, entries[n].name));
                    lemma_name_order(entries[i].name, entries[n].name, high);
                }
            }
        },
        Ok(PageView::Internal(children)) => {
            let i = choose|i: int|
                0 <= i < children.len() && attributes_hold(
                        objects,
                        limits,
                        (#[trigger] child_of(children, i)).page,
                    (height - 1) as nat,
                    entry,
                );
            let below = Some(children[i].first_name);
            let above = upper_of(children, i, upper);
            assert(attributes_sound(
                objects,
                limits,
                child_of(children, i).page,
                below,
                above,
                (height - 1) as nat,
            ));
            lemma_holds_within(
                objects,
                limits,
                children[i].page,
                below,
                above,
                (height - 1) as nat,
                entry,
            );
            let first = children[0].first_name;
            let own = children[i].first_name;
            if i > 0 {
                assert(name_lt(first, own));
                if name_lt(entry.name, first) {
                    lemma_name_order(entry.name, first, own);
                }
            }
            if let Some(high) = upper {
                if i + 1 < children.len() {
                    let n = children.len() - 1;
                    let next = children[i + 1].first_name;
                    let last = children[n].first_name;
                    if i + 1 < n {
                        assert(name_lt(next, last));
                        lemma_name_order(entry.name, next, last);
                    }
                    lemma_name_order(entry.name, last, high);
                }
            }
        },
    }
}

/// Descending through a sound attribute tree finds exactly the entry that the
/// tree holds for an name, or that it holds none.
pub proof fn attribute_search_is_exact(
    objects: Objects,
    limits: DecodeLimits,
    page: ObjectView,
    lower: Option<AttributeNameView>,
    upper: Option<AttributeNameView>,
    height: nat,
    name: AttributeNameView,
)
    requires
        attributes_sound(objects, limits, page, lower, upper, height),
    ensures
        attributes_search(objects, limits, page, height, name) matches Some(entry) ==> entry.name == name
            && attributes_hold(objects, limits, page, height, entry),
        forall|entry: AttributeEntryView| #[trigger]
            attributes_hold(objects, limits, page, height, entry) && entry.name == name
                ==> attributes_search(objects, limits, page, height, name) == Some(entry),
    decreases height,
{
    let bytes = objects(page)->0;
    lemma_decoded_ordered(bytes, limits);
    match attribute_decoded(bytes, limits) {
        Err(_) => {},
        Ok(PageView::Leaf(entries)) => {
            entry_search_is_exact(entries, name, 0, entries.len() as int);
            if let Some(at) = entry_search(entries, name, 0, entries.len() as int).0 {
                assert(entries.contains(entries[at]));
            }
            assert forall|entry: AttributeEntryView| #[trigger]
                attributes_hold(objects, limits, page, height, entry) && entry.name
                    == name implies attributes_search(objects, limits, page, height, name) == Some(entry) by {
                let i = entries.index_of(entry);
                assert(entries[i] == entry);
                lemma_entry_named(entries, name, i);
            }
        },
        Ok(PageView::Internal(children)) => {
            let at = attribute_route(children, name);
            lemma_attribute_route(children, name);
            let below = Some(children[at].first_name);
            let above = upper_of(children, at, upper);
            assert(attributes_sound(
                objects,
                limits,
                child_of(children, at).page,
                below,
                above,
                (height - 1) as nat,
            ));
            attribute_search_is_exact(
                objects,
                limits,
                children[at].page,
                below,
                above,
                (height - 1) as nat,
                name,
            );
            assert forall|entry: AttributeEntryView| #[trigger]
                attributes_hold(objects, limits, page, height, entry) && entry.name
                    == name implies attributes_search(objects, limits, page, height, name) == Some(entry) by {
                let i = choose|i: int|
                    0 <= i < children.len() && attributes_hold(
                        objects,
                        limits,
                        (#[trigger] child_of(children, i)).page,
                        (height - 1) as nat,
                        entry,
                    );
                let low = Some(children[i].first_name);
                let high = upper_of(children, i, upper);
                assert(attributes_sound(
                    objects,
                    limits,
                    child_of(children, i).page,
                    low,
                    high,
                    (height - 1) as nat,
                ));
                lemma_holds_within(
                    objects,
                    limits,
                    children[i].page,
                    low,
                    high,
                    (height - 1) as nat,
                    entry,
                );
                if i < at {
                    let next = children[i + 1].first_name;
                    let own = children[at].first_name;
                    if i + 1 < at {
                        assert(name_lt(next, own));
                        lemma_name_order(name, next, own);
                    }
                } else if i > at {
                    assert(name_lt(name, children[i].first_name));
                }
                assert(i == at);
            }
        },
    }
}

/// A lookup that succeeds returns what descending through the tree finds.
pub proof fn attribute_lookup_follows_the_tree<S: ImmediateObjectStore>(
    store: &S,
    objects: Objects,
    lookup: AttributeLookupView,
    fuel: nat,
)
    requires
        serves(store, objects),
        attribute_outcome(store, lookup, fuel) is Ok,
    ensures
        attribute_outcome(store, lookup, fuel)->Ok_0.0 == attributes_search(
            objects,
            lookup.limits,
            lookup.page,
            fuel + 1,
            lookup.name,
        ),
    decreases fuel,
{
    let (request, prospective, waiting) = attribute_request(lookup)->Ok_0;
    let read = store.answers(request)->Ok_0;
    assert(objects(request.object) == Some(read.bytes));
    match attribute_accepts(waiting, prospective, read) {
        Ok(AttributeStep::Descend(next)) => {
            attribute_lookup_follows_the_tree(store, objects, next, (fuel - 1) as nat);
        },
        _ => {},
    }
}

/// A lookup that succeeds finds its entry within the pages that it may still read.
proof fn lemma_lookup_height<S: ImmediateObjectStore>(
    store: &S,
    objects: Objects,
    lookup: AttributeLookupView,
    fuel: nat,
    height: nat,
)
    requires
        serves(store, objects),
        lookup_sound(lookup),
        attribute_outcome(store, lookup, fuel) is Ok,
        lookup.visited.length + height >= lookup.limits.maximum_page_height,
    ensures
        attribute_outcome(store, lookup, fuel)->Ok_0.0 == attributes_search(
            objects,
            lookup.limits,
            lookup.page,
            height,
            lookup.name,
        ),
    decreases fuel,
{
    let (request, prospective, waiting) = attribute_request(lookup)->Ok_0;
    let read = store.answers(request)->Ok_0;
    assert(objects(request.object) == Some(read.bytes));
    lemma_visited_added(
        lookup.visited,
        lookup.page,
        live_of(lookup) as u64,
        lookup.work,
        lookup.budget,
    );
    match attribute_accepts(waiting, prospective, read) {
        Ok(AttributeStep::Descend(next)) => {
            lemma_live_bounded(waiting, prospective, read);
            lemma_lookup_height(
                store,
                objects,
                next,
                (fuel - 1) as nat,
                (height - 1) as nat,
            );
        },
        _ => {},
    }
}

/// A lookup of one name that succeeds finds what a batch answers to that name.
pub proof fn batches_agree_with_lookups<S: ImmediateObjectStore>(
    store: &S,
    objects: Objects,
    root: ObjectView,
    name: AttributeNameView,
    limits: DecodeLimits,
    budget: WorkBudget,
)
    requires
        serves(store, objects),
        attribute_begun(root, name, limits, budget) is Ok,
        attribute_outcome(
            store,
            attribute_begun(root, name, limits, budget)->Ok_0,
            limits.maximum_page_height as nat,
        ) is Ok,
    ensures
        attribute_outcome(
            store,
            attribute_begun(root, name, limits, budget)->Ok_0,
            limits.maximum_page_height as nat,
        )->Ok_0.0 == attributes_search(
            objects,
            limits,
            root,
            limits.maximum_page_height as nat,
            name,
        ),
{
    lemma_visited_begun(visit_bound(limits), 0, no_work(), budget);
    lemma_lookup_height(
        store,
        objects,
        attribute_begun(root, name, limits, budget)->Ok_0,
        limits.maximum_page_height as nat,
        limits.maximum_page_height as nat,
    );
}

/// The tree of named attributes.
pub struct AttributeFormat;

impl TreeFormat for AttributeFormat {
    type Key = AttributeName;

    type Model = AttributeNameView;

    type Entry = AttributeEntry;

    type Child = AttributeChild;

    open spec fn model(key: AttributeName) -> AttributeNameView {
        key@
    }

    open spec fn page_kind() -> ObjectKind {
        ObjectKind::AttributePage
    }

    open spec fn page_decoded(bytes: Seq<u8>, limits: DecodeLimits) -> Result<
        PageView<AttributeEntryView, AttributeChildView>,
        DecodeErrorView,
    > {
        attribute_decoded(bytes, limits)
    }

    open spec fn entries_ordered(entries: Seq<AttributeEntryView>) -> bool {
        attribute_leaf_ordered(entries)
    }

    open spec fn children_ordered(children: Seq<AttributeChildView>) -> bool {
        attribute_children_ordered(children)
    }

    open spec fn entries_fit(
        entries: Seq<AttributeEntryView>,
        lower: Option<AttributeNameView>,
        upper: Option<AttributeNameView>,
    ) -> bool {
        entries_within(entries, lower, upper)
    }

    open spec fn children_fit(
        children: Seq<AttributeChildView>,
        lower: Option<AttributeNameView>,
        upper: Option<AttributeNameView>,
    ) -> bool {
        children_within(children, lower, upper)
    }

    open spec fn entry_for(entries: Seq<AttributeEntryView>, key: AttributeNameView) -> Option<
        AttributeEntryView,
    > {
        entry_named(entries, key)
    }

    open spec fn child_for(children: Seq<AttributeChildView>, key: AttributeNameView) -> int {
        attribute_route(children, key)
    }

    open spec fn child_page(child: AttributeChildView) -> ObjectView {
        child.page
    }

    open spec fn child_first(child: AttributeChildView) -> AttributeNameView {
        child.first_name
    }

    proof fn decoded_in_order(bytes: Seq<u8>, limits: DecodeLimits, key: AttributeNameView) {
        lemma_decoded_ordered(bytes, limits);
        if let Ok(PageView::Internal(children)) = attribute_decoded(bytes, limits) {
            lemma_attribute_route(children, key);
        }
    }

    fn kind() -> (r: ObjectKind) {
        ObjectKind::AttributePage
    }

    fn decode(bytes: &[u8], limits: DecodeLimits) -> (r: Result<
        Page<AttributeEntry, AttributeChild>,
        CanonicalDecodeError,
    >) {
        match decode_attribute_page(bytes, limits) {
            Err(error) => Err(error),
            Ok(AttributePage::Leaf(entries)) => Ok(Page::Leaf(entries)),
            Ok(AttributePage::Internal(children)) => Ok(Page::Internal(children)),
        }
    }

    fn entries_within(
        entries: &Vec<AttributeEntry>,
        lower: &Option<AttributeName>,
        upper: &Option<AttributeName>,
    ) -> (r: bool) {
        validate_leaf(entries, lower, upper)
    }

    fn children_within(
        children: &Vec<AttributeChild>,
        lower: &Option<AttributeName>,
        upper: &Option<AttributeName>,
    ) -> (r: bool) {
        validate_children(children, lower, upper)
    }

    fn find(entries: &Vec<AttributeEntry>, key: &AttributeName) -> (r: Option<AttributeEntry>) {
        let (found, _) = search_entries(entries, key);
        match found {
            Some(i) => {
                assert(views(entries@)[i as int] == entries@[i as int]@);
                Some(entries[i].replicate())
            },
            None => None,
        }
    }

    fn route(children: &Vec<AttributeChild>, key: &AttributeName) -> (r: usize) {
        let (before, _) = upper_bound_children(children, key);
        if before == 0 {
            0
        } else {
            before - 1
        }
    }

    fn page_of(child: &AttributeChild) -> (r: ObjectId) {
        child.page
    }

    fn first_of(child: &AttributeChild) -> (r: AttributeName) {
        child.first_name.replicate()
    }

    fn copy_key(key: &AttributeName) -> (r: AttributeName) {
        key.replicate()
    }
}

/// Searching the tree of this format is searching for an attribute.
pub(crate) proof fn lemma_attribute_tree(
    objects: Objects,
    limits: DecodeLimits,
    page: ObjectView,
    lower: Option<AttributeNameView>,
    upper: Option<AttributeNameView>,
    height: nat,
    name: AttributeNameView,
)
    ensures
        tree_search::<AttributeFormat>(objects, limits, page, height, name) == attributes_search(
            objects,
            limits,
            page,
            height,
            name,
        ),
        attributes_sound(objects, limits, page, lower, upper, height) ==> tree_sound::<
            AttributeFormat,
        >(objects, limits, page, lower, upper, height),
    decreases height,
{
    if height > 0 && objects(page) is Some {
        if let Ok(PageView::Internal(children)) = attribute_decoded(objects(page)->0, limits) {
            lemma_attribute_tree(
                objects,
                limits,
                children[attribute_route(children, name)].page,
                lower,
                upper,
                (height - 1) as nat,
                name,
            );
            if attributes_sound(objects, limits, page, lower, upper, height) {
                assert forall|i: int| 0 <= i < children.len() implies tree_sound::<AttributeFormat>(
                    objects,
                    limits,
                    (#[trigger] child_at(children, i)).page,
                    Some(children[i].first_name),
                    child_upper::<AttributeFormat>(children, i, upper),
                    (height - 1) as nat,
                ) by {
                    assert(child_of(children, i) == children[i]);
                    lemma_attribute_tree(
                        objects,
                        limits,
                        children[i].page,
                        Some(children[i].first_name),
                        upper_of(children, i, upper),
                        (height - 1) as nat,
                        name,
                    );
                }
            }
        }
    }
}

/// Original-order named attributes from one shared authenticated frontier batch.
#[derive(Debug, PartialEq, Eq)]
pub struct AttributeBatchLookup {
    /// One explicit present or absent result per requested attribute name.
    pub entries: Vec<Option<AttributeEntry>>,
    /// Work of the traversal and the backend.
    pub work: WorkCounters,
}

/// A batch failure as a lookup failure.
pub open spec fn batch_cause(error: BatchError) -> AttributeLookupErrorView {
    match error {
        BatchError::Cancelled => AttributeLookupErrorView::Cancelled,
        BatchError::Empty => AttributeLookupErrorView::EmptyBatch,
        BatchError::TooManyQueries => AttributeLookupErrorView::TooManyQueries,
        BatchError::WrongRootKind => AttributeLookupErrorView::WrongRootKind,
        BatchError::InvalidLimits => AttributeLookupErrorView::InvalidLimits,
        BatchError::HeightExceeded => AttributeLookupErrorView::HeightExceeded,
        BatchError::CycleOrAlias => AttributeLookupErrorView::CycleOrAlias,
        BatchError::ChildBoundsMismatch => AttributeLookupErrorView::ChildBoundsMismatch,
        BatchError::InvalidRouting => AttributeLookupErrorView::InvalidRouting,
        BatchError::AllocationFailed => AttributeLookupErrorView::AllocationFailed,
        BatchError::Storage(error) => storage_cause(error),
        BatchError::Decode(error) => AttributeLookupErrorView::Decode(error@),
        BatchError::Work(error) => AttributeLookupErrorView::Work(error),
    }
}

/// Turns a batch failure into a lookup failure.
pub fn map_batch_error(error: BatchError) -> (r: AttributeLookupError)
    ensures
        r@ == batch_cause(error),
{
    match error {
        BatchError::Cancelled => AttributeLookupError::Cancelled,
        BatchError::Empty => AttributeLookupError::EmptyBatch,
        BatchError::TooManyQueries => AttributeLookupError::TooManyQueries,
        BatchError::WrongRootKind => AttributeLookupError::WrongRootKind,
        BatchError::InvalidLimits => AttributeLookupError::InvalidLimits,
        BatchError::HeightExceeded => AttributeLookupError::HeightExceeded,
        BatchError::CycleOrAlias => AttributeLookupError::CycleOrAlias,
        BatchError::ChildBoundsMismatch => AttributeLookupError::ChildBoundsMismatch,
        BatchError::InvalidRouting => AttributeLookupError::InvalidRouting,
        BatchError::AllocationFailed => AttributeLookupError::AllocationFailed,
        BatchError::Storage(error) => map_storage(error),
        BatchError::Decode(error) => AttributeLookupError::Decode(error),
        BatchError::Work(error) => AttributeLookupError::Work(error),
    }
}

/// Why a batch of names is refused before any work.
pub open spec fn names_problem(
    root: ObjectId,
    queries: nat,
    maximum_queries: u32,
    limits: DecodeLimits,
) -> Option<AttributeLookupErrorView> {
    if queries == 0 {
        Some(AttributeLookupErrorView::EmptyBatch)
    } else if queries > maximum_queries {
        Some(AttributeLookupErrorView::TooManyQueries)
    } else if root.kind != ObjectKind::AttributePage {
        Some(AttributeLookupErrorView::WrongRootKind)
    } else if !limits.admits_pages(1) {
        Some(AttributeLookupErrorView::InvalidLimits)
    } else {
        None
    }
}

/// Whether a failure is one that a sound tree leaves possible: of the store, of the
/// bounds, or of a page reached twice.
pub open spec fn outside_the_tree(error: AttributeLookupErrorView) -> bool {
    error is Cancelled || error is CycleOrAlias || error is AllocationFailed || error is Storage
        || error is Work
}

/// The cause of a batch failure as a lookup failure.
pub open spec fn cause_view(cause: BatchCause) -> AttributeLookupErrorView {
    match cause {
        BatchCause::Undecodable(decoding) => AttributeLookupErrorView::Decode(decoding),
        BatchCause::Refused(refusal) => batch_cause(refusal),
    }
}

/// Whether a batch of names is settled as its outcome says. More pages than a table of
/// them can hold are an allocation failure.
pub open spec fn names_settled<S: ImmediateObjectStore>(
    store: &S,
    root: ObjectView,
    names: Seq<AttributeName>,
    limits: DecodeLimits,
    budget: WorkBudget,
    r: Result<AttributeBatchLookup, AttributeLookupFailure>,
) -> bool {
    ||| match batch_outcome::<S, AttributeFormat>(
        store,
        key_models::<AttributeFormat>(names),
        limits,
        budget,
        batch_begun::<AttributeFormat>(root, names.len(), limits),
    ) {
        Ok((values, work)) => r matches Ok(found) && found.work == work && found.entries@.len()
            == values.len() && forall|q: int|
            0 <= q < values.len() ==> found_view(#[trigger] found.entries@[q]) == values[q],
        Err(failing) => r matches Err(failure) && failure_is(
            failure,
            (cause_view(failing.0), failing.1),
        ),
    }
    ||| limits.maximum_visited_pages > usize::MAX / 4 && (r matches Err(failure)
        && failure.error@ is AllocationFailed)
}

/// Looks up named attributes while reading each distinct frontier once.
pub fn lookup_attributes<S: ImmediateObjectStore>(
    store: &S,
    root: ObjectId,
    names: &Vec<AttributeName>,
    maximum_queries: u32,
    limits: DecodeLimits,
    budget: WorkBudget,
) -> (r: Result<AttributeBatchLookup, AttributeLookupFailure>)
    ensures
        match names_problem(root, names@.len(), maximum_queries, limits) {
            Some(problem) => r matches Err(failure) && failure_is(failure, (problem, no_work())),
            None => names_settled(store, root@, names@, limits, budget, r),
        },
        names_problem(root, names@.len(), maximum_queries, limits) is None ==> {
            match r {
                Ok(found) => found.entries@.len() == names@.len() && within(found.work, budget)
                    && forall|objects: Objects, q: int|
                    #![trigger serves(store, objects), found.entries@[q]]
                    serves(store, objects) && 0 <= q < names@.len() ==> found_view(
                        found.entries@[q],
                    ) == attributes_search(
                        objects,
                        limits,
                        root@,
                        limits.maximum_page_height as nat,
                        names@[q]@,
                    ),
                Err(failure) => !(failure.error@ is EmptyBatch) && !(
                failure.error@ is TooManyQueries) && !(failure.error@ is WrongRootKind) && !(
                failure.error@ is InvalidLimits) && forall|objects: Objects| #[trigger]
                    serves(store, objects) && attributes_sound(
                        objects,
                        limits,
                        root@,
                        None,
                        None,
                        limits.maximum_page_height as nat,
                    ) ==> outside_the_tree(failure.error@),
            }
        },
{
    match lookup_batch::<S, AttributeFormat>(store, root, names, maximum_queries, limits, budget) {
        Ok(receipt) => {
            proof {
                let height = limits.maximum_page_height as nat;
                assert forall|objects: Objects, q: int|
                    #![trigger serves(store, objects), receipt.values@[q]]
                    serves(store, objects) && 0 <= q < names@.len() implies found_view(
                    receipt.values@[q],
                ) == attributes_search(objects, limits, root@, height, names@[q]@) by {
                    lemma_attribute_tree(objects, limits, root@, None, None, height, names@[q]@);
                }
            }
            Ok(AttributeBatchLookup { entries: receipt.values, work: receipt.work })
        },
        Err(failure) => {
            proof {
                let height = limits.maximum_page_height as nat;
                assert forall|objects: Objects| #[trigger]
                    serves(store, objects) && attributes_sound(
                        objects,
                        limits,
                        root@,
                        None,
                        None,
                        height,
                    ) implies tree_sound::<AttributeFormat>(
                    objects,
                    limits,
                    root@,
                    None,
                    None,
                    height,
                ) by {
                    lemma_attribute_tree(
                        objects,
                        limits,
                        root@,
                        None,
                        None,
                        height,
                        arbitrary(),
                    );
                }
            }
            Err(OperationFailure::new(map_batch_error(failure.error), failure.work))
        },
    }
}

} // verus!
