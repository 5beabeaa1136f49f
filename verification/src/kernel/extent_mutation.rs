//! Path-copying mutation of sparse extent trees.

use super::allocation::{claimed, AllocationError, AllocationLedger};
use super::attribute_access::merge_backend_work;
use super::closure_extent::{
    extent_child_of, extent_children_within, extents_within, validate_extent_bounds,
    validate_extent_child_bounds,
};
use super::codec::{
    items_fit, CanonicalDecodeError, CanonicalItem, DecodeErrorView, DecodeLimits, DecodedPageKind,
    PageView,
};
use super::extent::{
    decode_extent_page, encode_extent_page, extent_child_fits, extent_children_ordered,
    extent_decoded, extent_encoded, extent_end_of, extent_fits, extent_item_length,
    extent_page_decode_shape, extent_page_round_trip, extents_ordered, Extent, ExtentChild,
    ExtentChildView, ExtentKind, ExtentPage, ExtentPageView, ExtentView,
};
use super::extent_patch::{
    byte_at, covers, patched_at, replay_byte, replay_size, rewrite_extents, runs_disjoint,
    ByteView, ExtentMutation, ExtentMutationView, ExtentRangeError, Patch, PatchView,
};
use super::extent_tree::{
    extents_tell, lemma_children_told, lemma_extents_part, lemma_internal_told, lemma_list_grows,
    lemma_list_joins, lemma_list_one, lemma_list_part, lemma_told_grows, lemma_told_same, list_told,
    overlaid_file, tells, told, Bytes,
};
use super::extent_rewrite::{
    after_put, child_output, children_rewritten, file_rewritten, internal_end, internals_written, items_counted, items_spent,
    leaf_end, leaf_rewritten, leaves_written, level_written, looked_at, page_asked, page_encoded,
    page_hashed, page_joined, page_opened, retained, page_read, page_taken, page_written, pages_cut, patches_between,
    ends_searched, put_answered, root_made, starts_searched, tree_rewritten, RewriteTerms, RewriteView,
};
use super::patch_plan::{
    compile_patch_plan, compile_refused, compile_roomy, compile_work, plan_stands, raw_count,
    CompiledPatchPlan,
};
use super::visited::{lemma_visited_within, visited_begun, VisitedObjectSet};
use crate::order::views;
use crate::performance::{
    no_work, within, OperationFailure, WorkBudget, WorkCounters, WorkError,
};
use crate::storage::{
    answering, extends, lemma_logged, Answers, logged, object_id, ObjectFailure, ObjectId, ObjectKind,
    ObjectRead, ObjectReadRetention, ObjectStore, ObjectStoreError, ObjectView, Objects, Put,
    ReadRequest, ReadView, OBJECT_DIGEST_ENVELOPE_BYTES,
};
use vstd::bytes::*;
use vstd::prelude::*;

verus! {

/// Bytes of an extent page in front of its items.
pub const EXTENT_PAGE_HEADER_BYTES: usize = 15;

/// Bytes of one child in an extent page.
pub const EXTENT_CHILD_BYTES: usize = 48;

/// Logical bytes of one decoded extent.
pub const EXTENT_LOGICAL_BYTES: u64 = 64;

/// Logical bytes of one decoded child.
pub const EXTENT_CHILD_LOGICAL_BYTES: u64 = 56;

/// New extent root, logical size, and exact path-copy evidence.
#[derive(Clone, Copy, Debug, PartialEq, Eq)]
pub struct ExtentMutationReceipt {
    /// Candidate immutable extent-tree root.
    pub root: ObjectId,
    /// Final exact logical file length.
    pub logical_bytes: u64,
    /// Exact page, encoding, hashing, and backend work.
    pub work: WorkCounters,
}

/// Admission bounds shared by extent mutation operations.
#[derive(Clone, Copy, Debug, PartialEq, Eq, Structural)]
pub struct ExtentMutationOptions {
    /// Maximum accepted mutations in this ordered batch.
    pub maximum_mutations: u32,
    /// Canonical decode and authenticated-tree bounds.
    pub limits: DecodeLimits,
    /// Exact physical work ceiling.
    pub budget: WorkBudget,
}

/// Sparse extent mutation failures.
#[derive(Debug, PartialEq, Eq)]
pub enum ExtentMutationError {
    /// Batch contains no mutations.
    Empty,
    /// Batch exceeds its admitted mutation count.
    TooManyMutations,
    /// Root is not an extent page.
    WrongRootKind,
    /// Page or traversal limits are invalid.
    InvalidLimits,
    /// One item cannot fit a page.
    PageItemTooLarge,
    /// Replacement range must be non-empty.
    EmptyRange,
    /// Range arithmetic overflowed.
    RangeOverflow,
    /// Non-extending replacement exceeds current logical file length.
    OutsideFile,
    /// Content replacement references another object class.
    WrongContentKind,
    /// Internal normalized-patch map was inconsistent.
    PatchInvariant,
    /// Traversal exceeded the admitted height.
    HeightExceeded,
    /// Authenticated graph cycles or aliases.
    CycleOrAlias,
    /// A parent range does not match its child.
    ChildBoundsMismatch,
    /// Bounded scratch allocation failed.
    AllocationFailed,
    /// Immutable object storage failed.
    Storage(ObjectStoreError),
    /// Canonical extent page failed decoding or encoding.
    Decode(CanonicalDecodeError),
    /// Work accounting overflowed or exceeded the admitted budget.
    Work(WorkError),
}

/// Abstract value of [`ExtentMutationError`].
pub enum MutationErrorView {
    /// Batch contains no mutations.
    Empty,
    /// Batch exceeds its admitted mutation count.
    TooManyMutations,
    /// Root is not an extent page.
    WrongRootKind,
    /// Page or traversal limits are invalid.
    InvalidLimits,
    /// One item cannot fit a page.
    PageItemTooLarge,
    /// Replacement range must be non-empty.
    EmptyRange,
    /// Range arithmetic overflowed.
    RangeOverflow,
    /// Non-extending replacement exceeds current logical file length.
    OutsideFile,
    /// Content replacement references another object class.
    WrongContentKind,
    /// Internal normalized-patch map was inconsistent.
    PatchInvariant,
    /// Traversal exceeded the admitted height.
    HeightExceeded,
    /// Authenticated graph cycles or aliases.
    CycleOrAlias,
    /// A parent range does not match its child.
    ChildBoundsMismatch,
    /// Bounded scratch allocation failed.
    AllocationFailed,
    /// Immutable object storage failed.
    Storage(ObjectStoreError),
    /// Canonical extent page failed decoding or encoding.
    Decode(DecodeErrorView),
    /// Work accounting overflowed or exceeded the admitted budget.
    Work(WorkError),
}

impl View for ExtentMutationError {
    type V = MutationErrorView;

    open spec fn view(&self) -> MutationErrorView {
        match *self {
            ExtentMutationError::Empty => MutationErrorView::Empty,
            ExtentMutationError::TooManyMutations => MutationErrorView::TooManyMutations,
            ExtentMutationError::WrongRootKind => MutationErrorView::WrongRootKind,
            ExtentMutationError::InvalidLimits => MutationErrorView::InvalidLimits,
            ExtentMutationError::PageItemTooLarge => MutationErrorView::PageItemTooLarge,
            ExtentMutationError::EmptyRange => MutationErrorView::EmptyRange,
            ExtentMutationError::RangeOverflow => MutationErrorView::RangeOverflow,
            ExtentMutationError::OutsideFile => MutationErrorView::OutsideFile,
            ExtentMutationError::WrongContentKind => MutationErrorView::WrongContentKind,
            ExtentMutationError::PatchInvariant => MutationErrorView::PatchInvariant,
            ExtentMutationError::HeightExceeded => MutationErrorView::HeightExceeded,
            ExtentMutationError::CycleOrAlias => MutationErrorView::CycleOrAlias,
            ExtentMutationError::ChildBoundsMismatch => MutationErrorView::ChildBoundsMismatch,
            ExtentMutationError::AllocationFailed => MutationErrorView::AllocationFailed,
            ExtentMutationError::Storage(error) => MutationErrorView::Storage(error),
            ExtentMutationError::Decode(error) => MutationErrorView::Decode(error@),
            ExtentMutationError::Work(error) => MutationErrorView::Work(error),
        }
    }
}

/// A range error as a mutation failure.
pub open spec fn range_cause(error: ExtentRangeError) -> ExtentMutationError {
    match error {
        ExtentRangeError::EmptyRange => ExtentMutationError::EmptyRange,
        ExtentRangeError::RangeOverflow => ExtentMutationError::RangeOverflow,
        ExtentRangeError::OutsideFile => ExtentMutationError::OutsideFile,
        ExtentRangeError::WrongContentKind => ExtentMutationError::WrongContentKind,
    }
}

impl ExtentMutationError {
    /// Turns a range error into a mutation failure.
    pub fn from_range(error: ExtentRangeError) -> (r: Self)
        ensures
            r == range_cause(error),
    {
        match error {
            ExtentRangeError::EmptyRange => ExtentMutationError::EmptyRange,
            ExtentRangeError::RangeOverflow => ExtentMutationError::RangeOverflow,
            ExtentRangeError::OutsideFile => ExtentMutationError::OutsideFile,
            ExtentRangeError::WrongContentKind => ExtentMutationError::WrongContentKind,
        }
    }
}

/// Extent mutation failure retaining spent work and safe orphan writes.
pub type ExtentMutationFailure = OperationFailure<ExtentMutationError>;

/// Whether an error is one that a valid request leaves possible.
pub open spec fn tree_failure(error: ExtentMutationError) -> bool {
    bounded_failure(error) || error is ChildBoundsMismatch
}

/// Whether an error is one that a valid request leaves possible on a tree that keeps its
/// ranges.
pub open spec fn bounded_failure(error: ExtentMutationError) -> bool {
    ||| error is PageItemTooLarge
    ||| error is HeightExceeded
    ||| error is CycleOrAlias
    ||| error is AllocationFailed
    ||| error is Storage
    ||| error is Decode
    ||| error is Work
}

/// Whether a page is the root of a tree that says what some file is over a range.
pub open spec fn tree_told(
    objects: Objects,
    limits: DecodeLimits,
    page: ObjectView,
    first: u64,
    end: u64,
) -> bool {
    exists|file: Bytes| #[trigger] told(objects, limits, page, first, end, file)
}

/// A refused claim as a mutation failure.
pub open spec fn allocation_cause(error: AllocationError) -> MutationErrorView {
    match error {
        AllocationError::Work(error) => MutationErrorView::Work(error),
        AllocationError::Overflow => MutationErrorView::Work(WorkError::Overflow),
        AllocationError::ReleaseInvariant => MutationErrorView::Work(WorkError::Overflow),
        AllocationError::InvalidCapacity => MutationErrorView::AllocationFailed,
        AllocationError::CapacityExceeded => MutationErrorView::AllocationFailed,
    }
}

fn map_allocation(error: AllocationError) -> (r: ExtentMutationError)
    ensures
        r@ == allocation_cause(error),
        bounded_failure(r),
{
    match error {
        AllocationError::Work(error) => ExtentMutationError::Work(error),
        AllocationError::Overflow => ExtentMutationError::Work(WorkError::Overflow),
        AllocationError::ReleaseInvariant => ExtentMutationError::Work(WorkError::Overflow),
        AllocationError::InvalidCapacity => ExtentMutationError::AllocationFailed,
        AllocationError::CapacityExceeded => ExtentMutationError::AllocationFailed,
    }
}

/// Why a request is refused before any object is read.
pub open spec fn mutation_request_refused(
    root: ObjectId,
    mutations: nat,
    maximum_mutations: u32,
    limits: DecodeLimits,
) -> Option<ExtentMutationError> {
    if root.kind != ObjectKind::ExtentPage {
        Some(ExtentMutationError::WrongRootKind)
    } else if mutations == 0 {
        Some(ExtentMutationError::Empty)
    } else if maximum_mutations == 0 || mutations > maximum_mutations {
        Some(ExtentMutationError::TooManyMutations)
    } else if !limits.admits_pages(2) {
        Some(ExtentMutationError::InvalidLimits)
    } else {
        None
    }
}

/// Checks a request before any object is read.
pub fn validate_request(
    root: ObjectId,
    mutations: &Vec<ExtentMutation>,
    maximum_mutations: u32,
    limits: DecodeLimits,
) -> (r: Result<(), ExtentMutationFailure>)
    ensures
        match mutation_request_refused(root, mutations@.len(), maximum_mutations, limits) {
            Some(error) => r == Err::<(), ExtentMutationFailure>(
                OperationFailure { error, work: no_work() },
            ),
            None => r is Ok,
        },
{
    if root.kind != ObjectKind::ExtentPage {
        return Err(OperationFailure::before_work(ExtentMutationError::WrongRootKind));
    }
    if mutations.len() == 0 {
        return Err(OperationFailure::before_work(ExtentMutationError::Empty));
    }
    if maximum_mutations == 0 || mutations.len() > maximum_mutations as usize {
        return Err(OperationFailure::before_work(ExtentMutationError::TooManyMutations));
    }
    if !limits.page_limits_valid(2) {
        return Err(OperationFailure::before_work(ExtentMutationError::InvalidLimits));
    }
    Ok(())
}

/// Encoded bytes of some extents.
pub open spec fn extents_length(extents: Seq<ExtentView>, from: int, to: int) -> nat
    decreases to - from,
{
    if from >= to {
        0
    } else {
        extents_length(extents, from, to - 1) + extent_item_length(extents[to - 1])
    }
}

/// Whether extents fit one page.
pub open spec fn extents_fit_page(
    extents: Seq<ExtentView>,
    from: int,
    to: int,
    limits: DecodeLimits,
) -> bool {
    to - from <= limits.maximum_page_items && EXTENT_PAGE_HEADER_BYTES + extents_length(
        extents,
        from,
        to,
    ) <= limits.maximum_page_bytes
}

/// Finds how many extents fit the next page, as many as its bounds admit, and how many
/// were looked at.
pub fn extent_leaf_chunk_end(extents: &Vec<Extent>, start: usize, limits: DecodeLimits) -> (r: Result<
    (usize, u64),
    ExtentMutationError,
>)
    requires
        start < extents@.len(),
    ensures
        match r {
            Ok((end, examined)) => start < end <= extents@.len() && extents_fit_page(
                views(extents@),
                start as int,
                end as int,
                limits,
            ) && (end < extents@.len() ==> !extents_fit_page(
                views(extents@),
                start as int,
                end + 1,
                limits,
            )) && examined == (if end < extents@.len() && end - start < limits.maximum_page_items {
                end - start + 1
            } else {
                end - start
            }),
            Err(error) => error == ExtentMutationError::PageItemTooLarge && !extents_fit_page(
                views(extents@),
                start as int,
                start + 1,
                limits,
            ),
        },
        ({
            let found = leaf_end(views(extents@), start as int, start as int, limits);
            match r {
                Ok((end, examined)) => end == found && examined == looked_at(
                    extents@.len() as int,
                    start as int,
                    found,
                    limits,
                ),
                Err(_) => found == start,
            }
        }),
{
    let ghost all = views(extents@);
    let mut end: usize = start;
    let mut bytes: u64 = EXTENT_PAGE_HEADER_BYTES as u64;
    let mut full = false;
    while end < extents.len() && !full
        invariant
            start <= end <= extents@.len(),
            all == views(extents@),
            bytes == EXTENT_PAGE_HEADER_BYTES + extents_length(all, start as int, end as int),
            bytes <= u32::MAX as u64 + 15,
            end == start || extents_fit_page(all, start as int, end as int, limits),
            leaf_end(all, start as int, start as int, limits) == leaf_end(
                all,
                start as int,
                end as int,
                limits,
            ),
            full ==> end < extents@.len() && !extents_fit_page(
                all,
                start as int,
                end + 1,
                limits,
            ),
        decreases extents@.len() - end + (if full {
            0int
        } else {
            1int
        }),
    {
        assert(all[end as int] == extents@[end as int]@);
        let size: u64 = match extents[end].kind {
            ExtentKind::Content { .. } => 57,
            _ => 17,
        };
        assert(extents_length(all, start as int, end + 1) == extents_length(
            all,
            start as int,
            end as int,
        ) + size);
        if end - start >= limits.maximum_page_items as usize || bytes + size
            > limits.maximum_page_bytes as u64 {
            full = true;
        } else {
            bytes = bytes + size;
            end = end + 1;
        }
    }
    if end == start {
        return Err(ExtentMutationError::PageItemTooLarge);
    }
    let mut examined: u64 = (end - start) as u64;
    if end < extents.len() && end - start < limits.maximum_page_items as usize {
        examined = examined + 1;
    }
    Ok((end, examined))
}

/// Whether a number of children fits one page.
pub open spec fn children_fit_page(count: int, limits: DecodeLimits) -> bool {
    count <= limits.maximum_page_items && EXTENT_PAGE_HEADER_BYTES + 48 * count
        <= limits.maximum_page_bytes
}

/// Finds how many children fit the next page, as many as its bounds admit, and how many
/// were looked at.
pub fn extent_internal_chunk_end(count: usize, start: usize, limits: DecodeLimits) -> (r: Result<
    (usize, u64),
    ExtentMutationError,
>)
    requires
        start < count,
    ensures
        match r {
            Ok((end, examined)) => start < end <= count && children_fit_page(end - start, limits)
                && (end < count ==> !children_fit_page(end + 1 - start, limits)) && examined == (
            if end < count && end - start < limits.maximum_page_items {
                end - start + 1
            } else {
                end - start
            }),
            Err(error) => error == ExtentMutationError::PageItemTooLarge && !children_fit_page(
                1,
                limits,
            ),
        },
        ({
            let found = internal_end(count as int, start as int, start as int, limits);
            match r {
                Ok((end, examined)) => end == found && examined == looked_at(
                    count as int,
                    start as int,
                    found,
                    limits,
                ),
                Err(_) => found == start,
            }
        }),
{
    let mut end: usize = start;
    let mut bytes: u64 = EXTENT_PAGE_HEADER_BYTES as u64;
    let mut full = false;
    while end < count && !full
        invariant
            start <= end <= count,
            bytes == EXTENT_PAGE_HEADER_BYTES + 48 * (end - start),
            bytes <= u32::MAX as u64 + 15,
            end == start || children_fit_page(end - start, limits),
            internal_end(count as int, start as int, start as int, limits) == internal_end(
                count as int,
                start as int,
                end as int,
                limits,
            ),
            full ==> end < count && !children_fit_page(end + 1 - start, limits),
        decreases count - end + (if full {
            0int
        } else {
            1int
        }),
    {
        if end - start >= limits.maximum_page_items as usize || bytes + 48
            > limits.maximum_page_bytes as u64 {
            full = true;
        } else {
            bytes = bytes + 48;
            end = end + 1;
        }
    }
    if end == start {
        return Err(ExtentMutationError::PageItemTooLarge);
    }
    let mut examined: u64 = (end - start) as u64;
    if end < count && end - start < limits.maximum_page_items as usize {
        examined = examined + 1;
    }
    Ok((end, examined))
}

/// Where a store stands: how many puts it has seen, and what it answers.
struct Place {
    at: nat,
    answers: Answers,
}

/// Where a store stands.
spec fn place_of<S: ObjectStore>(store: S) -> Place {
    Place { at: store.puts().len(), answers: answering(store) }
}

/// State of one rewrite.
struct Rewrite {
    limits: DecodeLimits,
    budget: WorkBudget,
    work: WorkCounters,
    allocations: AllocationLedger,
    visited: VisitedObjectSet,
    patches: Vec<Patch>,
    seen_height: u16,
}

impl Rewrite {
    spec fn sound(&self) -> bool {
        &&& self.visited.sound()
        &&& self.visited.held_bytes() <= self.allocations.live_bytes
        &&& 64 * self.patches@.len() <= u64::MAX
        &&& runs_disjoint(views(self.patches@))
    }

    /// Abstract value of the rewrite and its store.
    spec fn state<S: ObjectStore>(&self, store: S) -> RewriteView {
        self.state_at(place_of(store))
    }

    /// Abstract value of the rewrite where its store stands.
    spec fn state_at(&self, place: Place) -> RewriteView {
        RewriteView {
            work: self.work,
            live: self.allocations.live_bytes,
            visited: self.visited.model(),
            seen: self.seen_height,
            at: place.at,
            answers: place.answers,
            kept: true,
        }
    }

    /// Whether terms are those of the rewrite, over a record that goes on from some puts.
    spec fn under(&self, terms: RewriteTerms, puts: Seq<Put>) -> bool {
        &&& terms.limits == self.limits
        &&& terms.budget == self.budget
        &&& terms.patches == views(self.patches@)
        &&& logged(puts, terms.puts)
    }

    /// Bytes held besides the set of pages visited.
    spec fn spare(&self) -> int {
        self.allocations.live_bytes - self.visited.held_bytes()
    }

    /// Whether as much memory is held as before, and work within its budget stays there.
    spec fn settled(&self, before: Rewrite) -> bool {
        &&& self.spare() == before.spare()
        &&& within(before.work, before.budget) ==> within(self.work, before.budget)
    }

    /// Whether two states belong to one rewrite, on the same levels.
    spec fn stays(&self, before: Rewrite) -> bool {
        self.goes_on(before) && self.seen_height == before.seen_height
    }

    /// Whether two states belong to one rewrite.
    spec fn goes_on(&self, before: Rewrite) -> bool {
        &&& self.sound()
        &&& self.limits == before.limits
        &&& self.budget == before.budget
        &&& self.patches@ == before.patches@
    }

    fn charge_items(&mut self, count: u64, Ghost(place): Ghost<Place>) -> (r: Result<
        (),
        ExtentMutationError,
    >)
        requires
            old(self).sound(),
        ensures
            final(self).stays(*old(self)),
            final(self).spare() == old(self).spare(),
            r is Ok ==> final(self).settled(*old(self)),
            r matches Err(error) ==> bounded_failure(error),
            forall|terms: RewriteTerms|
                terms.budget == old(self).budget ==> #[trigger] items_counted(
                    terms,
                    old(self).state_at(place),
                    count,
                ) == (unit_outcome(r), final(self).state_at(place)),
    {
        proof {
            reveal(items_counted);
        }
        match self.work.charge(WorkCounters::of_items_examined(count), self.budget) {
            Ok(sum) => {
                self.work = sum;
                Ok(())
            },
            Err(error) => Err(ExtentMutationError::Work(error)),
        }
    }

    /// Counts examined items; the work counts even where it exceeds the budget.
    fn spend_items(&mut self, count: u64, Ghost(place): Ghost<Place>) -> (r: Result<
        (),
        ExtentMutationError,
    >)
        requires
            old(self).sound(),
        ensures
            final(self).stays(*old(self)),
            final(self).spare() == old(self).spare(),
            r is Ok ==> final(self).settled(*old(self)),
            r matches Err(error) ==> bounded_failure(error),
            forall|terms: RewriteTerms|
                terms.budget == old(self).budget ==> #[trigger] items_spent(
                    terms,
                    old(self).state_at(place),
                    count,
                ) == (unit_outcome(r), final(self).state_at(place)),
    {
        proof {
            reveal(items_spent);
        }
        match self.work.checked_add(WorkCounters::of_items_examined(count)) {
            Ok(sum) => {
                self.work = sum;
            },
            Err(error) => {
                return Err(ExtentMutationError::Work(error));
            },
        }
        match self.work.verify(self.budget) {
            Ok(()) => Ok(()),
            Err(error) => Err(ExtentMutationError::Work(error)),
        }
    }

    /// Makes the request for a page, and counts the work behind it.
    fn ask_page(&self, page: ObjectId, Ghost(place): Ghost<Place>) -> (r: Result<
        (ReadRequest, WorkCounters),
        WorkError,
    >)
        ensures
            forall|terms: RewriteTerms|
                terms.limits == self.limits && terms.budget == self.budget ==> #[trigger] page_asked(
                    terms,
                    self.state_at(place),
                    page@,
                ) == (match r {
                    Ok((request, prospective)) => Ok((request@, prospective)),
                    Err(error) => Err(error),
                }),
            r matches Ok((request, _)) ==> request.object == page,
    {
        proof {
            reveal(page_asked);
        }
        let prospective = match self.work.checked_add(WorkCounters::of_page_reads(1)) {
            Ok(sum) => sum,
            Err(error) => {
                return Err(error);
            },
        };
        let mut remaining = match prospective.remaining(self.budget) {
            Ok(remaining) => remaining,
            Err(error) => {
                return Err(error);
            },
        };
        let live = self.allocations.live_bytes;
        if live > self.budget.peak_allocation_bytes {
            return Err(WorkError::Overflow);
        }
        remaining.peak_allocation_bytes = self.budget.peak_allocation_bytes - live;
        let maximum_bytes = self.limits.maximum_page_object_bytes();
        Ok((ReadRequest { object: page, maximum_bytes, remaining }, prospective))
    }

    /// Opens the bytes of a page that was read; its decoded size stays claimed.
    fn open_page(&mut self, read: ObjectRead, Ghost(place): Ghost<Place>) -> (r: Result<
        (ExtentPage, u64),
        ExtentMutationError,
    >)
        requires
            old(self).sound(),
            old(self).visited.held_bytes() + retained(read@) <= old(self).allocations.live_bytes,
        ensures
            final(self).stays(*old(self)),
            match r {
                Ok((decoded, held)) => within(final(self).work, old(self).budget)
                    && final(self).spare() == old(self).spare() + held - retained(read@)
                    && extent_decoded(read@.bytes, old(self).limits) == Ok::<
                    ExtentPageView,
                    DecodeErrorView,
                >(decoded@),
                Err(error) => bounded_failure(error),
            },
            forall|terms: RewriteTerms|
                terms.limits == old(self).limits && terms.budget == old(self).budget
                    ==> #[trigger] page_opened(terms, old(self).state_at(place), read@) == (
                    page_outcome(r),
                    final(self).state_at(place),
                ),
    {
        proof {
            reveal(page_opened);
        }
        let retained: u64 = match read.retention {
            ObjectReadRetention::Shared => 0,
            ObjectReadRetention::Owned { logical_bytes } => logical_bytes,
        };
        let shape = match extent_page_decode_shape(read.bytes.as_slice(), self.limits) {
            Ok(shape) => shape,
            Err(error) => {
                return Err(ExtentMutationError::Decode(error));
            },
        };
        if let Err(error) = self.charge_items(shape.items as u64, Ghost(place)) {
            return Err(error);
        }
        let each: u64 = match shape.kind {
            DecodedPageKind::Leaf => EXTENT_LOGICAL_BYTES,
            DecodedPageKind::Internal => EXTENT_CHILD_LOGICAL_BYTES,
        };
        assert(shape.items * each <= 64 * shape.items) by (nonlinear_arith)
            requires
                each <= 64,
        ;
        let held = match (shape.items as u64).checked_mul(each) {
            Some(held) => held,
            None => {
                return Err(ExtentMutationError::AllocationFailed);
            },
        };
        let operations: u64 = if held != 0 {
            1
        } else {
            0
        };
        if let Err(error) = self.allocations.claim_bytes(
            held,
            operations,
            &mut self.work,
            self.budget,
        ) {
            return Err(map_allocation(error));
        }
        let decoded = match decode_extent_page(read.bytes.as_slice(), self.limits) {
            Ok(decoded) => decoded,
            Err(error) => {
                return Err(ExtentMutationError::Decode(error));
            },
        };
        self.allocations.live_bytes = self.allocations.live_bytes - retained;
        Ok((decoded, held))
    }

    /// Takes the reply to the request for a page.
    fn take_page(
        &mut self,
        prospective: WorkCounters,
        reply: Result<ObjectRead, ObjectFailure>,
        Ghost(place): Ghost<Place>,
    ) -> (r: Result<(ExtentPage, u64), ExtentMutationError>)
        requires
            old(self).sound(),
        ensures
            final(self).stays(*old(self)),
            match r {
                Ok((decoded, held)) => within(final(self).work, old(self).budget)
                    && final(self).spare() == old(self).spare() + held && (reply matches Ok(read)
                    && extent_decoded(read@.bytes, old(self).limits) == Ok::<
                    ExtentPageView,
                    DecodeErrorView,
                >(decoded@)),
                Err(error) => bounded_failure(error),
            },
            forall|terms: RewriteTerms|
                terms.limits == old(self).limits && terms.budget == old(self).budget
                    ==> #[trigger] page_taken(
                    terms,
                    old(self).state_at(place),
                    prospective,
                    reply_view(reply),
                ) == (page_outcome(r), final(self).state_at(place)),
    {
        proof {
            reveal(page_taken);
        }
        let ghost begun = *self;
        let live = self.allocations.live_bytes;
        let read = match reply {
            Ok(read) => read,
            Err(failure) => {
                match merge_backend_work(prospective, failure.work, live) {
                    Ok(sum) => {
                        self.work = sum;
                    },
                    Err(error) => {
                        return Err(ExtentMutationError::Work(error));
                    },
                }
                return Err(ExtentMutationError::Storage(failure.error));
            },
        };
        match merge_backend_work(prospective, read.work, live) {
            Ok(sum) => {
                self.work = sum;
            },
            Err(error) => {
                return Err(ExtentMutationError::Work(error));
            },
        }
        if let Err(error) = self.work.verify(self.budget) {
            return Err(ExtentMutationError::Work(error));
        }
        let retained: u64 = match read.retention {
            ObjectReadRetention::Shared => 0,
            ObjectReadRetention::Owned { logical_bytes } => logical_bytes,
        };
        if let Err(error) = self.allocations.claim_bytes(
            retained,
            0,
            &mut self.work,
            self.budget,
        ) {
            return Err(map_allocation(error));
        }
        let ghost merged = self.state_at(place);
        let r = self.open_page(read, Ghost(place));
        proof {
            assert forall|terms: RewriteTerms|
                terms.limits == begun.limits && terms.budget == begun.budget implies #[trigger]
                page_taken(terms, begun.state_at(place), prospective, reply_view(reply)) == (
                page_outcome(r),
                self.state_at(place),
            ) by {
                assert(page_opened(terms, merged, read@) == (page_outcome(r), self.state_at(place)));
            }
        }
        r
    }

    /// Reads one page; its decoded size stays claimed.
    fn read_page<S: ObjectStore>(&mut self, store: &S, page: ObjectId) -> (r: Result<
        (ExtentPage, u64),
        ExtentMutationError,
    >)
        requires
            old(self).sound(),
        ensures
            final(self).stays(*old(self)),
            match r {
                Ok((decoded, held)) => within(final(self).work, old(self).budget)
                    && final(self).spare() == old(self).spare() + held && (store.contents())(
                    page@,
                ) is Some && extent_decoded((store.contents())(page@)->0, old(self).limits) == Ok::<
                    ExtentPageView,
                    DecodeErrorView,
                >(decoded@),
                Err(error) => bounded_failure(error),
            },
            forall|terms: RewriteTerms|
                terms.limits == old(self).limits && terms.budget == old(self).budget
                    ==> #[trigger] page_read(terms, old(self).state(*store), page@) == (
                    page_outcome(r),
                    final(self).state(*store),
                ),
    {
        proof {
            reveal(page_read);
        }
        let (request, prospective) = match self.ask_page(page, Ghost(place_of(*store))) {
            Ok(asked) => asked,
            Err(error) => {
                return Err(ExtentMutationError::Work(error));
            },
        };
        proof {
            store.answers_from_contents(request@);
        }
        let reply = store.read(&request);
        self.take_page(prospective, reply, Ghost(place_of(*store)))
    }

    /// Encodes and hashes one page that is to be put; its size stays claimed.
    #[verifier::rlimit(80)]
    fn encode_page(&mut self, page: &ExtentPage, Ghost(place): Ghost<Place>) -> (r: Result<
        (Vec<u8>, WorkCounters),
        ExtentMutationError,
    >)
        requires
            old(self).sound(),
        ensures
            final(self).stays(*old(self)),
            match r {
                Ok((bytes, prospective)) => within(prospective, old(self).budget)
                    && final(self).spare() == old(self).spare() + bytes@.len() && extent_decoded(
                    bytes@,
                    old(self).limits,
                ) == Ok::<ExtentPageView, DecodeErrorView>(page@),
                Err(error) => bounded_failure(error),
            },
            forall|terms: RewriteTerms|
                terms.limits == old(self).limits && terms.budget == old(self).budget
                    ==> #[trigger] page_encoded(terms, old(self).state_at(place), page@) == (
                    match r {
                        Ok((bytes, prospective)) => Ok((bytes@, prospective)),
                        Err(error) => Err(error@),
                    },
                    final(self).state_at(place),
                ),
    {
        proof {
            reveal(page_encoded);
            reveal(page_hashed);
        }
        let encoded = match encode_extent_page(page, self.limits.maximum_page_items) {
            Ok(encoded) => encoded,
            Err(error) => {
                return Err(ExtentMutationError::Decode(error));
            },
        };
        let size = encoded.len() as u64;
        let maximum = self.limits.maximum_page_object_bytes();
        if size > maximum {
            return Err(
                ExtentMutationError::Decode(
                    CanonicalDecodeError::ObjectTooLarge { observed: size, maximum },
                ),
            );
        }
        proof {
            lemma_page_reads_back(page, self.limits);
        }
        if let Err(error) = self.work.charge(WorkCounters::of_bytes_encoded(size), self.budget) {
            return Err(ExtentMutationError::Work(error));
        }
        if let Err(error) = self.allocations.claim_bytes(size, 1, &mut self.work, self.budget) {
            return Err(map_allocation(error));
        }
        match self.work.checked_add(WorkCounters::of_bytes_encoded(size)) {
            Ok(sum) => {
                self.work = sum;
            },
            Err(error) => {
                return Err(ExtentMutationError::Work(error));
            },
        }
        if let Err(error) = self.work.verify(self.budget) {
            return Err(ExtentMutationError::Work(error));
        }
        let hashed: u64 = size + OBJECT_DIGEST_ENVELOPE_BYTES;
        match self.work.charge(WorkCounters::of_bytes_hashed(hashed), self.budget) {
            Ok(sum) => {
                self.work = sum;
            },
            Err(error) => {
                return Err(ExtentMutationError::Work(error));
            },
        }
        let prospective = match self.work.checked_add(WorkCounters::of_page_writes(1)) {
            Ok(sum) => sum,
            Err(error) => {
                return Err(ExtentMutationError::Work(error));
            },
        };
        if let Err(error) = prospective.verify(self.budget) {
            return Err(ExtentMutationError::Work(error));
        }
        Ok((encoded, prospective))
    }

    /// Takes the reply to the put of a page of a given size.
    fn take_put(
        &mut self,
        prospective: WorkCounters,
        size: u64,
        object: ObjectId,
        reply: Result<WorkCounters, ObjectFailure>,
        Ghost(place): Ghost<Place>,
    ) -> (r: Result<ObjectId, ExtentMutationError>)
        requires
            old(self).sound(),
            old(self).visited.held_bytes() + size <= old(self).allocations.live_bytes,
        ensures
            final(self).stays(*old(self)),
            match r {
                Ok(found) => found == object && reply is Ok && within(
                    final(self).work,
                    old(self).budget,
                ) && final(self).spare() == old(self).spare() - size,
                Err(error) => bounded_failure(error),
            },
            forall|terms: RewriteTerms|
                terms.budget == old(self).budget ==> #[trigger] put_answered(
                    terms,
                    old(self).state_at(place),
                    prospective,
                    size,
                    object@,
                    reply,
                ) == (id_outcome(r), final(self).state_at(place)),
    {
        proof {
            reveal(put_answered);
        }
        match reply {
            Ok(spent) => {
                match prospective.checked_add(spent) {
                    Ok(sum) => {
                        self.work = sum;
                    },
                    Err(error) => {
                        return Err(ExtentMutationError::Work(error));
                    },
                }
                if let Err(error) = self.work.verify(self.budget) {
                    return Err(ExtentMutationError::Work(error));
                }
                self.allocations.live_bytes = self.allocations.live_bytes - size;
                Ok(object)
            },
            Err(failure) => {
                self.allocations.live_bytes = self.allocations.live_bytes - size;
                match merge_backend_work(prospective, failure.work, self.allocations.live_bytes) {
                    Ok(sum) => {
                        self.work = sum;
                        Err(ExtentMutationError::Storage(failure.error))
                    },
                    Err(error) => Err(ExtentMutationError::Work(error)),
                }
            },
        }
    }

    /// Encodes one page and adds it to the store.
    fn write_page<S: ObjectStore>(&mut self, store: &mut S, page: &ExtentPage) -> (r: Result<
        ObjectId,
        ExtentMutationError,
    >)
        requires
            old(self).sound(),
        ensures
            final(self).stays(*old(self)),
            extends(old(store).contents(), final(store).contents()),
            logged(old(store).puts(), final(store).puts()),
            match r {
                Ok(object) => final(self).settled(*old(self)) && object.kind
                    == ObjectKind::ExtentPage && (final(store).contents())(object@) is Some
                    && extent_decoded(
                    (final(store).contents())(object@)->0,
                    old(self).limits,
                ) == Ok::<ExtentPageView, DecodeErrorView>(page@),
                Err(error) => bounded_failure(error),
            },
            forall|terms: RewriteTerms|
                old(self).under(terms, final(store).puts()) ==> #[trigger] page_written(
                    terms,
                    old(self).state(*old(store)),
                    page@,
                ) == (id_outcome(r), final(self).state(*final(store))),
    {
        proof {
            reveal(page_written);
        }
        let ghost begun = *self;
        let ghost puts = store.puts();
        assert(puts.take(puts.len() as int) =~= puts);
        let (encoded, prospective) = match self.encode_page(page, Ghost(place_of(*store))) {
            Ok(made) => made,
            Err(error) => {
                return Err(error);
            },
        };
        let remaining = match prospective.remaining(self.budget) {
            Ok(remaining) => remaining,
            Err(error) => {
                return Err(ExtentMutationError::Work(error));
            },
        };
        let ghost encoded_at = self.state(*store);
        let object = object_id(ObjectKind::ExtentPage, encoded.as_slice());
        let size = encoded.len() as u64;
        let reply = store.put(object, encoded.as_slice(), remaining);
        let ghost put_at = self.state(*store);
        let r = self.take_put(prospective, size, object, reply, Ghost(place_of(*store)));
        proof {
            let after = store.puts();
            assert(after.take(puts.len() as int) =~= puts);
            assert forall|terms: RewriteTerms| begun.under(terms, after) implies #[trigger]
                page_written(terms, begun.state(*old(store)), page@) == (
                id_outcome(r),
                self.state(*store),
            ) by {
                assert(terms.puts[puts.len() as int] == terms.puts.take(after.len() as int)[
                    puts.len() as int
                ]);
                assert(after_put(terms, encoded_at, encoded@, prospective) == put_at);
            }
        }
        r
    }
}

/// The reply to a read.
spec fn reply_view(reply: Result<ObjectRead, ObjectFailure>) -> Result<ReadView, ObjectFailure> {
    match reply {
        Ok(read) => Ok(read@),
        Err(failure) => Err(failure),
    }
}

/// The outcome of a step without a result.
spec fn unit_outcome(r: Result<(), ExtentMutationError>) -> Result<(), MutationErrorView> {
    match r {
        Ok(_) => Ok(()),
        Err(error) => Err(error@),
    }
}

/// The outcome of a step that gives an object.
pub open spec fn id_outcome(r: Result<ObjectId, ExtentMutationError>) -> Result<
    ObjectView,
    MutationErrorView,
> {
    match r {
        Ok(object) => Ok(object@),
        Err(error) => Err(error@),
    }
}

/// The outcome of a step that gives a page and the bytes claimed for it.
spec fn page_outcome(r: Result<(ExtentPage, u64), ExtentMutationError>) -> Result<
    (ExtentPageView, u64),
    MutationErrorView,
> {
    match r {
        Ok((page, held)) => Ok((page@, held)),
        Err(error) => Err(error@),
    }
}

/// The outcome of a step that gives a list of trees.
spec fn list_outcome(r: Result<Vec<ExtentChild>, ExtentMutationError>) -> Result<
    Seq<ExtentChildView>,
    MutationErrorView,
> {
    match r {
        Ok(list) => Ok(views(list@)),
        Err(error) => Err(error@),
    }
}

/// A page that was encoded within the bounds decodes to itself.
proof fn lemma_page_reads_back(page: &ExtentPage, limits: DecodeLimits)
    requires
        extent_encoded(page@, limits.maximum_page_items) is Ok,
        extent_encoded(page@, limits.maximum_page_items)->Ok_0.len() <= limits.page_object_bytes(),
    ensures
        extent_decoded(extent_encoded(page@, limits.maximum_page_items)->Ok_0, limits) == Ok::<
            ExtentPageView,
            DecodeErrorView,
        >(page@),
{
    match *page {
        ExtentPage::Leaf(extents) => {
            let all = views(extents@);
            assert forall|i: int| 0 <= i < all.len() implies Extent::item_fits(
                #[trigger] all[i],
                limits,
            ) by {
                assert(all[i] == extents@[i]@);
                assert(extent_fits(all[i]));
            }
            assert(items_fit::<Extent>(all, limits));
        },
        ExtentPage::Internal(children) => {
            let all = views(children@);
            assert forall|i: int| 0 <= i < all.len() implies ExtentChild::item_fits(
                #[trigger] all[i],
                limits,
            ) by {
                assert(all[i] == children@[i]@);
                assert(extent_child_fits(all[i]));
            }
            assert(items_fit::<ExtentChild>(all, limits));
        },
    }
    extent_page_round_trip(page@, limits.maximum_page_items, limits);
}

/// Whether a patch has bytes of a range.
pub open spec fn patch_overlaps(patch: PatchView, start: u64, end: u64) -> bool {
    patch.offset < end && patch.end > start
}

/// Finds the patches that have bytes of a range, and how many comparisons it took.
pub fn overlapping_patch_range(patches: &Vec<Patch>, start: u64, end: u64) -> (r: (usize, usize, u64))
    requires
        runs_disjoint(views(patches@)),
    ensures
        r.0 <= r.1 <= patches@.len(),
        ({
            let (from, to, comparisons) = patches_between(views(patches@), start, end);
            &&& r.0 == from
            &&& r.1 == to
            &&& comparisons <= 2 * patches@.len()
            &&& 2 * patches@.len() <= u64::MAX ==> r.2 == comparisons
        }),
        forall|i: int|
            0 <= i < patches@.len() ==> (r.0 <= i < r.1) == patch_overlaps(
                #[trigger] views(patches@)[i],
                start,
                end,
            ) || start >= end,
{
    let ghost all = views(patches@);
    let size: usize = patches.len();
    let mut comparisons: u64 = 0;
    let mut low: usize = 0;
    let mut high: usize = size;
    let ghost small = 2 * size <= u64::MAX;
    let ghost mut steps: int = 0;
    while low < high
        invariant
            low <= high <= size,
            small == (2 * size <= u64::MAX),
            steps + (high - low) <= size,
            small ==> comparisons == steps,
            ends_searched(all, start, 0, size as int).0 == ends_searched(
                all,
                start,
                low as int,
                high as int,
            ).0,
            ends_searched(all, start, 0, size as int).1 == steps + ends_searched(
                all,
                start,
                low as int,
                high as int,
            ).1,
            size == patches@.len(),
            all == views(patches@),
            runs_disjoint(all),
            forall|i: int| 0 <= i < low ==> (#[trigger] all[i]).end <= start,
            forall|i: int| high <= i < size ==> (#[trigger] all[i]).end > start,
        decreases high - low,
    {
        comparisons = comparisons.saturating_add(1);
        proof {
            steps = steps + 1;
        }
        let middle: usize = low + (high - low) / 2;
        assert(all[middle as int] == patches@[middle as int]@);
        if patches[middle].end <= start {
            assert forall|i: int| 0 <= i < middle + 1 implies (#[trigger] all[i]).end <= start by {
                if i < middle {
                    assert(all[i].end <= all[middle as int].offset);
                }
            }
            low = middle + 1;
        } else {
            assert forall|i: int| middle <= i < size implies (#[trigger] all[i]).end > start by {
                if i > middle {
                    assert(all[middle as int].end <= all[i].offset);
                }
            }
            high = middle;
        }
    }
    let first = low;
    let mut left: usize = 0;
    let mut right: usize = size;
    let ghost one = steps;
    proof {
        steps = 0;
    }
    while left < right
        invariant
            left <= right <= size,
            small == (2 * size <= u64::MAX),
            one <= size,
            steps + (right - left) <= size,
            small ==> comparisons == one + steps,
            starts_searched(all, end, 0, size as int).0 == starts_searched(
                all,
                end,
                left as int,
                right as int,
            ).0,
            starts_searched(all, end, 0, size as int).1 == steps + starts_searched(
                all,
                end,
                left as int,
                right as int,
            ).1,
            size == patches@.len(),
            all == views(patches@),
            runs_disjoint(all),
            forall|i: int| 0 <= i < left ==> (#[trigger] all[i]).offset < end,
            forall|i: int| right <= i < size ==> (#[trigger] all[i]).offset >= end,
        decreases right - left,
    {
        comparisons = comparisons.saturating_add(1);
        proof {
            steps = steps + 1;
        }
        let middle: usize = left + (right - left) / 2;
        assert(all[middle as int] == patches@[middle as int]@);
        if patches[middle].offset < end {
            assert forall|i: int| 0 <= i < middle + 1 implies (#[trigger] all[i]).offset < end by {
                if i < middle {
                    assert(all[i].end <= all[middle as int].offset);
                }
            }
            left = middle + 1;
        } else {
            assert forall|i: int| middle <= i < size implies (#[trigger] all[i]).offset >= end by {
                if i > middle {
                    assert(all[middle as int].end <= all[i].offset);
                }
            }
            right = middle;
        }
    }
    if left < first {
        (first, first, comparisons)
    } else {
        (first, left, comparisons)
    }
}

/// Patches outside a range say nothing of its bytes.
proof fn lemma_patches_part(
    patches: Seq<PatchView>,
    from: int,
    to: int,
    start: u64,
    end: u64,
    x: int,
)
    requires
        runs_disjoint(patches),
        0 <= from <= to <= patches.len(),
        start <= x < end,
        forall|i: int|
            0 <= i < patches.len() ==> (from <= i < to) == patch_overlaps(
                #[trigger] patches[i],
                start,
                end,
            ),
    ensures
        runs_disjoint(patches.subrange(from, to)),
        patched_at(patches.subrange(from, to), x) == patched_at(patches, x),
{
    let part = patches.subrange(from, to);
    assert forall|i: int| 0 <= i < part.len() implies super::extent_patch::run_fits(
        #[trigger] part[i],
    ) by {
        assert(part[i] == patches[from + i]);
    }
    assert forall|i: int, j: int| 0 <= i < j < part.len() implies (#[trigger] part[i]).end <= (
    #[trigger] part[j]).offset by {
        assert(patches[from + i].end <= patches[from + j].offset);
    }
    if exists|i: int| 0 <= i < patches.len() && covers(#[trigger] patches[i], x) {
        let i = choose|i: int| 0 <= i < patches.len() && covers(#[trigger] patches[i], x);
        assert(patch_overlaps(patches[i], start, end));
        assert forall|j: int| i < j < patches.len() implies !covers(#[trigger] patches[j], x) by {
            assert(patches[i].end <= patches[j].offset);
        }
        super::extent_patch::lemma_run_at(patches, x, i, patches.len());
        assert(part[i - from] == patches[i]);
        assert forall|j: int| i - from < j < part.len() implies !covers(#[trigger] part[j], x) by {
            assert(part[i - from].end <= part[j].offset);
        }
        super::extent_patch::lemma_run_at(part, x, i - from, part.len());
    } else {
        super::extent_patch::lemma_run_none(patches, x, patches.len());
        assert forall|j: int| 0 <= j < part.len() implies !covers(#[trigger] part[j], x) by {
            assert(part[j] == patches[from + j]);
        }
        super::extent_patch::lemma_run_none(part, x, part.len());
    }
}

/// Whether pages say what extents say, up to a position.
spec fn extents_carried(
    objects: Objects,
    limits: DecodeLimits,
    all: Seq<ExtentView>,
    list: Seq<ExtentChildView>,
    upto: int,
) -> bool {
    forall|file: Bytes| #[trigger]
        extents_tell(all, all[0].offset as int, extent_end_of(all.last()), file) ==> list_told(
            objects,
            limits,
            list,
            all[0].offset as int,
            upto,
            file,
        )
}

/// Where the item at an index begins, or the end.
spec fn extent_start(all: Seq<ExtentView>, at: int) -> int {
    if at < all.len() {
        all[at].offset as int
    } else {
        extent_end_of(all.last())
    }
}

/// Whether cuts lead from the start to an end, page by page.
spec fn page_cuts_fit(cuts: Seq<usize>, examined: Seq<u64>, end: int) -> bool {
    &&& cuts.len() == examined.len() + 1
    &&& cuts[0] == 0
    &&& cuts.last() == end
    &&& forall|i: int, j: int|
        0 <= i < j < cuts.len() ==> (#[trigger] cuts[i]) < (#[trigger] cuts[j])
}

/// Whether pages say what a list says, up to a position.
spec fn list_carried(
    before: Objects,
    objects: Objects,
    limits: DecodeLimits,
    children: Seq<ExtentChildView>,
    list: Seq<ExtentChildView>,
    at: int,
) -> bool {
    forall|first: int, end: int, file: Bytes| #[trigger]
        list_told(before, limits, children, first, end, file) ==> list_told(
            objects,
            limits,
            list,
            first,
            if at < children.len() {
                children[at].first_offset as int
            } else {
                end
            },
            file,
        )
}

impl Rewrite {
    /// Writes extents to as few pages as their bounds admit.
    fn write_leaf_chunks<S: ObjectStore>(&mut self, store: &mut S, extents: &Vec<Extent>) -> (r: Result<
        Vec<ExtentChild>,
        ExtentMutationError,
    >)
        requires
            old(self).sound(),
            extents_ordered(views(extents@)),
            extents@.len() > 0,
        ensures
            final(self).stays(*old(self)),
            extends(old(store).contents(), final(store).contents()),
            match r {
                Ok(list) => final(self).settled(*old(self)) && extents_carried(
                    final(store).contents(),
                    old(self).limits,
                    views(extents@),
                    views(list@),
                    extent_end_of(views(extents@).last()),
                ),
                Err(error) => bounded_failure(error),
            },
            logged(old(store).puts(), final(store).puts()),
            forall|terms: RewriteTerms|
                old(self).under(terms, final(store).puts()) ==> #[trigger] leaves_written(
                    terms,
                    old(self).state(*old(store)),
                    views(extents@),
                    0,
                    Seq::empty(),
                ) == (list_outcome(r), final(self).state(*final(store))),
    {
        proof {
            reveal(leaves_written);
        }
        let ghost all = views(extents@);
        let ghost begun = *self;
        let ghost begun_at = self.state(*store);
        let ghost puts = store.puts();
        assert(puts.take(puts.len() as int) =~= puts);
        let ghost limits = self.limits;
        let ghost before = store.contents();
        let mut list: Vec<ExtentChild> = Vec::new();
        let mut start: usize = 0;
        assert(views(list@) =~= Seq::<ExtentChildView>::empty());
        while start < extents.len()
            invariant
                start <= extents@.len(),
                all == views(extents@),
                extents_ordered(all),
                all.len() > 0,
                begun == *old(self),
                limits == begun.limits,
                self.stays(begun),
                self.settled(begun),
                puts == old(store).puts(),
                logged(puts, store.puts()),
                begun_at == begun.state(*old(store)),
                forall|terms: RewriteTerms|
                    begun.under(terms, store.puts()) ==> #[trigger] leaves_written(
                        terms,
                        begun_at,
                        all,
                        0,
                        Seq::empty(),
                    ) == leaves_written(
                        terms,
                        self.state(*store),
                        all,
                        start as int,
                        views(list@),
                    ),
                before == old(store).contents(),
                extends(before, store.contents()),
                extents_carried(
                    store.contents(),
                    limits,
                    all,
                    views(list@),
                    extent_start(all, start as int),
                ),
            decreases extents@.len() - start,
        {
            proof {
                reveal(leaves_written);
            }
            let (end, examined) = match extent_leaf_chunk_end(extents, start, self.limits) {
                Ok(found) => found,
                Err(error) => {
                    return Err(error);
                },
            };
            let ghost top_puts = store.puts();
            let ghost top = self.state(*store);
            if let Err(error) = self.charge_items(examined, Ghost(place_of(*store))) {
                return Err(error);
            }
            let piece = vstd::slice::slice_subrange(extents.as_slice(), start, end);
            let chunk = vstd::slice::slice_to_vec(piece);
            let ghost part = all.subrange(start as int, end as int);
            assert(views(chunk@) =~= part);
            assert(all[start as int] == extents@[start as int]@);
            assert(all[end - 1] == extents@[end - 1]@);
            assert(extent_fits(all[end - 1]));
            let first_offset = extents[start].offset;
            let end_offset: u64 = extents[end - 1].offset + extents[end - 1].length;
            let ghost held = store.contents();
            let page = ExtentPage::Leaf(chunk);
            let ghost counted = self.state(*store);
            let object = match self.write_page(store, &page) {
                Ok(object) => object,
                Err(error) => {
                    proof {
                        lemma_logged(puts, top_puts, store.puts());
                        assert forall|terms: RewriteTerms| begun.under(
                            terms,
                            store.puts(),
                        ) implies #[trigger] leaves_written(terms, begun_at, all, 0, Seq::empty())
                            == (
                            Err::<Seq<ExtentChildView>, MutationErrorView>(error@),
                            self.state(*store),
                        ) by {
                            lemma_logged(top_puts, store.puts(), terms.puts);
                            assert(page_written(terms, counted, page@) == (
                                Err::<ObjectView, MutationErrorView>(error@),
                                self.state(*store),
                            ));
                            assert(leaves_written(terms, begun_at, all, 0, Seq::empty())
                                == leaves_written(terms, top, all, start as int, views(list@)));
                        }
                    }
                    return Err(error);
                },
            };
            let child = ExtentChild { first_offset, end_offset, page: object };
            let ghost shorter = views(list@);
            list.push(child);
            proof {
                lemma_logged(puts, top_puts, store.puts());
                assert forall|terms: RewriteTerms| begun.under(
                    terms,
                    store.puts(),
                ) implies #[trigger] leaves_written(terms, begun_at, all, 0, Seq::empty())
                    == leaves_written(
                    terms,
                    self.state(*store),
                    all,
                    end as int,
                    views(list@),
                ) by {
                    lemma_logged(top_puts, store.puts(), terms.puts);
                    assert(views(list@) =~= shorter.push(child@));
                }
                let after = store.contents();
                assert(views(list@) =~= shorter + seq![child@]);
                lemma_extents_apart(all, start as int, end - 1);
                if end < all.len() {
                    assert(super::extent::extent_adjoins(all, end as int));
                }
                assert forall|file: Bytes| #[trigger]
                    extents_tell(
                        all,
                        all[0].offset as int,
                        extent_end_of(all.last()),
                        file,
                    ) implies list_told(
                    after,
                    limits,
                    views(list@),
                    all[0].offset as int,
                    extent_start(all, end as int),
                    file,
                ) by {
                    lemma_list_grows(
                        held,
                        after,
                        limits,
                        shorter,
                        all[0].offset as int,
                        extent_start(all, start as int),
                        file,
                    );
                    lemma_extents_bounds(all, start as int, end as int);
                    lemma_extents_part(all, start as int, end as int, file);
                    assert(tells(after, limits, object@, first_offset, end_offset, 1, file));
                    lemma_list_one(after, limits, child@, file);
                    lemma_list_joins(
                        after,
                        limits,
                        shorter,
                        seq![child@],
                        all[0].offset as int,
                        first_offset as int,
                        end_offset as int,
                        file,
                    );
                }
            }
            start = end;
        }
        Ok(list)
    }

    /// Finds where a list of trees is cut into pages, each as full as its bounds admit,
    /// and how many trees were looked at for each.
    fn page_cuts(&mut self, size: usize, Ghost(place): Ghost<Place>) -> (r: Result<
        (Vec<usize>, Vec<u64>),
        ExtentMutationError,
    >)
        requires
            old(self).sound(),
        ensures
            final(self).stays(*old(self)),
            final(self).spare() == old(self).spare(),
            match r {
                Ok((cuts, examined)) => final(self).settled(*old(self)) && page_cuts_fit(
                    cuts@,
                    examined@,
                    size as int,
                ),
                Err(error) => bounded_failure(error),
            },
            forall|terms: RewriteTerms|
                terms.limits == old(self).limits && terms.budget == old(self).budget
                    ==> #[trigger] pages_cut(
                    terms,
                    old(self).state_at(place),
                    size as int,
                    0,
                    seq![0usize],
                    Seq::empty(),
                ) == (
                    match r {
                        Ok((cuts, examined)) => Ok((cuts@, examined@)),
                        Err(error) => Err(error@),
                    },
                    final(self).state_at(place),
                ),
    {
        proof {
            reveal(pages_cut);
        }
        let mut cuts: Vec<usize> = Vec::new();
        let mut examined: Vec<u64> = Vec::new();
        cuts.push(0);
        let mut cursor: usize = 0;
        assert(cuts@ =~= seq![0usize]);
        while cursor < size
            invariant
                cursor <= size,
                self.stays(*old(self)),
                self.settled(*old(self)),
                page_cuts_fit(cuts@, examined@, cursor as int),
                forall|terms: RewriteTerms|
                    terms.limits == old(self).limits && terms.budget == old(self).budget
                        ==> #[trigger] pages_cut(
                        terms,
                        old(self).state_at(place),
                        size as int,
                        0,
                        seq![0usize],
                        Seq::empty(),
                    ) == pages_cut(
                        terms,
                        self.state_at(place),
                        size as int,
                        cursor as int,
                        cuts@,
                        examined@,
                    ),
            decreases size - cursor,
        {
            proof {
                reveal(pages_cut);
            }
            let (end, looked) = match extent_internal_chunk_end(size, cursor, self.limits) {
                Ok(found) => found,
                Err(error) => {
                    return Err(error);
                },
            };
            if let Err(error) = self.charge_items(looked, Ghost(place)) {
                return Err(error);
            }
            let ghost before = cuts@;
            cuts.push(end);
            examined.push(looked);
            assert forall|i: int, j: int| 0 <= i < j < cuts@.len() implies (#[trigger] cuts@[i]) < (
            #[trigger] cuts@[j]) by {
                if j == before.len() && i < before.len() - 1 {
                    assert(before[i] < before[before.len() - 1]);
                }
            }
            cursor = end;
        }
        Ok((cuts, examined))
    }

    /// Writes a list of trees to as few pages as their bounds admit, fewer than the
    /// list has trees.
    fn write_internal_chunks<S: ObjectStore>(
        &mut self,
        store: &mut S,
        children: &Vec<ExtentChild>,
    ) -> (r: Result<Vec<ExtentChild>, ExtentMutationError>)
        requires
            old(self).sound(),
        ensures
            final(self).stays(*old(self)),
            extends(old(store).contents(), final(store).contents()),
            match r {
                Ok(list) => final(self).settled(*old(self)) && list_carried(
                    old(store).contents(),
                    final(store).contents(),
                    old(self).limits,
                    views(children@),
                    views(list@),
                    children@.len() as int,
                ) && (children@.len() > 1 ==> list@.len() < children@.len()) && (children@.len() > 0
                    ==> list@.len() > 0),
                Err(error) => bounded_failure(error),
            },
            logged(old(store).puts(), final(store).puts()),
            forall|terms: RewriteTerms|
                old(self).under(terms, final(store).puts()) ==> #[trigger] level_written(
                    terms,
                    old(self).state(*old(store)),
                    views(children@),
                ) == (list_outcome(r), final(self).state(*final(store))),
    {
        proof {
            reveal(level_written);
            reveal(internals_written);
        }
        let ghost all = views(children@);
        let ghost begun = *self;
        let ghost begun_at = self.state(*store);
        let ghost puts = store.puts();
        assert(puts.take(puts.len() as int) =~= puts);
        let ghost limits = self.limits;
        let ghost before = store.contents();
        let size: usize = children.len();
        let (cuts, examined) = match self.page_cuts(size, Ghost(place_of(*store))) {
            Ok(found) => found,
            Err(error) => {
                return Err(error);
            },
        };
        if size > 1 && examined.len() >= size {
            return Err(ExtentMutationError::PageItemTooLarge);
        }
        let mut list: Vec<ExtentChild> = Vec::new();
        let mut start: usize = 0;
        let mut step: usize = 0;
        assert(views(list@) =~= Seq::<ExtentChildView>::empty());
        while step < examined.len()
            invariant
                size == children@.len(),
                step <= examined@.len(),
                page_cuts_fit(cuts@, examined@, size as int),
                start == cuts@[step as int],
                all == views(children@),
                begun == *old(self),
                limits == begun.limits,
                self.stays(begun),
                self.settled(begun),
                puts == old(store).puts(),
                logged(puts, store.puts()),
                begun_at == begun.state(*old(store)),
                forall|terms: RewriteTerms|
                    begun.under(terms, store.puts()) ==> #[trigger] level_written(
                        terms,
                        begun_at,
                        all,
                    ) == internals_written(
                        terms,
                        self.state(*store),
                        all,
                        cuts@,
                        examined@,
                        step as int,
                        views(list@),
                    ),
                before == old(store).contents(),
                extends(before, store.contents()),
                list@.len() == step,
                list_carried(before, store.contents(), limits, all, views(list@), start as int),
            decreases examined@.len() - step,
        {
            proof {
                reveal(internals_written);
            }
            assert(cuts@[step as int] < cuts@[step + 1]);
            let end = cuts[step + 1];
            let ghost top_puts = store.puts();
            let ghost top = self.state(*store);
            if let Err(error) = self.charge_items(examined[step], Ghost(place_of(*store))) {
                return Err(error);
            }
            step = step + 1;
            let piece = vstd::slice::slice_subrange(children.as_slice(), start, end);
            let chunk = vstd::slice::slice_to_vec(piece);
            let ghost part = all.subrange(start as int, end as int);
            assert(views(chunk@) =~= part);
            assert(all[start as int] == children@[start as int]@);
            assert(all[end - 1] == children@[end - 1]@);
            let first_offset = children[start].first_offset;
            let end_offset = children[end - 1].end_offset;
            let ghost held = store.contents();
            let page = ExtentPage::Internal(chunk);
            let ghost counted = self.state(*store);
            let object = match self.write_page(store, &page) {
                Ok(object) => object,
                Err(error) => {
                    proof {
                        lemma_logged(puts, top_puts, store.puts());
                        assert forall|terms: RewriteTerms| begun.under(
                            terms,
                            store.puts(),
                        ) implies #[trigger] level_written(terms, begun_at, all) == (
                            Err::<Seq<ExtentChildView>, MutationErrorView>(error@),
                            self.state(*store),
                        ) by {
                            lemma_logged(top_puts, store.puts(), terms.puts);
                            assert(page_written(terms, counted, page@) == (
                                Err::<ObjectView, MutationErrorView>(error@),
                                self.state(*store),
                            ));
                            assert(level_written(terms, begun_at, all) == internals_written(
                                terms,
                                top,
                                all,
                                cuts@,
                                examined@,
                                step - 1,
                                views(list@),
                            ));
                        }
                    }
                    return Err(error);
                },
            };
            let child = ExtentChild { first_offset, end_offset, page: object };
            let ghost shorter = views(list@);
            list.push(child);
            proof {
                lemma_logged(puts, top_puts, store.puts());
                assert forall|terms: RewriteTerms| begun.under(
                    terms,
                    store.puts(),
                ) implies #[trigger] level_written(terms, begun_at, all) == internals_written(
                    terms,
                    self.state(*store),
                    all,
                    cuts@,
                    examined@,
                    step as int,
                    views(list@),
                ) by {
                    lemma_logged(top_puts, store.puts(), terms.puts);
                    assert(views(list@) =~= shorter.push(child@));
                }
                let after = store.contents();
                assert(views(list@) =~= shorter + seq![child@]);
                assert forall|first: int, last: int, file: Bytes| #[trigger]
                    list_told(before, limits, all, first, last, file) implies list_told(
                    after,
                    limits,
                    views(list@),
                    first,
                    if end < all.len() {
                        all[end as int].first_offset as int
                    } else {
                        last
                    },
                    file,
                ) by {
                    lemma_list_grows(
                        held,
                        after,
                        limits,
                        shorter,
                        first,
                        all[start as int].first_offset as int,
                        file,
                    );
                    lemma_list_part(
                        before,
                        limits,
                        all,
                        first,
                        last,
                        file,
                        start as int,
                        end as int,
                    );
                    lemma_list_grows(
                        before,
                        after,
                        limits,
                        part,
                        first_offset as int,
                        end_offset as int,
                        file,
                    );
                    lemma_internal_told(
                        after,
                        limits,
                        object@,
                        first_offset,
                        end_offset,
                        part,
                        file,
                    );
                    super::extent_tree::lemma_children_range(part, first_offset, end_offset);
                    assert(extent_child_fits(part[0]));
                    lemma_list_one(after, limits, child@, file);
                    lemma_list_joins(
                        after,
                        limits,
                        shorter,
                        seq![child@],
                        first,
                        first_offset as int,
                        end_offset as int,
                        file,
                    );
                }
            }
            start = end;
        }
        Ok(list)
    }
}

proof fn lemma_extents_apart(extents: Seq<ExtentView>, i: int, j: int)
    requires
        extents_ordered(extents),
        0 <= i <= j < extents.len(),
    ensures
        extents[i].offset < extent_end_of(extents[j]),
{
    super::extent_patch::lemma_extents_disjoint(extents);
    let runs = super::extent_patch::runs_of(extents);
    assert(extent_fits(extents[i]) && extent_fits(extents[j]));
    if i < j {
        assert(runs[i].end <= runs[j].offset);
    }
}

/// A part of adjoining extents lies within the whole.
proof fn lemma_extents_bounds(extents: Seq<ExtentView>, from: int, to: int)
    requires
        extents_ordered(extents),
        0 <= from < to <= extents.len(),
    ensures
        extents[0].offset <= extents[from].offset,
        extent_end_of(extents[to - 1]) <= extent_end_of(extents.last()),
{
    super::extent_patch::lemma_extents_disjoint(extents);
    let runs = super::extent_patch::runs_of(extents);
    let last = extents.len() - 1;
    assert(extent_fits(extents[0]) && extent_fits(extents[to - 1]) && extent_fits(extents[last]));
    if from > 0 {
        assert(runs[0].end <= runs[from].offset);
    }
    if to - 1 < last {
        assert(runs[to - 1].end <= runs[last].offset);
    }
}

/// Tells whether two lists of extents are equal.
fn same_extents(a: &Vec<Extent>, b: &Vec<Extent>) -> (r: bool)
    ensures
        r == (views(a@) == views(b@)),
{
    if a.len() != b.len() {
        assert(views(a@).len() != views(b@).len());
        return false;
    }
    let mut i: usize = 0;
    while i < a.len()
        invariant
            i <= a@.len(),
            a@.len() == b@.len(),
            forall|j: int| 0 <= j < i ==> views(a@)[j] == views(b@)[j],
        decreases a@.len() - i,
    {
        assert(views(a@)[i as int] == a@[i as int]@ && views(b@)[i as int] == b@[i as int]@);
        if a[i].offset != b[i].offset || a[i].length != b[i].length || !a[i].kind.same(&b[i].kind) {
            assert(views(a@)[i as int] != views(b@)[i as int]);
            return false;
        }
        i = i + 1;
    }
    assert(views(a@) =~= views(b@));
    true
}

/// Tells whether two lists of trees are equal.
fn unchanged(a: &Vec<ExtentChild>, b: &Vec<ExtentChild>) -> (r: bool)
    ensures
        r == (views(a@) == views(b@)),
{
    if a.len() != b.len() {
        assert(views(a@).len() != views(b@).len());
        return false;
    }
    let mut i: usize = 0;
    while i < a.len()
        invariant
            i <= a@.len(),
            a@.len() == b@.len(),
            forall|j: int| 0 <= j < i ==> views(a@)[j] == views(b@)[j],
        decreases a@.len() - i,
    {
        assert(views(a@)[i as int] == a@[i as int]@ && views(b@)[i as int] == b@[i as int]@);
        if a[i].first_offset != b[i].first_offset || a[i].end_offset != b[i].end_offset
            || !a[i].page.same(&b[i].page) {
            assert(views(a@)[i as int] != views(b@)[i as int]);
            return false;
        }
        i = i + 1;
    }
    assert(views(a@) =~= views(b@));
    true
}

/// The greater of two offsets.
pub open spec fn later(a: u64, b: u64) -> int {
    if a >= b {
        a as int
    } else {
        b as int
    }
}

/// Whether trees say of a range what a page said of it once patches are laid over.
spec fn rewritten(
    before: Objects,
    after: Objects,
    limits: DecodeLimits,
    page: ObjectId,
    first: u64,
    original_end: u64,
    list: Seq<ExtentChildView>,
    upto: int,
    patches: Seq<PatchView>,
) -> bool {
    forall|file: Bytes| #[trigger]
        told(before, limits, page@, first, original_end, file) ==> list_told(
            after,
            limits,
            list,
            first as int,
            upto,
            overlaid_file(patches, file),
        )
}

/// Whether patches decide every byte of a range.
pub open spec fn patches_decide(patches: Seq<PatchView>, from: u64, to: u64) -> bool {
    forall|x: int| from <= x < to ==> #[trigger] patched_at(patches, x) is Some
}

impl Rewrite {
    /// Rewrites one leaf.
    fn rewrite_leaf<S: ObjectStore>(
        &mut self,
        store: &mut S,
        page: ObjectId,
        extents: &Vec<Extent>,
        first: u64,
        original_end: u64,
        output_end: u64,
    ) -> (r: Result<Vec<ExtentChild>, ExtentMutationError>)
        requires
            old(self).sound(),
            first < output_end,
            page.kind == ObjectKind::ExtentPage,
            (old(store).contents())(page@) is Some,
            extent_decoded((old(store).contents())(page@)->0, old(self).limits) == Ok::<
                ExtentPageView,
                DecodeErrorView,
            >(PageView::Leaf(views(extents@))),
            patches_decide(views(old(self).patches@), original_end, output_end),
        ensures
            logged(old(store).puts(), final(store).puts()),
            forall|terms: RewriteTerms|
                old(self).under(terms, final(store).puts()) ==> #[trigger] leaf_rewritten(
                    terms,
                    old(self).state(*old(store)),
                    page@,
                    views(extents@),
                    first,
                    original_end,
                    output_end,
                ) == (list_outcome(r), final(self).state(*final(store))),
            final(self).stays(*old(self)),
            extends(old(store).contents(), final(store).contents()),
            match r {
                Ok(list) => final(self).settled(*old(self)) && rewritten(
                    old(store).contents(),
                    final(store).contents(),
                    old(self).limits,
                    page,
                    first,
                    original_end,
                    views(list@),
                    output_end as int,
                    views(old(self).patches@),
                ),
                Err(error) => tree_failure(error) && (tree_told(
                    old(store).contents(),
                    old(self).limits,
                    page@,
                    first,
                    original_end,
                ) ==> bounded_failure(error)),
            },
    {
        proof {
            reveal(leaf_rewritten);
        }
        let ghost all = views(extents@);
        let ghost limits = self.limits;
        let ghost before = store.contents();
        let ghost patches = views(self.patches@);
        let ghost begun = *self;
        let ghost begun_at = self.state(*store);
        let ghost puts = store.puts();
        assert(puts.take(puts.len() as int) =~= puts);
        proof {
            if tree_told(before, limits, page@, first, original_end) {
                let file = choose|file: Bytes| #[trigger]
                    told(before, limits, page@, first, original_end, file);
                let height = choose|height: nat| #[trigger]
                    tells(before, limits, page@, first, original_end, height, file);
                assert(extents_within(all, first, original_end));
            }
        }
        if !validate_extent_bounds(extents, first, original_end) {
            return Err(ExtentMutationError::ChildBoundsMismatch);
        }
        let (from, to, comparisons) = overlapping_patch_range(&self.patches, first, output_end);
        let piece = vstd::slice::slice_subrange(self.patches.as_slice(), from, to);
        let overlapping = vstd::slice::slice_to_vec(piece);
        let ghost part = patches.subrange(from as int, to as int);
        proof {
            assert(views(overlapping@) =~= part);
            lemma_patches_part(patches, from as int, to as int, first, output_end, first as int);
        }
        if let Err(error) = self.spend_items(comparisons, Ghost(place_of(*store))) {
            return Err(error);
        }
        let (rewritten_extents, examined) = rewrite_extents(
            extents,
            original_end,
            output_end,
            &overlapping,
        );
        if let Err(error) = self.spend_items(examined, Ghost(place_of(*store))) {
            return Err(error);
        }
        let ghost new = views(rewritten_extents@);
        proof {
            assert(new.len() > 0 && new[0].offset == first && extent_end_of(new.last())
                == output_end);
            assert forall|file: Bytes| #[trigger]
                told(before, limits, page@, first, original_end, file) implies extents_tell(
                new,
                first as int,
                output_end as int,
                overlaid_file(patches, file),
            ) by {
                let height = choose|height: nat| #[trigger]
                    tells(before, limits, page@, first, original_end, height, file);
                assert(extents_tell(all, first as int, original_end as int, file));
                assert forall|x: int| first <= x < output_end implies #[trigger] byte_at(new, x)
                    == Some(overlaid_file(patches, file)(x)) by {
                    lemma_patches_part(
                        patches,
                        from as int,
                        to as int,
                        first,
                        output_end,
                        x,
                    );
                    if x >= original_end {
                        assert(patched_at(patches, x) is Some);
                    } else {
                        assert(byte_at(all, x) == Some(file(x)));
                    }
                }
            }
        }
        if same_extents(&rewritten_extents, extents) {
            let mut list: Vec<ExtentChild> = Vec::new();
            let child = ExtentChild { first_offset: first, end_offset: original_end, page };
            list.push(child);
            proof {
                assert(views(list@) =~= seq![child@]);
                assert(rewritten_extents@.len() == extents@.len());
                assert forall|file: Bytes| #[trigger]
                    told(before, limits, page@, first, original_end, file) implies list_told(
                    before,
                    limits,
                    views(list@),
                    first as int,
                    output_end as int,
                    overlaid_file(patches, file),
                ) by {
                    assert(tells(
                        before,
                        limits,
                        page@,
                        first,
                        original_end,
                        1,
                        overlaid_file(patches, file),
                    ));
                    lemma_list_one(before, limits, child@, overlaid_file(patches, file));
                }
            }
            return Ok(list);
        }
        let ghost spending = *self;
        let ghost spent_at = self.state(*store);
        let written = self.write_leaf_chunks(store, &rewritten_extents);
        let ghost outcome = list_outcome(written);
        assert forall|terms: RewriteTerms| begun.under(
            terms,
            store.puts(),
        ) implies #[trigger] leaf_rewritten(
            terms,
            begun_at,
            page@,
            all,
            first,
            original_end,
            output_end,
        ) == (outcome, self.state(*store)) by {
            assert(spending.under(terms, store.puts()));
            assert(leaves_written(terms, spent_at, new, 0, Seq::empty()) == (
                outcome,
                self.state(*store),
            ));
        }
        let list = match written {
            Ok(list) => list,
            Err(error) => {
                return Err(error);
            },
        };
        proof {
            assert forall|file: Bytes| #[trigger]
                told(before, limits, page@, first, original_end, file) implies list_told(
                store.contents(),
                limits,
                views(list@),
                first as int,
                output_end as int,
                overlaid_file(patches, file),
            ) by {
                assert(extents_tell(
                    new,
                    new[0].offset as int,
                    extent_end_of(new.last()),
                    overlaid_file(patches, file),
                ));
            }
        }
        Ok(list)
    }

    /// Rewrites a tree: what patches and the new end touch is written anew, the rest
    /// stays as it is.
    fn rewrite<S: ObjectStore>(
        &mut self,
        store: &mut S,
        page: ObjectId,
        first: u64,
        original_end: u64,
        output_end: u64,
        height: u16,
    ) -> (r: Result<Vec<ExtentChild>, ExtentMutationError>)
        requires
            old(self).sound(),
            page.kind == ObjectKind::ExtentPage,
            patches_decide(views(old(self).patches@), original_end, output_end),
        ensures
            final(self).goes_on(*old(self)),
            extends(old(store).contents(), final(store).contents()),
            logged(old(store).puts(), final(store).puts()),
            forall|terms: RewriteTerms|
                old(self).under(terms, final(store).puts()) ==> #[trigger] tree_rewritten(
                    terms,
                    old(self).state(*old(store)),
                    page@,
                    first,
                    original_end,
                    output_end,
                    height,
                ) == (list_outcome(r), final(self).state(*final(store))),
            match r {
                Ok(list) => final(self).settled(*old(self)) && rewritten(
                    old(store).contents(),
                    final(store).contents(),
                    old(self).limits,
                    page,
                    first,
                    original_end,
                    views(list@),
                    later(first, output_end),
                    views(old(self).patches@),
                ),
                Err(error) => tree_failure(error) && (tree_told(
                    old(store).contents(),
                    old(self).limits,
                    page@,
                    first,
                    original_end,
                ) ==> bounded_failure(error)),
            },
        decreases u16::MAX - height, 1int,
    {
        proof {
            reveal(tree_rewritten);
            reveal(children_rewritten);
        }
        let ghost begun = *self;
        let ghost begun_at = self.state(*store);
        let ghost puts = store.puts();
        assert(puts.take(puts.len() as int) =~= puts);
        if height > self.limits.maximum_page_height {
            return Err(ExtentMutationError::HeightExceeded);
        }
        if output_end <= first {
            let list: Vec<ExtentChild> = Vec::new();
            assert(views(list@) =~= Seq::<ExtentChildView>::empty());
            return Ok(list);
        }
        if self.seen_height < height {
            self.seen_height = height;
        }
        proof {
            lemma_visited_within(
                self.visited.model(),
                page@,
                self.allocations.live_bytes,
                self.work,
                self.budget,
            );
        }
        match self.visited.insert(page, &mut self.allocations, &mut self.work, self.budget) {
            Ok(visit) => {
                if !visit.inserted {
                    return Err(ExtentMutationError::CycleOrAlias);
                }
            },
            Err(error) => {
                return Err(map_allocation(error));
            },
        }
        let ghost visited_at = self.state(*store);
        let (decoded, held) = match self.read_page(store, page) {
            Ok(read) => read,
            Err(error) => {
                assert forall|terms: RewriteTerms| begun.under(
                    terms,
                    store.puts(),
                ) implies #[trigger] tree_rewritten(
                    terms,
                    begun_at,
                    page@,
                    first,
                    original_end,
                    output_end,
                    height,
                ) == (
                    Err::<Seq<ExtentChildView>, MutationErrorView>(error@),
                    self.state(*store),
                ) by {
                    assert(page_read(terms, visited_at, page@) == (
                        Err::<(ExtentPageView, u64), MutationErrorView>(error@),
                        self.state(*store),
                    ));
                }
                return Err(error);
            },
        };
        let ghost reading = *self;
        let ghost read_at = self.state(*store);
        let made = match &decoded {
            ExtentPage::Leaf(extents) => self.rewrite_leaf(
                store,
                page,
                extents,
                first,
                original_end,
                output_end,
            ),
            ExtentPage::Internal(children) => self.rewrite_children(
                store,
                page,
                children,
                first,
                original_end,
                output_end,
                height,
            ),
        };
        let ghost made_at = self.state(*store);
        let ghost outcome = list_outcome(made);
        let list = match made {
            Ok(list) => list,
            Err(error) => {
                assert forall|terms: RewriteTerms| begun.under(
                    terms,
                    store.puts(),
                ) implies #[trigger] tree_rewritten(
                    terms,
                    begun_at,
                    page@,
                    first,
                    original_end,
                    output_end,
                    height,
                ) == (
                    Err::<Seq<ExtentChildView>, MutationErrorView>(error@),
                    self.state(*store),
                ) by {
                    assert(reading.under(terms, store.puts()));
                    lemma_logged(puts, store.puts(), terms.puts);
                    assert(page_read(terms, visited_at, page@) == (
                        Ok::<(ExtentPageView, u64), MutationErrorView>((decoded@, held)),
                        read_at,
                    ));
                    match decoded {
                        ExtentPage::Leaf(extents) => {
                            assert(leaf_rewritten(
                                terms,
                                read_at,
                                page@,
                                views(extents@),
                                first,
                                original_end,
                                output_end,
                            ) == (outcome, made_at));
                        },
                        ExtentPage::Internal(children) => {
                            if extent_children_within(views(children@), first, original_end) {
                                assert(children_rewritten(
                                    terms,
                                    read_at,
                                    page@,
                                    views(children@),
                                    first,
                                    original_end,
                                    output_end,
                                    height,
                                    0,
                                    Seq::empty(),
                                ) == (outcome, made_at));
                            }
                        },
                    }
                }
                return Err(error);
            },
        };
        self.allocations.live_bytes = self.allocations.live_bytes - held;
        assert forall|terms: RewriteTerms| begun.under(
            terms,
            store.puts(),
        ) implies #[trigger] tree_rewritten(
            terms,
            begun_at,
            page@,
            first,
            original_end,
            output_end,
            height,
        ) == (Ok::<Seq<ExtentChildView>, MutationErrorView>(views(list@)), self.state(*store)) by {
            assert(reading.under(terms, store.puts()));
            lemma_logged(puts, store.puts(), terms.puts);
            assert(page_read(terms, visited_at, page@) == (
                Ok::<(ExtentPageView, u64), MutationErrorView>((decoded@, held)),
                read_at,
            ));
            match decoded {
                ExtentPage::Leaf(extents) => {
                    assert(leaf_rewritten(
                        terms,
                        read_at,
                        page@,
                        views(extents@),
                        first,
                        original_end,
                        output_end,
                    ) == (outcome, made_at));
                },
                ExtentPage::Internal(children) => {
                    if extent_children_within(views(children@), first, original_end) {
                        assert(children_rewritten(
                            terms,
                            read_at,
                            page@,
                            views(children@),
                            first,
                            original_end,
                            output_end,
                            height,
                            0,
                            Seq::empty(),
                        ) == (outcome, made_at));
                    }
                },
            }
            assert(self.state(*store) == (RewriteView { live: (made_at.live - held) as u64, ..made_at
            }));
        }
        Ok(list)
    }

    /// Rewrites one internal page.
    fn rewrite_children<S: ObjectStore>(
        &mut self,
        store: &mut S,
        page: ObjectId,
        children: &Vec<ExtentChild>,
        first: u64,
        original_end: u64,
        output_end: u64,
        height: u16,
    ) -> (r: Result<Vec<ExtentChild>, ExtentMutationError>)
        requires
            old(self).sound(),
            first < output_end,
            page.kind == ObjectKind::ExtentPage,
            (old(store).contents())(page@) is Some,
            extent_decoded((old(store).contents())(page@)->0, old(self).limits) == Ok::<
                ExtentPageView,
                DecodeErrorView,
            >(PageView::Internal(views(children@))),
            patches_decide(views(old(self).patches@), original_end, output_end),
        ensures
            final(self).goes_on(*old(self)),
            logged(old(store).puts(), final(store).puts()),
            !extent_children_within(views(children@), first, original_end) ==> r == Err::<
                Vec<ExtentChild>,
                ExtentMutationError,
            >(ExtentMutationError::ChildBoundsMismatch) && *final(self) == *old(self)
                && *final(store) == *old(store),
            extent_children_within(views(children@), first, original_end) ==> forall|
                terms: RewriteTerms,
            |
                old(self).under(terms, final(store).puts()) ==> #[trigger] children_rewritten(
                    terms,
                    old(self).state(*old(store)),
                    page@,
                    views(children@),
                    first,
                    original_end,
                    output_end,
                    height,
                    0,
                    Seq::empty(),
                ) == (list_outcome(r), final(self).state(*final(store))),
            extends(old(store).contents(), final(store).contents()),
            match r {
                Ok(list) => final(self).settled(*old(self)) && rewritten(
                    old(store).contents(),
                    final(store).contents(),
                    old(self).limits,
                    page,
                    first,
                    original_end,
                    views(list@),
                    output_end as int,
                    views(old(self).patches@),
                ),
                Err(error) => tree_failure(error) && (tree_told(
                    old(store).contents(),
                    old(self).limits,
                    page@,
                    first,
                    original_end,
                ) ==> bounded_failure(error)),
            },
        decreases u16::MAX - height, 0int,
    {
        proof {
            reveal(children_rewritten);
            reveal(page_joined);
        }
        let ghost all = views(children@);
        let ghost begun = *self;
        let ghost limits = self.limits;
        let ghost before = store.contents();
        let ghost begun_at = self.state(*store);
        let ghost puts = store.puts();
        assert(puts.take(puts.len() as int) =~= puts);
        let ghost sound = tree_told(before, limits, page@, first, original_end);
        let ghost known = choose|file: Bytes| #[trigger]
            told(before, limits, page@, first, original_end, file);
        proof {
            if sound {
                let height = choose|height: nat| #[trigger]
                    tells(before, limits, page@, first, original_end, height, known);
                assert(extent_children_within(all, first, original_end));
            }
        }
        if !validate_extent_child_bounds(children, first, original_end) {
            return Err(ExtentMutationError::ChildBoundsMismatch);
        }
        let ghost patches = views(self.patches@);
        let size: usize = children.len();
        let mut list: Vec<ExtentChild> = Vec::new();
        let mut i: usize = 0;
        let mut cut = false;
        proof {
            assert(views(list@) =~= Seq::<ExtentChildView>::empty());
            super::extent_tree::lemma_children_range(all, first, original_end);
        }
        while i < size && !cut
            invariant
                size == children@.len(),
                i <= size,
                size > 0,
                all == views(children@),
                extent_children_ordered(all),
                extent_children_within(all, first, original_end),
                first < output_end,
                before(page@) is Some,
                extent_decoded(before(page@)->0, limits) == Ok::<ExtentPageView, DecodeErrorView>(
                    PageView::Internal(all),
                ),
                begun == *old(self),
                limits == begun.limits,
                patches == views(begun.patches@),
                patches_decide(patches, original_end, output_end),
                runs_disjoint(patches),
                self.goes_on(begun),
                self.settled(begun),
                puts == old(store).puts(),
                logged(puts, store.puts()),
                begun_at == begun.state(*old(store)),
                forall|terms: RewriteTerms|
                    begun.under(terms, store.puts()) ==> #[trigger] children_rewritten(
                        terms,
                        begun_at,
                        page@,
                        all,
                        first,
                        original_end,
                        output_end,
                        height,
                        0,
                        Seq::empty(),
                    ) == (if cut {
                        page_joined(
                            terms,
                            self.state(*store),
                            page@,
                            all,
                            first,
                            original_end,
                            height,
                            views(list@),
                        )
                    } else {
                        children_rewritten(
                            terms,
                            self.state(*store),
                            page@,
                            all,
                            first,
                            original_end,
                            output_end,
                            height,
                            i as int,
                            views(list@),
                        )
                    }),
                before == old(store).contents(),
                extends(before, store.contents()),
                cut ==> i < size && all[i as int].first_offset >= output_end,
                sound == tree_told(before, limits, page@, first, original_end),
                sound ==> told(before, limits, page@, first, original_end, known),
                rewritten(
                    before,
                    store.contents(),
                    limits,
                    page,
                    first,
                    original_end,
                    views(list@),
                    child_start(all, i as int, output_end),
                    patches,
                ),
            decreases size - i + (if cut {
                0int
            } else {
                1int
            }),
        {
            proof {
                reveal(children_rewritten);
                reveal(tree_rewritten);
            }
            let child = children[i];
            assert(all[i as int] == child@);
            assert(extent_child_fits(all[i as int]));
            if child.first_offset >= output_end {
                if let Err(error) = self.charge_items(1, Ghost(place_of(*store))) {
                    return Err(error);
                }
                cut = true;
            } else {
                let mut child_end = if child.end_offset <= output_end {
                    child.end_offset
                } else {
                    output_end
                };
                if i + 1 == size && output_end > original_end {
                    child_end = output_end;
                }
                proof {
                    if i + 1 < size {
                        assert(super::extent::extent_child_adjoins(all, i + 1));
                    }
                }
                let (from, to, comparisons) = overlapping_patch_range(
                    &self.patches,
                    child.first_offset,
                    child_end,
                );
                let ghost top_puts = store.puts();
                let ghost top = self.state(*store);
                assert(top_puts.take(top_puts.len() as int) =~= top_puts);
                if let Err(error) = self.charge_items(
                    comparisons.saturating_add(1),
                    Ghost(place_of(*store)),
                ) {
                    return Err(error);
                }
                let ghost held = store.contents();
                let ghost shorter = views(list@);
                let ghost counted = self.state(*store);
                let ghost looked = (patches_between(patches, child.first_offset, child_end).2 + 1)
                    as u64;
                assert(child_end == child_output(
                    child@,
                    i + 1 == all.len(),
                    original_end,
                    output_end,
                ));
                assert forall|terms: RewriteTerms|
                    terms.budget == begun.budget implies #[trigger] items_counted(
                    terms,
                    top,
                    looked,
                ) == (Ok::<(), MutationErrorView>(()), counted) by {}
                let mut made: Vec<ExtentChild>;
                if child_end != child.end_offset || from < to {
                    if height == u16::MAX {
                        return Err(ExtentMutationError::HeightExceeded);
                    }
                    proof {
                        if sound {
                            lemma_children_told(
                                before,
                                limits,
                                page@,
                                first,
                                original_end,
                                all,
                                known,
                                i as int,
                            );
                            lemma_told_grows(
                                before,
                                held,
                                limits,
                                child.page@,
                                child.first_offset,
                                child.end_offset,
                                known,
                            );
                            assert(tree_told(
                                held,
                                limits,
                                child.page@,
                                child.first_offset,
                                child.end_offset,
                            ));
                        }
                    }
                    made =
                    match self.rewrite(
                        store,
                        child.page,
                        child.first_offset,
                        child.end_offset,
                        child_end,
                        height + 1,
                    ) {
                        Ok(made) => made,
                        Err(error) => {
                            proof {
                                lemma_logged(puts, top_puts, store.puts());
                                assert forall|terms: RewriteTerms| begun.under(
                                    terms,
                                    store.puts(),
                                ) implies #[trigger] children_rewritten(
                                    terms,
                                    begun_at,
                                    page@,
                                    all,
                                    first,
                                    original_end,
                                    output_end,
                                    height,
                                    0,
                                    Seq::empty(),
                                ) == (
                                    Err::<Seq<ExtentChildView>, MutationErrorView>(error@),
                                    self.state(*store),
                                ) by {
                                    lemma_logged(top_puts, store.puts(), terms.puts);
                                    assert(items_counted(terms, top, looked) == (
                                        Ok::<(), MutationErrorView>(()),
                                        counted,
                                    ));
                                    assert(tree_rewritten(
                                        terms,
                                        counted,
                                        child.page@,
                                        child.first_offset,
                                        child.end_offset,
                                        child_end,
                                        (height + 1) as u16,
                                    ) == (
                                        Err::<Seq<ExtentChildView>, MutationErrorView>(error@),
                                        self.state(*store),
                                    ));
                                    assert(children_rewritten(
                                        terms,
                                        begun_at,
                                        page@,
                                        all,
                                        first,
                                        original_end,
                                        output_end,
                                        height,
                                        0,
                                        Seq::empty(),
                                    ) == children_rewritten(
                                        terms,
                                        top,
                                        page@,
                                        all,
                                        first,
                                        original_end,
                                        output_end,
                                        height,
                                        i as int,
                                        views(list@),
                                    ));
                                }
                            }
                            return Err(error);
                        },
                    };
                    proof {
                        lemma_logged(puts, top_puts, store.puts());
                        assert forall|file: Bytes| #[trigger]
                            told(before, limits, page@, first, original_end, file) implies list_told(
                            store.contents(),
                            limits,
                            views(made@),
                            child.first_offset as int,
                            child_end as int,
                            overlaid_file(patches, file),
                        ) by {
                            lemma_children_told(
                                before,
                                limits,
                                page@,
                                first,
                                original_end,
                                all,
                                file,
                                i as int,
                            );
                            lemma_told_grows(
                                before,
                                held,
                                limits,
                                child.page@,
                                child.first_offset,
                                child.end_offset,
                                file,
                            );
                            assert(told(
                                held,
                                limits,
                                child.page@,
                                child.first_offset,
                                child.end_offset,
                                file,
                            ));
                        }
                    }
                } else {
                    made = Vec::new();
                    made.push(child);
                    proof {
                        assert(views(made@) =~= seq![child@]);
                        assert forall|file: Bytes| #[trigger]
                            told(before, limits, page@, first, original_end, file) implies list_told(
                            store.contents(),
                            limits,
                            views(made@),
                            child.first_offset as int,
                            child_end as int,
                            overlaid_file(patches, file),
                        ) by {
                            lemma_children_told(
                                before,
                                limits,
                                page@,
                                first,
                                original_end,
                                all,
                                file,
                                i as int,
                            );
                            lemma_told_grows(
                                before,
                                held,
                                limits,
                                child.page@,
                                child.first_offset,
                                child.end_offset,
                                file,
                            );
                            lemma_untouched(
                                patches,
                                child.first_offset,
                                child.end_offset,
                                file,
                            );
                            lemma_told_same(
                                held,
                                limits,
                                child.page@,
                                child.first_offset,
                                child.end_offset,
                                file,
                                overlaid_file(patches, file),
                            );
                            lemma_list_one(held, limits, child@, overlaid_file(patches, file));
                        }
                    }
                }
                append(&mut list, &made);
                proof {
                    assert forall|terms: RewriteTerms| begun.under(
                        terms,
                        store.puts(),
                    ) implies #[trigger] children_rewritten(
                        terms,
                        begun_at,
                        page@,
                        all,
                        first,
                        original_end,
                        output_end,
                        height,
                        0,
                        Seq::empty(),
                    ) == children_rewritten(
                        terms,
                        self.state(*store),
                        page@,
                        all,
                        first,
                        original_end,
                        output_end,
                        height,
                        i + 1,
                        views(list@),
                    ) by {
                        lemma_logged(top_puts, store.puts(), terms.puts);
                        assert(items_counted(terms, top, looked) == (
                            Ok::<(), MutationErrorView>(()),
                            counted,
                        ));
                        if child_end != child.end_offset || from < to {
                            assert(tree_rewritten(
                                terms,
                                counted,
                                child.page@,
                                child.first_offset,
                                child.end_offset,
                                child_end,
                                (height + 1) as u16,
                            ) == (
                                Ok::<Seq<ExtentChildView>, MutationErrorView>(views(made@)),
                                self.state(*store),
                            ));
                        }
                        assert(children_rewritten(
                            terms,
                            begun_at,
                            page@,
                            all,
                            first,
                            original_end,
                            output_end,
                            height,
                            0,
                            Seq::empty(),
                        ) == children_rewritten(
                            terms,
                            top,
                            page@,
                            all,
                            first,
                            original_end,
                            output_end,
                            height,
                            i as int,
                            shorter,
                        ));
                    }
                    let after = store.contents();
                    assert forall|file: Bytes| #[trigger]
                        told(before, limits, page@, first, original_end, file) implies list_told(
                        after,
                        limits,
                        views(list@),
                        first as int,
                        child_start(all, i + 1, output_end),
                        overlaid_file(patches, file),
                    ) by {
                        lemma_list_grows(
                            held,
                            after,
                            limits,
                            shorter,
                            first as int,
                            child.first_offset as int,
                            overlaid_file(patches, file),
                        );
                        lemma_list_joins(
                            after,
                            limits,
                            shorter,
                            views(made@),
                            first as int,
                            child.first_offset as int,
                            child_end as int,
                            overlaid_file(patches, file),
                        );
                    }
                }
                i = i + 1;
            }
        }
        assert(child_start(all, i as int, output_end) == output_end);
        if list.len() == 0 {
            return Ok(list);
        }
        if unchanged(&list, children) {
            let child = ExtentChild { first_offset: first, end_offset: original_end, page };
            let mut same: Vec<ExtentChild> = Vec::new();
            same.push(child);
            proof {
                let after = store.contents();
                assert(views(same@) =~= seq![child@]);
                assert(extent_child_fits(all[0]));
                assert(after(page@) == before(page@));
                assert forall|file: Bytes| #[trigger]
                    told(before, limits, page@, first, original_end, file) implies list_told(
                    after,
                    limits,
                    views(same@),
                    first as int,
                    output_end as int,
                    overlaid_file(patches, file),
                ) by {
                    lemma_internal_told(
                        after,
                        limits,
                        page@,
                        first,
                        original_end,
                        all,
                        overlaid_file(patches, file),
                    );
                    lemma_list_one(after, limits, child@, overlaid_file(patches, file));
                }
            }
            return Ok(same);
        }
        if height == 1 && list.len() == 1 {
            return Ok(list);
        }
        let ghost held = store.contents();
        let ghost top_puts = store.puts();
        let written = match self.write_internal_chunks(store, &list) {
            Ok(written) => written,
            Err(error) => {
                proof {
                    lemma_logged(puts, top_puts, store.puts());
                    assert forall|terms: RewriteTerms| begun.under(
                        terms,
                        store.puts(),
                    ) implies #[trigger] children_rewritten(
                        terms,
                        begun_at,
                        page@,
                        all,
                        first,
                        original_end,
                        output_end,
                        height,
                        0,
                        Seq::empty(),
                    ) == (
                        Err::<Seq<ExtentChildView>, MutationErrorView>(error@),
                        self.state(*store),
                    ) by {
                        lemma_logged(top_puts, store.puts(), terms.puts);
                    }
                }
                return Err(error);
            },
        };
        proof {
            lemma_logged(puts, top_puts, store.puts());
            assert forall|terms: RewriteTerms| begun.under(
                terms,
                store.puts(),
            ) implies #[trigger] children_rewritten(
                terms,
                begun_at,
                page@,
                all,
                first,
                original_end,
                output_end,
                height,
                0,
                Seq::empty(),
            ) == (Ok::<Seq<ExtentChildView>, MutationErrorView>(views(written@)), self.state(*store))
                by {
                lemma_logged(top_puts, store.puts(), terms.puts);
            }
            assert forall|file: Bytes| #[trigger]
                told(before, limits, page@, first, original_end, file) implies list_told(
                store.contents(),
                limits,
                views(written@),
                first as int,
                output_end as int,
                overlaid_file(patches, file),
            ) by {
                assert(list_told(
                    held,
                    limits,
                    views(list@),
                    first as int,
                    output_end as int,
                    overlaid_file(patches, file),
                ));
            }
        }
        Ok(written)
    }
}

/// Where the child at an index begins, or the end, cut at the new end.
spec fn child_start(children: Seq<ExtentChildView>, at: int, output_end: u64) -> int {
    if at < children.len() && children[at].first_offset <= output_end {
        children[at].first_offset as int
    } else {
        output_end as int
    }
}

/// Patches that have no byte of a range leave it as it is.
proof fn lemma_untouched(patches: Seq<PatchView>, first: u64, end: u64, file: Bytes)
    requires
        forall|i: int|
            0 <= i < patches.len() ==> !patch_overlaps(#[trigger] patches[i], first, end),
    ensures
        forall|x: int| first <= x < end ==> #[trigger] overlaid_file(patches, file)(x) == file(x),
{
    assert forall|x: int| first <= x < end implies #[trigger] overlaid_file(patches, file)(x)
        == file(x) by {
        assert forall|j: int| 0 <= j < patches.len() implies !covers(#[trigger] patches[j], x) by {
            assert(!patch_overlaps(patches[j], first, end));
        }
        super::extent_patch::lemma_run_none(patches, x, patches.len());
    }
}

/// Adds trees behind others.
fn append(list: &mut Vec<ExtentChild>, more: &Vec<ExtentChild>)
    ensures
        views(final(list)@) == views(old(list)@) + views(more@),
{
    let ghost start = list@;
    list.extend_from_slice(more.as_slice());
    assert(views(list@) =~= views(start) + views(more@));
}

impl Rewrite {
    /// Makes pages over a list of trees until one is left.
    fn finish_root<S: ObjectStore>(&mut self, store: &mut S, summaries: Vec<ExtentChild>) -> (r: Result<
        ObjectId,
        ExtentMutationError,
    >)
        requires
            old(self).sound(),
        ensures
            final(self).goes_on(*old(self)),
            extends(old(store).contents(), final(store).contents()),
            logged(old(store).puts(), final(store).puts()),
            forall|terms: RewriteTerms|
                old(self).under(terms, final(store).puts()) ==> #[trigger] root_made(
                    terms,
                    old(self).state(*old(store)),
                    views(summaries@),
                    old(self).seen_height,
                ) == (id_outcome(r), final(self).state(*final(store))),
            r is Ok && within(old(self).work, old(self).budget) ==> within(
                final(self).work,
                old(self).budget,
            ),
            match r {
                Ok(root) => forall|end: u64, file: Bytes| #[trigger]
                    list_told(
                        old(store).contents(),
                        old(self).limits,
                        views(summaries@),
                        0,
                        end as int,
                        file,
                    ) ==> root.kind == ObjectKind::ExtentPage && told(
                        final(store).contents(),
                        old(self).limits,
                        root@,
                        0,
                        end,
                        file,
                    ),
                Err(error) => bounded_failure(error),
            },
    {
        proof {
            reveal(root_made);
        }
        let ghost before = store.contents();
        let ghost limits = self.limits;
        let ghost given = views(summaries@);
        let ghost begun = *self;
        let ghost begun_at = self.state(*store);
        let ghost puts = store.puts();
        assert(puts.take(puts.len() as int) =~= puts);
        if summaries.len() == 0 {
            let none: Vec<Extent> = Vec::new();
            assert(views(none@) =~= Seq::<ExtentView>::empty());
            let page = ExtentPage::Leaf(none);
            assert(page@ == PageView::<ExtentView, ExtentChildView>::Leaf(Seq::empty()));
            assert(given =~= Seq::<ExtentChildView>::empty());
            let root = match self.write_page(store, &page) {
                Ok(root) => root,
                Err(error) => {
                    return Err(error);
                },
            };
            proof {
                let after = store.contents();
                assert forall|end: u64, file: Bytes| #[trigger]
                    list_told(before, limits, given, 0, end as int, file) implies told(
                    after,
                    limits,
                    root@,
                    0,
                    end,
                    file,
                ) by {
                    assert(tells(after, limits, root@, 0, end, 1, file));
                }
            }
            return Ok(root);
        }
        let mut list = summaries;
        let mut height = self.seen_height;
        while list.len() > 1
            invariant
                begun == *old(self),
                self.stays(begun),
                within(begun.work, begun.budget) ==> within(self.work, begun.budget),
                self.seen_height == begun.seen_height,
                puts == old(store).puts(),
                logged(puts, store.puts()),
                begun_at == begun.state(*old(store)),
                forall|terms: RewriteTerms|
                    begun.under(terms, store.puts()) ==> #[trigger] root_made(
                        terms,
                        begun_at,
                        given,
                        begun.seen_height,
                    ) == root_made(terms, self.state(*store), views(list@), height),
                limits == old(self).limits,
                before == old(store).contents(),
                given == views(summaries@),
                extends(before, store.contents()),
                list@.len() > 0,
                forall|end: u64, file: Bytes| #[trigger]
                    list_told(before, limits, given, 0, end as int, file) ==> list_told(
                        store.contents(),
                        limits,
                        views(list@),
                        0,
                        end as int,
                        file,
                    ),
            decreases list@.len(),
        {
            proof {
                reveal(root_made);
            }
            if height == u16::MAX || height + 1 > self.limits.maximum_page_height {
                return Err(ExtentMutationError::HeightExceeded);
            }
            height = height + 1;
            let ghost held = store.contents();
            let ghost wide = views(list@);
            let ghost top_puts = store.puts();
            let made = match self.write_internal_chunks(store, &list) {
                Ok(made) => made,
                Err(error) => {
                    proof {
                        lemma_logged(puts, top_puts, store.puts());
                        assert forall|terms: RewriteTerms| begun.under(
                            terms,
                            store.puts(),
                        ) implies #[trigger] root_made(terms, begun_at, given, begun.seen_height)
                            == (Err::<ObjectView, MutationErrorView>(error@), self.state(*store))
                            by {
                            lemma_logged(top_puts, store.puts(), terms.puts);
                        }
                    }
                    return Err(error);
                },
            };
            proof {
                lemma_logged(puts, top_puts, store.puts());
                assert forall|terms: RewriteTerms| begun.under(
                    terms,
                    store.puts(),
                ) implies #[trigger] root_made(terms, begun_at, given, begun.seen_height)
                    == root_made(terms, self.state(*store), views(made@), height) by {
                    lemma_logged(top_puts, store.puts(), terms.puts);
                }
                assert forall|end: u64, file: Bytes| #[trigger]
                    list_told(before, limits, given, 0, end as int, file) implies list_told(
                    store.contents(),
                    limits,
                    views(made@),
                    0,
                    end as int,
                    file,
                ) by {
                    assert(list_told(held, limits, wide, 0, end as int, file));
                }
            }
            list = made;
        }
        let root = list[0].page;
        proof {
            let last = views(list@);
            assert forall|end: u64, file: Bytes| #[trigger]
                list_told(before, limits, given, 0, end as int, file) implies root.kind
                == ObjectKind::ExtentPage && told(
                store.contents(),
                limits,
                root@,
                0,
                end,
                file,
            ) by {
                assert(list_told(store.contents(), limits, last, 0, end as int, file));
                assert(extent_child_of(last, 0) == list@[0]@);
                assert(extent_child_fits(last[0]));
            }
        }
        Ok(root)
    }
}

/// The bytes of a file after a batch of mutations.
pub open spec fn replayed(old_size: u64, mutations: Seq<ExtentMutationView>, file: Bytes) -> Bytes {
    |x: int| replay_byte(file, old_size, mutations, mutations.len(), x)
}

/// How a batch of mutations ends: the new root and the work, or why there is none and the
/// work then.
pub type MutationEnd = Result<(ObjectView, WorkCounters), (MutationErrorView, WorkCounters)>;

/// A rewrite under a compiled plan before any page is read, or why there is none.
pub open spec fn rewrite_begun(
    plan: CompiledPatchPlan,
    limits: DecodeLimits,
    budget: WorkBudget,
    at: nat,
    answers: Answers,
) -> Result<RewriteView, (MutationErrorView, WorkCounters)> {
    match claimed(0, plan.live_allocation_bytes, 0, plan.work, budget) {
        Err(error) => Err((allocation_cause(error), plan.work)),
        Ok(work) => match visited_begun(
            limits.maximum_visited_pages as nat,
            plan.live_allocation_bytes,
            work,
            budget,
        ) {
            Err(error) => Err((allocation_cause(error), work)),
            Ok((visited, live, work)) => Ok(
                RewriteView { work, live, visited, seen: 0, at, answers, kept: true },
            ),
        },
    }
}

/// Whether a batch ends as rewriting the tree under a compiled plan does: over what the
/// store answered, what it was handed and what it replied, put by put.
pub open spec fn plan_ends<S: ObjectStore>(
    before: S,
    after: S,
    root: ObjectView,
    old_logical_bytes: u64,
    limits: DecodeLimits,
    budget: WorkBudget,
    plan: CompiledPatchPlan,
    end: MutationEnd,
) -> bool {
    match rewrite_begun(plan, limits, budget, before.puts().len(), answering(before)) {
        Err(failing) => end == Err::<(ObjectView, WorkCounters), _>(failing) && after == before,
        Ok(begun) => {
            let terms = RewriteTerms {
                limits,
                budget,
                patches: views(plan.patches@),
                puts: after.puts(),
            };
            let (outcome, done) = file_rewritten(
                terms,
                begun,
                root,
                old_logical_bytes,
                plan.final_size,
            );
            &&& done.kept
            &&& done.at == after.puts().len()
            &&& done.answers == answering(after)
            &&& end == match outcome {
                Ok(made) => Ok((made, done.work)),
                Err(error) => Err((error, done.work)),
            }
        },
    }
}

/// Whether a plan is one that a batch is compiled to within a budget.
pub open spec fn plan_compiled(
    plan: CompiledPatchPlan,
    old_logical_bytes: u64,
    mutations: Seq<ExtentMutationView>,
    budget: WorkBudget,
) -> bool {
    &&& plan_stands(plan, old_logical_bytes, mutations)
    &&& within(plan.work, budget)
    &&& compile_work(
        mutations.len() as int,
        raw_count(old_logical_bytes, mutations, mutations.len()),
        plan.work,
    )
    &&& 64 * plan.patches@.len() <= plan.live_allocation_bytes <= 128 * raw_count(
        old_logical_bytes,
        mutations,
        mutations.len(),
    )
}

/// How a batch of mutations ends.
///
/// A request that does not fit the bounds, and a batch that does not fit the file or the
/// budget, leave the store as it is. What is compiled is rewritten.
pub open spec fn mutation_ends<S: ObjectStore>(
    before: S,
    after: S,
    root: ObjectId,
    old_logical_bytes: u64,
    mutations: Seq<ExtentMutationView>,
    maximum_mutations: u32,
    limits: DecodeLimits,
    budget: WorkBudget,
    end: MutationEnd,
) -> bool {
    match mutation_request_refused(root, mutations.len(), maximum_mutations, limits) {
        Some(error) => end == Err::<(ObjectView, WorkCounters), _>((error@, no_work())) && after
            == before,
        None => match compile_refused(old_logical_bytes, mutations, budget) {
            Some(refused) => end == Err::<(ObjectView, WorkCounters), _>((refused.0@, refused.1))
                && after == before,
            None => {
                ||| exists|plan: CompiledPatchPlan|
                    plan_compiled(plan, old_logical_bytes, mutations, budget)
                        && #[trigger] plan_ends(
                        before,
                        after,
                        root@,
                        old_logical_bytes,
                        limits,
                        budget,
                        plan,
                        end,
                    )
                ||| (end matches Err(failing) && failing.0 is Work) && after == before
                    && !compile_roomy(
                    mutations.len() as int,
                    raw_count(old_logical_bytes, mutations, mutations.len()),
                    budget,
                )
            },
        },
    }
}

/// The end of a batch, as a receipt or a failure.
pub open spec fn mutation_end(r: Result<ExtentMutationReceipt, ExtentMutationFailure>) -> MutationEnd {
    match r {
        Ok(receipt) => Ok((receipt.root@, receipt.work)),
        Err(failure) => Err((failure.error@, failure.work)),
    }
}

/// Applies ordered extent mutations by rewriting only what they touch.
///
/// A request that does not fit the bounds or the file is refused before any object
/// is read. The tree that results says of every byte what replaying the mutations
/// one after another makes of it, provided the tree it came from said what the
/// file was. Everything that the store held stays.
pub fn apply_extent_mutations<S: ObjectStore>(
    store: &mut S,
    root: ObjectId,
    old_logical_bytes: u64,
    mutations: &Vec<ExtentMutation>,
    maximum_mutations: u32,
    limits: DecodeLimits,
    budget: WorkBudget,
) -> (r: Result<ExtentMutationReceipt, ExtentMutationFailure>)
    ensures
        extends(old(store).contents(), final(store).contents()),
        logged(old(store).puts(), final(store).puts()),
        mutation_ends(
            *old(store),
            *final(store),
            root,
            old_logical_bytes,
            views(mutations@),
            maximum_mutations,
            limits,
            budget,
            mutation_end(r),
        ),
        r matches Ok(receipt) ==> {
            &&& within(receipt.work, budget)
            &&& receipt.logical_bytes == replay_size(
                old_logical_bytes,
                views(mutations@),
                mutations@.len(),
            )
            &&& forall|file: Bytes| #[trigger]
                told(old(store).contents(), limits, root@, 0, old_logical_bytes, file)
                    ==> receipt.root.kind == ObjectKind::ExtentPage && told(
                    final(store).contents(),
                    limits,
                    receipt.root@,
                    0,
                    receipt.logical_bytes,
                    replayed(old_logical_bytes, views(mutations@), file),
                )
        },
        mutation_request_refused(root, mutations@.len(), maximum_mutations, limits) is None
            && compile_refused(old_logical_bytes, views(mutations@), budget) is None && tree_told(
            old(store).contents(),
            limits,
            root@,
            0,
            old_logical_bytes,
        ) ==> (r matches Err(failure) ==> bounded_failure(failure.error)),
{
    let ghost puts = store.puts();
    assert(puts.take(puts.len() as int) =~= puts);
    if let Err(failure) = validate_request(root, mutations, maximum_mutations, limits) {
        return Err(failure);
    }
    let plan = match compile_patch_plan(old_logical_bytes, mutations, budget) {
        Ok(plan) => plan,
        Err(failure) => {
            return Err(failure);
        },
    };
    let ghost before = store.contents();
    let ghost batch = views(mutations@);
    let ghost patches = views(plan.patches@);
    let ghost compiled = plan;
    proof {
        assert(plan_compiled(compiled, old_logical_bytes, batch, budget));
    }
    let final_size = plan.final_size;
    let mut allocations = AllocationLedger::default();
    let mut work = plan.work;
    if let Err(error) = allocations.claim_bytes(
        plan.live_allocation_bytes,
        0,
        &mut work,
        budget,
    ) {
        assert(plan_ends(
            *old(store),
            *store,
            root@,
            old_logical_bytes,
            limits,
            budget,
            compiled,
            Err((allocation_cause(error), work)),
        ));
        return Err(OperationFailure::new(map_allocation(error), work));
    }
    let visited = match VisitedObjectSet::new(
        limits.maximum_visited_pages as usize,
        &mut allocations,
        &mut work,
        budget,
    ) {
        Ok(visited) => visited,
        Err(error) => {
            assert(plan_ends(
                *old(store),
                *store,
                root@,
                old_logical_bytes,
                limits,
                budget,
                compiled,
                Err((allocation_cause(error), work)),
            ));
            return Err(OperationFailure::new(map_allocation(error), work));
        },
    };
    let mut rewrite = Rewrite {
        limits,
        budget,
        work,
        allocations,
        visited,
        patches: plan.patches,
        seen_height: 0,
    };
    proof {
        let none: Bytes = |x: int| ByteView::Hole;
        assert forall|x: int| old_logical_bytes <= x < final_size implies #[trigger] patched_at(
            patches,
            x,
        ) is Some by {
            assert(match patched_at(patches, x) {
                Some(byte) => replay_byte(none, old_logical_bytes, batch, batch.len(), x) == byte,
                None => x < old_logical_bytes && replay_byte(
                    none,
                    old_logical_bytes,
                    batch,
                    batch.len(),
                    x,
                ) == none(x),
            });
        }
    }
    let ghost begun = rewrite;
    assert(rewrite_begun(compiled, limits, budget, puts.len(), answering(*old(store))) == Ok::<
        RewriteView,
        (MutationErrorView, WorkCounters),
    >(begun.state(*old(store))));
    let summaries = match rewrite.rewrite(store, root, 0, old_logical_bytes, final_size, 1) {
        Ok(summaries) => summaries,
        Err(error) => {
            proof {
                let terms = RewriteTerms { limits, budget, patches, puts: store.puts() };
                assert(store.puts().take(store.puts().len() as int) =~= store.puts());
                assert(begun.under(terms, store.puts()));
                assert(plan_ends(
                    *old(store),
                    *store,
                    root@,
                    old_logical_bytes,
                    limits,
                    budget,
                    compiled,
                    Err((error@, rewrite.work)),
                ));
            }
            return Err(OperationFailure::new(error, rewrite.work));
        },
    };
    let ghost cut_puts = store.puts();
    let ghost cut = rewrite;
    let ghost held = store.contents();
    let ghost list = views(summaries@);
    let finished = rewrite.finish_root(store, summaries);
    proof {
        let terms = RewriteTerms { limits, budget, patches, puts: store.puts() };
        lemma_logged(puts, cut_puts, store.puts());
        assert(store.puts().take(store.puts().len() as int) =~= store.puts());
        assert(begun.under(terms, cut_puts));
        assert(cut.under(terms, store.puts()));
        assert(plan_ends(
            *old(store),
            *store,
            root@,
            old_logical_bytes,
            limits,
            budget,
            compiled,
            match finished {
                Ok(made) => Ok((made@, rewrite.work)),
                Err(error) => Err((error@, rewrite.work)),
            },
        ));
    }
    let new_root = match finished {
        Ok(new_root) => new_root,
        Err(error) => {
            return Err(OperationFailure::new(error, rewrite.work));
        },
    };
    proof {
        let after = store.contents();
        assert forall|file: Bytes| #[trigger]
            told(before, limits, root@, 0, old_logical_bytes, file) implies new_root.kind
            == ObjectKind::ExtentPage && told(
            after,
            limits,
            new_root@,
            0,
            final_size,
            replayed(old_logical_bytes, batch, file),
        ) by {
            let laid = overlaid_file(patches, file);
            assert(list_told(held, limits, list, 0, final_size as int, laid));
            assert(told(after, limits, new_root@, 0, final_size, laid));
            assert forall|x: int| 0 <= x < final_size implies #[trigger] replayed(
                old_logical_bytes,
                batch,
                file,
            )(x) == laid(x) by {
                assert(replay_byte(file, old_logical_bytes, batch, batch.len(), x) == laid(x));
            }
            lemma_told_same(
                after,
                limits,
                new_root@,
                0,
                final_size,
                laid,
                replayed(old_logical_bytes, batch, file),
            );
        }
    }
    Ok(ExtentMutationReceipt { root: new_root, logical_bytes: final_size, work: rewrite.work })
}

/// Two batches, one after the other, come to what both of them as one batch come to.
pub proof fn batches_compose(
    old_size: u64,
    a: Seq<ExtentMutationView>,
    b: Seq<ExtentMutationView>,
    count: nat,
    file: Bytes,
)
    requires
        count <= b.len(),
        replay_size(old_size, a, a.len()) <= u64::MAX,
    ensures
        replay_size(old_size, a + b, a.len() + count) == replay_size(
            replay_size(old_size, a, a.len()) as u64,
            b,
            count,
        ),
        forall|x: int| #[trigger]
            replay_byte(file, old_size, a + b, a.len() + count, x) == replay_byte(
                replayed(old_size, a, file),
                replay_size(old_size, a, a.len()) as u64,
                b,
                count,
                x,
            ),
    decreases count,
{
    let whole = a + b;
    if count == 0 {
        lemma_replay_prefix(old_size, whole, a, a.len(), file);
    } else {
        batches_compose(old_size, a, b, (count - 1) as nat, file);
        assert(whole[a.len() + count - 1] == b[count - 1]);
        let at = (a.len() + count - 1) as nat;
        assert(at == a.len() + (count - 1) as nat);
        assert forall|x: int| #[trigger]
            replay_byte(file, old_size, whole, a.len() + count, x) == replay_byte(
                replayed(old_size, a, file),
                replay_size(old_size, a, a.len()) as u64,
                b,
                count,
                x,
            ) by {
            assert(replay_byte(file, old_size, whole, at, x) == replay_byte(
                replayed(old_size, a, file),
                replay_size(old_size, a, a.len()) as u64,
                b,
                (count - 1) as nat,
                x,
            ));
        }
    }
}

proof fn lemma_replay_prefix(
    old_size: u64,
    a: Seq<ExtentMutationView>,
    b: Seq<ExtentMutationView>,
    count: nat,
    file: Bytes,
)
    requires
        count <= a.len(),
        count <= b.len(),
        forall|i: int| 0 <= i < count ==> a[i] == #[trigger] b[i],
    ensures
        replay_size(old_size, a, count) == replay_size(old_size, b, count),
        forall|x: int| #[trigger]
            replay_byte(file, old_size, a, count, x) == replay_byte(file, old_size, b, count, x),
    decreases count,
{
    if count > 0 {
        lemma_replay_prefix(old_size, a, b, (count - 1) as nat, file);
        assert(a[count - 1] == b[count - 1]);
        assert forall|x: int| #[trigger]
            replay_byte(file, old_size, a, count, x) == replay_byte(
                file,
                old_size,
                b,
                count,
                x,
            ) by {
            assert(replay_byte(file, old_size, a, (count - 1) as nat, x) == replay_byte(
                file,
                old_size,
                b,
                (count - 1) as nat,
                x,
            ));
        }
    }
}

} // verus!
