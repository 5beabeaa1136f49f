//! Bounded listing of a tree from a cursor on.

use super::batch::{bound_model, child_at, child_upper, tree_sound, TreeFormat};
use super::codec::{CanonicalDecodeError, DecodeErrorView, DecodeLimits, Page, PageView};
use super::file_lookup::serves;
use super::object_table::ObjectTable;
use crate::order::views;
use crate::performance::{
    charged, left_over, no_work, total, within, OperationFailure, WorkBudget, WorkCounters,
    WorkError,
};
use crate::storage::{
    ImmediateObjectStore, ObjectId, ObjectStoreError, ObjectView, Objects, ReadRequest,
    RequestView,
};
use vstd::prelude::*;

verus! {

/// A tree whose entries can be listed.
pub trait ListedFormat: TreeFormat {
    /// Whether an entry stands behind a key.
    spec fn behind(entry: <Self::Entry as View>::V, key: Self::Model) -> bool;

    /// Tells whether an entry stands behind a key.
    fn is_behind(entry: &Self::Entry, key: &Self::Key) -> (r: bool)
        ensures
            r == Self::behind(entry@, Self::model(*key)),
    ;

    /// Copies an entry.
    fn copy_entry(entry: &Self::Entry) -> (r: Self::Entry)
        ensures
            r@ == entry@,
    ;
}

/// Whether an entry stands behind a cursor.
pub open spec fn past<F: ListedFormat>(
    entry: <F::Entry as View>::V,
    after: Option<F::Model>,
) -> bool {
    match after {
        Some(key) => F::behind(entry, key),
        None => true,
    }
}

/// The entries of a leaf from a position on that stand behind a cursor.
pub open spec fn entries_past<F: ListedFormat>(
    entries: Seq<<F::Entry as View>::V>,
    after: Option<F::Model>,
    from: int,
) -> Seq<<F::Entry as View>::V>
    decreases entries.len() - from,
{
    if from >= entries.len() {
        Seq::empty()
    } else if past::<F>(entries[from], after) {
        seq![entries[from]] + entries_past::<F>(entries, after, from + 1)
    } else {
        entries_past::<F>(entries, after, from + 1)
    }
}

/// The first child that can hold an entry behind a cursor.
pub open spec fn first_child<F: ListedFormat>(
    children: Seq<<F::Child as View>::V>,
    after: Option<F::Model>,
) -> int {
    match after {
        Some(key) => F::child_for(children, key),
        None => 0,
    }
}

/// The entries that a walk from a cursor on passes, in order.
pub open spec fn listed<F: ListedFormat>(
    objects: Objects,
    limits: DecodeLimits,
    page: ObjectView,
    height: nat,
    after: Option<F::Model>,
) -> Seq<<F::Entry as View>::V>
    decreases height, 0int,
{
    if height == 0 || objects(page) is None {
        Seq::empty()
    } else {
        match F::page_decoded(objects(page)->0, limits) {
            Err(_) => Seq::empty(),
            Ok(PageView::Leaf(entries)) => entries_past::<F>(entries, after, 0),
            Ok(PageView::Internal(children)) => listed_children::<F>(
                objects,
                limits,
                children,
                (height - 1) as nat,
                after,
                first_child::<F>(children, after),
            ),
        }
    }
}

/// The entries that a walk through children from a position on passes, in order.
pub open spec fn listed_children<F: ListedFormat>(
    objects: Objects,
    limits: DecodeLimits,
    children: Seq<<F::Child as View>::V>,
    height: nat,
    after: Option<F::Model>,
    from: int,
) -> Seq<<F::Entry as View>::V>
    decreases height, children.len() - from + 1,
{
    if from < 0 || from >= children.len() {
        Seq::empty()
    } else {
        listed::<F>(objects, limits, F::child_page(children[from]), height, after)
            + listed_children::<F>(objects, limits, children, height, after, from + 1)
    }
}

/// Why a listing fails.
#[derive(Debug, PartialEq, Eq)]
pub enum PaginationError {
    /// Cancellation occurred before a storage boundary.
    Cancelled,
    /// The page bound is zero.
    ZeroLimit,
    /// The page bound cannot be represented.
    LimitOverflow,
    /// The root is no page of the tree.
    WrongRootKind,
    /// Page or traversal bounds are invalid.
    InvalidLimits,
    /// The tree is higher than admitted.
    HeightExceeded,
    /// A page was reached twice.
    CycleOrAlias,
    /// A page disagrees with the bounds under which it was reached.
    ChildBoundsMismatch,
    /// The traversal reached an impossible state.
    TraversalState,
    /// A bounded scratch allocation failed.
    AllocationFailed,
    /// Immutable object storage failed.
    Storage(ObjectStoreError),
    /// A page failed decoding.
    Decode(CanonicalDecodeError),
    /// Work overflowed or exceeded its budget.
    Work(WorkError),
}

/// A listing failure retaining the work spent.
pub type PaginationFailure = OperationFailure<PaginationError>;

/// One page of a listing.
#[derive(Debug, PartialEq, Eq)]
pub struct PageReceipt<T> {
    /// Entries behind the cursor.
    pub values: Vec<T>,
    /// Whether at least one more entry follows.
    pub has_more: bool,
    /// The page that the walk would have read next.
    pub next_page: Option<ObjectId>,
    /// Work of the traversal and the backend.
    pub work: WorkCounters,
}

/// Why a listing is refused before any work.
pub open spec fn pagination_problem<F: TreeFormat>(
    root: ObjectId,
    maximum_entries: u32,
    limits: DecodeLimits,
) -> Option<PaginationError> {
    if maximum_entries == 0 {
        Some(PaginationError::ZeroLimit)
    } else if root.kind != F::page_kind() {
        Some(PaginationError::WrongRootKind)
    } else if !limits.admits_pages(1) {
        Some(PaginationError::InvalidLimits)
    } else {
        None
    }
}

/// Whether a failure is one that a sound tree leaves possible.
pub open spec fn pagination_resources(error: PaginationError) -> bool {
    error is CycleOrAlias || error is AllocationFailed || error is Storage || error is Work
}

/// A page that the walk has still to read.
#[verifier::ext_equal]
pub struct StepView<M> {
    /// Page to read.
    pub page: ObjectView,
    /// Key that the page begins at, if it is bounded.
    pub lower: Option<M>,
    /// Key that the page stays below, if it is bounded.
    pub upper: Option<M>,
    /// Levels that are admitted from here on.
    pub height: nat,
}

/// A walk between two reads.
#[verifier::ext_equal]
pub struct WalkState<M, V> {
    /// Pages to read, the next one last.
    pub pending: Seq<StepView<M>>,
    /// Pages read.
    pub visited: Set<ObjectView>,
    /// Number of pages read.
    pub pages: nat,
    /// Work spent.
    pub work: WorkCounters,
    /// Entries listed.
    pub values: Seq<V>,
}

/// One page of a listing as a value.
#[verifier::ext_equal]
pub struct ListedPage<V> {
    /// Entries behind the cursor.
    pub values: Seq<V>,
    /// Whether at least one more entry follows.
    pub has_more: bool,
    /// The page that the walk would have read next.
    pub next_page: Option<ObjectView>,
    /// Work of the traversal and the backend.
    pub work: WorkCounters,
}

/// Why a listing fails, with the cause of a decoding failure as a value.
#[verifier::ext_equal]
pub enum ListingCause {
    /// A page does not decode.
    Undecodable(DecodeErrorView),
    /// Any other error.
    Refused(PaginationError),
}

/// A failure as its cause and the work spent.
pub type ListingFailing = (ListingCause, WorkCounters);

/// The failure for a cause that is no decoding failure.
pub open spec fn listing_failing(error: PaginationError, work: WorkCounters) -> ListingFailing {
    (ListingCause::Refused(error), work)
}

/// Whether an error has a cause.
pub open spec fn listing_caused_by(error: PaginationError, cause: ListingCause) -> bool {
    match cause {
        ListingCause::Undecodable(decoding) => error matches PaginationError::Decode(found)
            && found@ == decoding,
        ListingCause::Refused(refusal) => error == refusal,
    }
}

/// The children of a page from the last down to a given one, as pages to read.
pub open spec fn child_steps<F: TreeFormat>(
    children: Seq<<F::Child as View>::V>,
    step: StepView<F::Model>,
    from: int,
) -> Seq<StepView<F::Model>>
    decreases children.len() - from,
{
    if from < 0 || from >= children.len() {
        Seq::empty()
    } else {
        child_steps::<F>(children, step, from + 1).push(
            StepView {
                page: F::child_page(children[from]),
                lower: Some(F::child_first(children[from])),
                upper: child_upper::<F>(children, from, step.upper),
                height: (step.height - 1) as nat,
            },
        )
    }
}

/// What a read comes to: the decoded page and the work, or the failure.
pub open spec fn step_read<S: ImmediateObjectStore, F: TreeFormat>(
    store: &S,
    limits: DecodeLimits,
    budget: WorkBudget,
    page: ObjectView,
    work: WorkCounters,
) -> Result<(PageView<<F::Entry as View>::V, <F::Child as View>::V>, WorkCounters), ListingFailing> {
    match charged(work, WorkCounters { page_reads: 1, ..no_work() }, budget) {
        Err(error) => Err(listing_failing(PaginationError::Work(error), work)),
        Ok(prospective) => {
            let request = RequestView {
                object: page,
                maximum_bytes: limits.page_object_bytes(),
                remaining: left_over(prospective, budget),
            };
            match store.answers(request) {
                Err(failure) => match total(prospective, failure.work) {
                    Ok(spent) => Err(
                        listing_failing(PaginationError::Storage(failure.error), spent),
                    ),
                    Err(error) => Err(listing_failing(PaginationError::Work(error), prospective)),
                },
                Ok(read) => match total(prospective, read.work) {
                    Err(error) => Err(listing_failing(PaginationError::Work(error), prospective)),
                    Ok(sum) => if !within(sum, budget) {
                        Err(listing_failing(PaginationError::Work(WorkError::Exceeded), sum))
                    } else {
                        match F::page_decoded(read.bytes, limits) {
                            Err(cause) => Err((ListingCause::Undecodable(cause), sum)),
                            Ok(decoded) => Ok((decoded, sum)),
                        }
                    },
                },
            }
        },
    }
}

/// What a walk comes to: one page of the listing, or the failure.
pub open spec fn walk_outcome<S: ImmediateObjectStore, F: ListedFormat>(
    store: &S,
    after: Option<F::Model>,
    maximum_entries: u32,
    limits: DecodeLimits,
    budget: WorkBudget,
    state: WalkState<F::Model, <F::Entry as View>::V>,
) -> Result<ListedPage<<F::Entry as View>::V>, ListingFailing>
    decreases limits.maximum_visited_pages - state.pages,
{
    if state.pending.len() == 0 {
        Ok(
            ListedPage {
                values: state.values,
                has_more: false,
                next_page: None,
                work: state.work,
            },
        )
    } else {
        let step = state.pending.last();
        let rest = state.pending.drop_last();
        if step.height == 0 {
            Err(listing_failing(PaginationError::HeightExceeded, state.work))
        } else if state.pages >= limits.maximum_visited_pages {
            Err(listing_failing(PaginationError::AllocationFailed, state.work))
        } else if state.visited.contains(step.page) {
            Err(listing_failing(PaginationError::CycleOrAlias, state.work))
        } else {
            match step_read::<S, F>(store, limits, budget, step.page, state.work) {
                Err(failing) => Err(failing),
                Ok((PageView::Leaf(entries), work)) => {
                    let values = state.values + entries_past::<F>(entries, after, 0);
                    if !F::entries_fit(entries, step.lower, step.upper) {
                        Err(listing_failing(PaginationError::ChildBoundsMismatch, work))
                    } else if values.len() > maximum_entries {
                        Ok(
                            ListedPage {
                                values: values.take(maximum_entries as int),
                                has_more: true,
                                next_page: if rest.len() > 0 {
                                    Some(rest.last().page)
                                } else {
                                    None
                                },
                                work,
                            },
                        )
                    } else {
                        walk_outcome::<S, F>(
                            store,
                            after,
                            maximum_entries,
                            limits,
                            budget,
                            WalkState {
                                pending: rest,
                                visited: state.visited.insert(step.page),
                                pages: state.pages + 1,
                                work,
                                values,
                            },
                        )
                    }
                },
                Ok((PageView::Internal(children), work)) => if !F::children_fit(
                    children,
                    step.lower,
                    step.upper,
                ) {
                    Err(listing_failing(PaginationError::ChildBoundsMismatch, work))
                } else {
                    walk_outcome::<S, F>(
                        store,
                        after,
                        maximum_entries,
                        limits,
                        budget,
                        WalkState {
                            pending: rest + child_steps::<F>(
                                children,
                                step,
                                first_child::<F>(children, after),
                            ),
                            visited: state.visited.insert(step.page),
                            pages: state.pages + 1,
                            work,
                            values: state.values,
                        },
                    )
                },
            }
        }
    }
}

/// A walk that has read nothing.
pub open spec fn walk_begun<M, V>(root: ObjectView, limits: DecodeLimits) -> WalkState<M, V> {
    WalkState {
        pending: seq![
            StepView {
                page: root,
                lower: None,
                upper: None,
                height: limits.maximum_page_height as nat,
            },
        ],
        visited: Set::empty(),
        pages: 0,
        work: no_work(),
        values: Seq::empty(),
    }
}

/// The page of an optional identity.
pub open spec fn page_view(page: Option<ObjectId>) -> Option<ObjectView> {
    match page {
        Some(object) => Some(object@),
        None => None,
    }
}

/// Whether a listing is settled as its outcome says. More pages than a table of them
/// can hold are an allocation failure.
pub open spec fn listing_settled<S: ImmediateObjectStore, F: ListedFormat>(
    store: &S,
    root: ObjectView,
    after: Option<F::Model>,
    maximum_entries: u32,
    limits: DecodeLimits,
    budget: WorkBudget,
    r: Result<PageReceipt<F::Entry>, PaginationFailure>,
) -> bool {
    ||| match walk_outcome::<S, F>(
        store,
        after,
        maximum_entries,
        limits,
        budget,
        walk_begun(root, limits),
    ) {
        Ok(page) => r matches Ok(receipt) && page == (ListedPage {
            values: views(receipt.values@),
            has_more: receipt.has_more,
            next_page: page_view(receipt.next_page),
            work: receipt.work,
        }),
        Err(failing) => r matches Err(failure) && listing_caused_by(failure.error, failing.0)
            && failure.work == failing.1,
    }
    ||| limits.maximum_visited_pages > usize::MAX / 4 && (r matches Err(failure)
        && failure.error is AllocationFailed)
}

/// Abstract value of a page that the walk has still to read.
spec fn step_view<F: TreeFormat>(step: Step<F::Key>) -> StepView<F::Model> {
    StepView {
        page: step.page@,
        lower: bound_model::<F>(step.lower),
        upper: bound_model::<F>(step.upper),
        height: step.height as nat,
    }
}

/// Abstract values of pages that the walk has still to read.
spec fn step_views<F: TreeFormat>(steps: Seq<Step<F::Key>>) -> Seq<StepView<F::Model>> {
    Seq::new(steps.len(), |i: int| step_view::<F>(steps[i]))
}

/// A page that the walk has still to read.
struct Step<K> {
    page: ObjectId,
    lower: Option<K>,
    upper: Option<K>,
    height: u16,
}

/// What a listing is about.
struct Walk<F: ListedFormat> {
    limits: DecodeLimits,
    root: ObjectView,
    height: nat,
    after: Option<F::Model>,
}

/// The entries below pages that wait, the last page first.
spec fn waiting_entries<F: ListedFormat>(
    objects: Objects,
    walk: Walk<F>,
    pending: Seq<Step<F::Key>>,
) -> Seq<<F::Entry as View>::V>
    decreases pending.len(),
{
    if pending.len() == 0 {
        Seq::empty()
    } else {
        listed::<F>(
            objects,
            walk.limits,
            pending.last().page@,
            pending.last().height as nat,
            walk.after,
        ) + waiting_entries::<F>(objects, walk, pending.drop_last())
    }
}

/// All entries of a listing.
spec fn whole<F: ListedFormat>(objects: Objects, walk: Walk<F>) -> Seq<<F::Entry as View>::V> {
    listed::<F>(objects, walk.limits, walk.root, walk.height, walk.after)
}

/// Whether a page that waits is sound if the whole tree is.
spec fn step_sound<F: ListedFormat>(objects: Objects, walk: Walk<F>, step: Step<F::Key>) -> bool {
    tree_sound::<F>(objects, walk.limits, walk.root, None, None, walk.height) ==> tree_sound::<F>(
        objects,
        walk.limits,
        step.page@,
        bound_model::<F>(step.lower),
        bound_model::<F>(step.upper),
        step.height as nat,
    )
}

/// Whether all pages that wait are sound if the whole tree is.
spec fn steps_sound<F: ListedFormat>(
    objects: Objects,
    walk: Walk<F>,
    pending: Seq<Step<F::Key>>,
) -> bool {
    forall|i: int| 0 <= i < pending.len() ==> step_sound::<F>(objects, walk, #[trigger] pending[i])
}

/// Lists entries from a cursor on.
pub fn paginate<S: ImmediateObjectStore, F: ListedFormat>(
    store: &S,
    root: ObjectId,
    after: &Option<F::Key>,
    maximum_entries: u32,
    limits: DecodeLimits,
    budget: WorkBudget,
) -> (r: Result<PageReceipt<F::Entry>, PaginationFailure>)
    ensures
        match pagination_problem::<F>(root, maximum_entries, limits) {
            Some(problem) => r matches Err(failure) && failure.error == problem && failure.work
                == no_work(),
            None => listing_settled::<S, F>(
                store,
                root@,
                bound_model::<F>(*after),
                maximum_entries,
                limits,
                budget,
                r,
            ),
        },
        pagination_problem::<F>(root, maximum_entries, limits) is None ==> {
            match r {
                Ok(receipt) => within(receipt.work, budget) && receipt.values@.len()
                    <= maximum_entries && (receipt.next_page is Some ==> receipt.has_more)
                    && forall|objects: Objects| #[trigger]
                    serves(store, objects) ==> ({
                        let all = listed::<F>(
                            objects,
                            limits,
                            root@,
                            limits.maximum_page_height as nat,
                            bound_model::<F>(*after),
                        );
                        &&& receipt.has_more == (all.len() > maximum_entries)
                        &&& views(receipt.values@) == all.take(
                            if all.len() > maximum_entries {
                                maximum_entries as int
                            } else {
                                all.len() as int
                            },
                        )
                    }),
                Err(failure) => !(failure.error is ZeroLimit) && !(failure.error is WrongRootKind)
                    && !(failure.error is InvalidLimits) && forall|objects: Objects| #[trigger]
                    serves(store, objects) && tree_sound::<F>(
                        objects,
                        limits,
                        root@,
                        None,
                        None,
                        limits.maximum_page_height as nat,
                    ) ==> pagination_resources(failure.error),
            }
        },
{
    if maximum_entries == 0 {
        return Err(OperationFailure::before_work(PaginationError::ZeroLimit));
    }
    if root.kind != F::kind() {
        return Err(OperationFailure::before_work(PaginationError::WrongRootKind));
    }
    if !limits.page_limits_valid(1) {
        return Err(OperationFailure::before_work(PaginationError::InvalidLimits));
    }
    let ghost walk = Walk::<F> {
        limits,
        root: root@,
        height: limits.maximum_page_height as nat,
        after: bound_model::<F>(*after),
    };
    let mut values: Vec<F::Entry> = Vec::new();
    let mut pending: Vec<Step<F::Key>> = Vec::new();
    pending.push(Step { page: root, lower: None, upper: None, height: limits.maximum_page_height });
    let mut visited = ObjectTable::new(16);
    let mut pages: u64 = 0;
    let mut work = WorkCounters::default();
    let ghost goal = walk_outcome::<S, F>(
        store,
        bound_model::<F>(*after),
        maximum_entries,
        limits,
        budget,
        walk_begun(root@, limits),
    );
    proof {
        let begun: WalkState<F::Model, <F::Entry as View>::V> = walk_begun(root@, limits);
        assert(step_views::<F>(pending@) =~= begun.pending);
        assert(visited@ =~= begun.visited);
        assert(views(values@) =~= begun.values);
        assert forall|objects: Objects| #[trigger] serves(store, objects) implies whole::<F>(
            objects,
            walk,
        ) == views(values@) + waiting_entries::<F>(objects, walk, pending@) && steps_sound::<F>(
            objects,
            walk,
            pending@,
        ) by {
            reveal_with_fuel(waiting_entries, 2);
            assert(pending@.drop_last().len() == 0);
            assert(views(values@) =~= Seq::empty());
            assert(whole::<F>(objects, walk) =~= views(values@) + waiting_entries::<F>(
                objects,
                walk,
                pending@,
            ));
        }
    }
    while pending.len() > 0
        invariant
            maximum_entries > 0,
            values@.len() <= maximum_entries,
            walk == (Walk::<F> {
                limits,
                root: root@,
                height: limits.maximum_page_height as nat,
                after: bound_model::<F>(*after),
            }),
            forall|objects: Objects| #[trigger]
                serves(store, objects) ==> whole::<F>(objects, walk) == views(values@)
                    + waiting_entries::<F>(objects, walk, pending@) && steps_sound::<F>(
                    objects,
                    walk,
                    pending@,
                ),
            pagination_problem::<F>(root, maximum_entries, limits) is None,
            pages <= limits.maximum_visited_pages,
            pages > 0 ==> within(work, budget),
            pages == 0 ==> pending@.len() > 0,
            visited@.finite(),
            visited@.len() <= pages,
            goal == walk_outcome::<S, F>(
                store,
                bound_model::<F>(*after),
                maximum_entries,
                limits,
                budget,
                walk_begun(root@, limits),
            ),
            goal == walk_outcome::<S, F>(
                store,
                walk.after,
                maximum_entries,
                limits,
                budget,
                (WalkState {
                    pending: step_views::<F>(pending@),
                    visited: visited@,
                    pages: pages as nat,
                    work,
                    values: views(values@),
                }),
            ),
        decreases limits.maximum_visited_pages - pages,
    {
        let ghost waiting = pending@;
        let ghost state = WalkState::<F::Model, <F::Entry as View>::V> {
            pending: step_views::<F>(pending@),
            visited: visited@,
            pages: pages as nat,
            work,
            values: views(values@),
        };
        let step = match pending.pop() {
            Some(step) => step,
            None => {
                return Err(OperationFailure::new(PaginationError::AllocationFailed, work));
            },
        };
        let ghost rest = pending@;
        let ghost listed_before = views(values@);
        proof {
            assert(waiting.last() == step);
            assert(waiting.drop_last() =~= rest);
            assert(state.pending.last() == step_view::<F>(step));
            assert(state.pending.drop_last() =~= step_views::<F>(rest));
            assert forall|objects: Objects| #[trigger] serves(store, objects) implies whole::<F>(
                objects,
                walk,
            ) == listed_before + (listed::<F>(
                objects,
                limits,
                step.page@,
                step.height as nat,
                walk.after,
            ) + waiting_entries::<F>(objects, walk, rest)) && step_sound::<F>(objects, walk, step)
                && steps_sound::<F>(objects, walk, rest) by {
                assert(step_sound::<F>(objects, walk, waiting[rest.len() as int]));
                assert forall|i: int| 0 <= i < rest.len() implies step_sound::<F>(
                    objects,
                    walk,
                    #[trigger] rest[i],
                ) by {
                    assert(waiting[i] == rest[i]);
                }
            }
        }
        if step.height == 0 {
            return Err(OperationFailure::new(PaginationError::HeightExceeded, work));
        }
        if pages >= limits.maximum_visited_pages as u64 {
            return Err(OperationFailure::new(PaginationError::AllocationFailed, work));
        }
        pages = pages + 1;
        match visited.insert(step.page) {
            Some(true) => {},
            Some(false) => {
                return Err(OperationFailure::new(PaginationError::CycleOrAlias, work));
            },
            None => {
                return Err(OperationFailure::new(PaginationError::AllocationFailed, work));
            },
        }
        let prospective = match work.checked_add(WorkCounters::of_page_reads(1)) {
            Ok(sum) => sum,
            Err(error) => {
                return Err(OperationFailure::new(PaginationError::Work(error), work));
            },
        };
        let remaining = match prospective.remaining(budget) {
            Ok(remaining) => remaining,
            Err(error) => {
                return Err(OperationFailure::new(PaginationError::Work(error), work));
            },
        };
        let request = ReadRequest {
            object: step.page,
            maximum_bytes: limits.maximum_page_object_bytes(),
            remaining,
        };
        let read = match store.read(&request) {
            Ok(read) => read,
            Err(failure) => {
                return Err(
                    match prospective.checked_add(failure.work) {
                        Ok(spent) => OperationFailure::new(
                            PaginationError::Storage(failure.error),
                            spent,
                        ),
                        Err(error) => OperationFailure::new(
                            PaginationError::Work(error),
                            prospective,
                        ),
                    },
                );
            },
        };
        proof {
            assert forall|objects: Objects| #[trigger] serves(store, objects) implies objects(
                step.page@,
            ) == Some(read.bytes@) by {
                assert(store.answers(request@) is Ok);
            }
        }
        work = match prospective.checked_add(read.work) {
            Ok(sum) => sum,
            Err(error) => {
                return Err(OperationFailure::new(PaginationError::Work(error), prospective));
            },
        };
        if let Err(error) = work.verify(budget) {
            return Err(OperationFailure::new(PaginationError::Work(error), work));
        }
        let page = match F::decode(read.bytes.as_slice(), limits) {
            Ok(page) => page,
            Err(error) => {
                return Err(OperationFailure::new(PaginationError::Decode(error), work));
            },
        };
        match page {
            Page::Leaf(entries) => {
                let ghost all = views(entries@);
                if !F::entries_within(&entries, &step.lower, &step.upper) {
                    return Err(OperationFailure::new(PaginationError::ChildBoundsMismatch, work));
                }
                let ghost gathering = listed_before + entries_past::<F>(all, walk.after, 0);
                let mut j: usize = 0;
                let mut full = false;
                while j < entries.len() && !full
                    invariant
                        j <= entries@.len(),
                        all == views(entries@),
                        values@.len() <= maximum_entries,
                        full ==> values@.len() == maximum_entries && j < entries@.len()
                            && past::<F>(all[j as int], walk.after),
                        walk.after == bound_model::<F>(*after),
                        listed_before + entries_past::<F>(all, walk.after, 0) == views(values@)
                            + entries_past::<F>(all, walk.after, j as int),
                    decreases entries@.len() - j, (if full {
                        0int
                    } else {
                        1int
                    }),
                {
                    assert(all[j as int] == entries@[j as int]@);
                    let wanted = match after {
                        Some(key) => F::is_behind(&entries[j], key),
                        None => true,
                    };
                    let ghost gathered = views(values@);
                    if !wanted {
                        j = j + 1;
                    } else if values.len() as u64 >= maximum_entries as u64 {
                        full = true;
                    } else {
                        values.push(F::copy_entry(&entries[j]));
                        assert(views(values@) =~= gathered.push(all[j as int]));
                        j = j + 1;
                        assert(gathered + (seq![all[j - 1]] + entries_past::<F>(
                            all,
                            walk.after,
                            j as int,
                        )) =~= views(values@) + entries_past::<F>(all, walk.after, j as int));
                    }
                }
                proof {
                    assert forall|objects: Objects| #[trigger] serves(store, objects) implies whole::<
                        F,
                    >(objects, walk) == views(values@) + (entries_past::<F>(
                        all,
                        walk.after,
                        j as int,
                    ) + waiting_entries::<F>(objects, walk, rest)) by {
                        assert(listed::<F>(
                            objects,
                            limits,
                            step.page@,
                            step.height as nat,
                            walk.after,
                        ) == entries_past::<F>(all, walk.after, 0));
                        let below = waiting_entries::<F>(objects, walk, rest);
                        assert(listed_before + (entries_past::<F>(all, walk.after, 0) + below) =~= (
                        listed_before + entries_past::<F>(all, walk.after, 0)) + below);
                        assert((views(values@) + entries_past::<F>(all, walk.after, j as int))
                            + below =~= views(values@) + (entries_past::<F>(
                            all,
                            walk.after,
                            j as int,
                        ) + below));
                    }
                }
                proof {
                    if full {
                        assert(entries_past::<F>(all, walk.after, j as int).len() > 0);
                        assert(gathering.take(maximum_entries as int) =~= views(values@));
                    } else {
                        assert(entries_past::<F>(all, walk.after, j as int) =~= Seq::empty());
                        assert(gathering =~= views(values@));
                    }
                }
                if full {
                    assert(step_views::<F>(rest).len() == pending@.len());
                    let next_page = if pending.len() > 0 {
                        Some(pending[pending.len() - 1].page)
                    } else {
                        None
                    };
                    proof {
                        assert forall|objects: Objects| #[trigger] serves(store, objects) implies ({
                            let listing = whole::<F>(objects, walk);
                            listing.len() > maximum_entries && views(values@) == listing.take(
                                maximum_entries as int,
                            )
                        }) by {
                            let listing = whole::<F>(objects, walk);
                            assert(entries_past::<F>(all, walk.after, j as int).len() > 0);
                            assert(listing.take(maximum_entries as int) =~= views(values@));
                        }
                    }
                    return Ok(PageReceipt { values, has_more: true, next_page, work });
                }
                proof {
                    assert forall|objects: Objects| #[trigger] serves(store, objects) implies whole::<
                        F,
                    >(objects, walk) == views(values@) + waiting_entries::<F>(
                        objects,
                        walk,
                        pending@,
                    ) by {
                        assert(entries_past::<F>(all, walk.after, j as int) =~= Seq::empty());
                        let below = waiting_entries::<F>(objects, walk, rest);
                        assert(entries_past::<F>(all, walk.after, j as int) + below =~= below);
                    }
                }
            },
            Page::Internal(children) => {
                let ghost all = views(children@);
                if !F::children_within(&children, &step.lower, &step.upper) {
                    return Err(OperationFailure::new(PaginationError::ChildBoundsMismatch, work));
                }
                proof {
                    F::decoded_in_order(read.bytes@, limits, arbitrary());
                    if let Some(key) = walk.after {
                        F::decoded_in_order(read.bytes@, limits, key);
                    }
                }
                let start = match after {
                    Some(key) => F::route(&children, key),
                    None => 0,
                };
                let mut i: usize = children.len();
                let ghost seen = step_view::<F>(step);
                proof {
                    assert(start == first_child::<F>(all, walk.after));
                    assert(child_steps::<F>(all, seen, i as int) =~= Seq::empty());
                    assert(step_views::<F>(pending@) =~= step_views::<F>(rest) + child_steps::<F>(
                        all,
                        seen,
                        i as int,
                    ));
                    assert forall|objects: Objects| #[trigger] serves(
                        store,
                        objects,
                    ) implies waiting_entries::<F>(objects, walk, rest) == listed_children::<F>(
                        objects,
                        limits,
                        all,
                        (step.height - 1) as nat,
                        walk.after,
                        i as int,
                    ) + waiting_entries::<F>(objects, walk, rest) by {
                        assert(listed_children::<F>(
                            objects,
                            limits,
                            all,
                            (step.height - 1) as nat,
                            walk.after,
                            i as int,
                        ) + waiting_entries::<F>(objects, walk, rest) =~= waiting_entries::<F>(
                            objects,
                            walk,
                            rest,
                        ));
                    }
                }
                while i > start
                    invariant
                        start <= i <= children@.len(),
                        all == views(children@),
                        step.height > 0,
                        seen == step_view::<F>(step),
                        step_views::<F>(pending@) == step_views::<F>(rest) + child_steps::<F>(
                            all,
                            seen,
                            i as int,
                        ),
                        walk.limits == limits,
                        F::page_decoded(read.bytes@, limits) == Ok::<
                            PageView<<F::Entry as View>::V, <F::Child as View>::V>,
                            DecodeErrorView,
                        >(PageView::Internal(all)),
                        forall|objects: Objects| #[trigger]
                            serves(store, objects) ==> waiting_entries::<F>(objects, walk, pending@)
                                == listed_children::<F>(
                                objects,
                                limits,
                                all,
                                (step.height - 1) as nat,
                                walk.after,
                                i as int,
                            ) + waiting_entries::<F>(objects, walk, rest) && step_sound::<F>(
                                objects,
                                walk,
                                step,
                            ) && steps_sound::<F>(objects, walk, pending@) && objects(step.page@)
                                == Some(read.bytes@),
                    decreases i,
                {
                    let ghost held = pending@;
                    i = i - 1;
                    let upper = if i + 1 < children.len() {
                        Some(F::first_of(&children[i + 1]))
                    } else {
                        match &step.upper {
                            Some(upper) => Some(F::copy_key(upper)),
                            None => None,
                        }
                    };
                    let next = Step {
                        page: F::page_of(&children[i]),
                        lower: Some(F::first_of(&children[i])),
                        upper,
                        height: step.height - 1,
                    };
                    pending.push(next);
                    proof {
                        assert(all[i as int] == children@[i as int]@);
                        if i + 1 < children@.len() {
                            assert(all[i + 1] == children@[i + 1]@);
                        }
                        assert(pending@.drop_last() =~= held);
                        assert(pending@.last() == next);
                        assert(step_views::<F>(pending@) =~= step_views::<F>(held).push(
                            step_view::<F>(next),
                        ));
                        assert(step_views::<F>(pending@) =~= step_views::<F>(rest)
                            + child_steps::<F>(all, seen, i as int));
                        assert forall|objects: Objects| #[trigger]
                            serves(store, objects) implies waiting_entries::<F>(
                            objects,
                            walk,
                            pending@,
                        ) == listed_children::<F>(
                            objects,
                            limits,
                            all,
                            (step.height - 1) as nat,
                            walk.after,
                            i as int,
                        ) + waiting_entries::<F>(objects, walk, rest) && steps_sound::<F>(
                            objects,
                            walk,
                            pending@,
                        ) by {
                            let own = listed::<F>(
                                objects,
                                limits,
                                next.page@,
                                (step.height - 1) as nat,
                                walk.after,
                            );
                            let later = listed_children::<F>(
                                objects,
                                limits,
                                all,
                                (step.height - 1) as nat,
                                walk.after,
                                i + 1,
                            );
                            let below = waiting_entries::<F>(objects, walk, rest);
                            assert(own + (later + below) =~= (own + later) + below);
                            assert(F::child_page(child_at(all, i as int)) == next.page@);
                            assert(step_sound::<F>(objects, walk, next));
                            assert forall|k: int| 0 <= k < pending@.len() implies step_sound::<F>(
                                objects,
                                walk,
                                #[trigger] pending@[k],
                            ) by {
                                if k < held.len() {
                                    assert(pending@[k] == held[k]);
                                }
                            }
                        }
                    }
                }
            },
        }
    }
    proof {
        assert forall|objects: Objects| #[trigger] serves(store, objects) implies ({
            let listing = whole::<F>(objects, walk);
            listing.len() <= maximum_entries && views(values@) == listing.take(listing.len() as int)
        }) by {
            let listing = whole::<F>(objects, walk);
            assert(listing =~= views(values@));
            assert(listing.take(listing.len() as int) =~= listing);
        }
    }
    assert(step_views::<F>(pending@).len() == 0);
    Ok(PageReceipt { values, has_more: false, next_page: None, work })
}

} // verus!
