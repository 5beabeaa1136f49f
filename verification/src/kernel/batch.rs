//! Batched lookups that read every page of a tree at most once.

use super::codec::{CanonicalDecodeError, DecodeErrorView, DecodeLimits, Page, PageView};
use super::file_lookup::serves;
use super::object_table::ObjectTable;
use crate::order::views;
use crate::performance::{
    charged, left_over, no_work, total, within, OperationFailure, WorkBudget, WorkCounters,
    WorkError,
};
use crate::storage::{
    ImmediateObjectStore, ObjectId, ObjectKind, ObjectStoreError, ObjectView, Objects, ReadRequest,
    RequestView,
};
use vstd::prelude::*;

verus! {

/// A kind of ordered tree: what its pages hold and how a key finds its way.
pub trait TreeFormat: Sized {
    /// What entries are looked up by.
    type Key;

    /// Abstract value of a key.
    type Model;

    /// Entry of a leaf.
    type Entry: View;

    /// Reference to a page below.
    type Child: View;

    /// Abstract value of a key.
    spec fn model(key: Self::Key) -> Self::Model;

    /// Kind of the tree's pages.
    spec fn page_kind() -> ObjectKind;

    /// What the bytes of a page stand for.
    spec fn page_decoded(bytes: Seq<u8>, limits: DecodeLimits) -> Result<
        PageView<<Self::Entry as View>::V, <Self::Child as View>::V>,
        DecodeErrorView,
    >;

    /// Whether the entries of a leaf are in order.
    spec fn entries_ordered(entries: Seq<<Self::Entry as View>::V>) -> bool;

    /// Whether the children of a page are in order.
    spec fn children_ordered(children: Seq<<Self::Child as View>::V>) -> bool;

    /// Whether the entries of a leaf agree with the bounds under which it was reached.
    spec fn entries_fit(
        entries: Seq<<Self::Entry as View>::V>,
        lower: Option<Self::Model>,
        upper: Option<Self::Model>,
    ) -> bool;

    /// Whether the children of a page agree with the bounds under which it was reached.
    spec fn children_fit(
        children: Seq<<Self::Child as View>::V>,
        lower: Option<Self::Model>,
        upper: Option<Self::Model>,
    ) -> bool;

    /// The entry of a key.
    spec fn entry_for(entries: Seq<<Self::Entry as View>::V>, key: Self::Model) -> Option<
        <Self::Entry as View>::V,
    >;

    /// Position of the child to which a key is routed.
    spec fn child_for(children: Seq<<Self::Child as View>::V>, key: Self::Model) -> int;

    /// The page that a child refers to.
    spec fn child_page(child: <Self::Child as View>::V) -> ObjectView;

    /// The key that a child's page begins with.
    spec fn child_first(child: <Self::Child as View>::V) -> Self::Model;

    /// Pages are in order, and a page above leaves has a child for every key.
    proof fn decoded_in_order(bytes: Seq<u8>, limits: DecodeLimits, key: Self::Model)
        ensures
            match Self::page_decoded(bytes, limits) {
                Err(_) => true,
                Ok(PageView::Leaf(entries)) => Self::entries_ordered(entries),
                Ok(PageView::Internal(children)) => Self::children_ordered(children)
                    && children.len() > 0 && 0 <= Self::child_for(children, key) < children.len(),
            },
    ;

    /// Kind of the tree's pages.
    fn kind() -> (r: ObjectKind)
        ensures
            r == Self::page_kind(),
    ;

    /// Decodes a page.
    fn decode(bytes: &[u8], limits: DecodeLimits) -> (r: Result<
        Page<Self::Entry, Self::Child>,
        CanonicalDecodeError,
    >)
        ensures
            match Self::page_decoded(bytes@, limits) {
                Ok(view) => r matches Ok(page) && page@ == view,
                Err(cause) => r matches Err(error) && error@ == cause,
            },
    ;

    /// Tells whether leaf entries agree with their bounds.
    fn entries_within(
        entries: &Vec<Self::Entry>,
        lower: &Option<Self::Key>,
        upper: &Option<Self::Key>,
    ) -> (r: bool)
        ensures
            r == Self::entries_fit(
                views(entries@),
                match *lower {
                    Some(key) => Some(Self::model(key)),
                    None => None,
                },
                match *upper {
                    Some(key) => Some(Self::model(key)),
                    None => None,
                },
            ),
    ;

    /// Tells whether children agree with their bounds.
    fn children_within(
        children: &Vec<Self::Child>,
        lower: &Option<Self::Key>,
        upper: &Option<Self::Key>,
    ) -> (r: bool)
        ensures
            r == Self::children_fit(
                views(children@),
                match *lower {
                    Some(key) => Some(Self::model(key)),
                    None => None,
                },
                match *upper {
                    Some(key) => Some(Self::model(key)),
                    None => None,
                },
            ),
    ;

    /// Finds the entry of a key.
    fn find(entries: &Vec<Self::Entry>, key: &Self::Key) -> (r: Option<Self::Entry>)
        requires
            Self::entries_ordered(views(entries@)),
        ensures
            found_view(r) == Self::entry_for(views(entries@), Self::model(*key)),
    ;

    /// Finds the child to which a key is routed.
    fn route(children: &Vec<Self::Child>, key: &Self::Key) -> (r: usize)
        requires
            Self::children_ordered(views(children@)),
            children@.len() > 0,
        ensures
            r == Self::child_for(views(children@), Self::model(*key)),
            r < children@.len(),
    ;

    /// The page that a child refers to.
    fn page_of(child: &Self::Child) -> (r: ObjectId)
        ensures
            r@ == Self::child_page(child@),
    ;

    /// The key that a child's page begins with.
    fn first_of(child: &Self::Child) -> (r: Self::Key)
        ensures
            Self::model(r) == Self::child_first(child@),
    ;

    /// Copies a key.
    fn copy_key(key: &Self::Key) -> (r: Self::Key)
        ensures
            Self::model(r) == Self::model(*key),
    ;
}

/// An optional key.
pub open spec fn bound_model<F: TreeFormat>(bound: Option<F::Key>) -> Option<F::Model> {
    match bound {
        Some(key) => Some(F::model(key)),
        None => None,
    }
}

/// An optional entry.
pub open spec fn found_view<T: View>(found: Option<T>) -> Option<T::V> {
    match found {
        Some(entry) => Some(entry@),
        None => None,
    }
}

/// One child of a page.
pub open spec fn child_at<C>(children: Seq<C>, i: int) -> C {
    children[i]
}

/// Key that the subtree of a child stays below.
pub open spec fn child_upper<F: TreeFormat>(
    children: Seq<<F::Child as View>::V>,
    i: int,
    upper: Option<F::Model>,
) -> Option<F::Model> {
    if i + 1 < children.len() {
        Some(F::child_first(children[i + 1]))
    } else {
        upper
    }
}

/// The entry that descending through routed children finds.
pub open spec fn tree_search<F: TreeFormat>(
    objects: Objects,
    limits: DecodeLimits,
    page: ObjectView,
    height: nat,
    key: F::Model,
) -> Option<<F::Entry as View>::V>
    decreases height,
{
    if height == 0 || objects(page) is None {
        None
    } else {
        match F::page_decoded(objects(page)->0, limits) {
            Err(_) => None,
            Ok(PageView::Leaf(entries)) => F::entry_for(entries, key),
            Ok(PageView::Internal(children)) => tree_search::<F>(
                objects,
                limits,
                F::child_page(children[F::child_for(children, key)]),
                (height - 1) as nat,
                key,
            ),
        }
    }
}

/// Whether a page is the root of a tree of at most a given height whose pages
/// decode and keep their bounds.
pub open spec fn tree_sound<F: TreeFormat>(
    objects: Objects,
    limits: DecodeLimits,
    page: ObjectView,
    lower: Option<F::Model>,
    upper: Option<F::Model>,
    height: nat,
) -> bool
    decreases height,
{
    &&& height > 0
    &&& objects(page) is Some
    &&& match F::page_decoded(objects(page)->0, limits) {
        Err(_) => false,
        Ok(PageView::Leaf(entries)) => F::entries_fit(entries, lower, upper),
        Ok(PageView::Internal(children)) => F::children_fit(children, lower, upper) && forall|i: int|
            0 <= i < children.len() ==> tree_sound::<F>(
                objects,
                limits,
                F::child_page(#[trigger] child_at(children, i)),
                Some(F::child_first(children[i])),
                child_upper::<F>(children, i, upper),
                (height - 1) as nat,
            ),
    }
}

/// Why a batch fails.
#[derive(Debug, PartialEq, Eq)]
pub enum BatchError {
    /// Cancellation occurred before a storage boundary.
    Cancelled,
    /// No query.
    Empty,
    /// More queries than admitted.
    TooManyQueries,
    /// The root is no page of the tree.
    WrongRootKind,
    /// Page or traversal bounds are invalid.
    InvalidLimits,
    /// The tree is higher than admitted.
    HeightExceeded,
    /// A page was reached twice.
    CycleOrAlias,
    /// A page disagrees with the bounds under which it was reached.
    ChildBoundsMismatch,
    /// No child can route a query.
    InvalidRouting,
    /// A bounded scratch allocation failed.
    AllocationFailed,
    /// Immutable object storage failed.
    Storage(ObjectStoreError),
    /// A page failed decoding.
    Decode(CanonicalDecodeError),
    /// Work overflowed or exceeded its budget.
    Work(WorkError),
}

/// A batch failure retaining the work spent.
pub type BatchFailure = OperationFailure<BatchError>;

/// Answers in the order of the queries.
#[derive(Debug, PartialEq, Eq)]
pub struct BatchReceipt<T> {
    /// One answer per query.
    pub values: Vec<Option<T>>,
    /// Work of the traversal and the backend.
    pub work: WorkCounters,
}

/// Why a batch is refused before any work.
pub open spec fn batch_problem<F: TreeFormat>(
    root: ObjectId,
    queries: nat,
    maximum_queries: u32,
    limits: DecodeLimits,
) -> Option<BatchError> {
    if queries == 0 {
        Some(BatchError::Empty)
    } else if queries > maximum_queries {
        Some(BatchError::TooManyQueries)
    } else if root.kind != F::page_kind() {
        Some(BatchError::WrongRootKind)
    } else if !limits.admits_pages(1) {
        Some(BatchError::InvalidLimits)
    } else {
        None
    }
}

/// Whether a failure is one that a sound tree leaves possible.
pub open spec fn batch_resources(error: BatchError) -> bool {
    error is CycleOrAlias || error is AllocationFailed || error is Storage || error is Work
}

/// A page to read, with the queries that lead to it.
#[verifier::ext_equal]
pub struct FrontierView<M> {
    /// Page to read.
    pub page: ObjectView,
    /// Key that the page begins at, if it is bounded.
    pub lower: Option<M>,
    /// Key that the page stays below, if it is bounded.
    pub upper: Option<M>,
    /// Levels that are admitted from here on.
    pub height: nat,
    /// Positions of the queries.
    pub queries: Seq<int>,
}

/// A batch between two reads.
#[verifier::ext_equal]
pub struct BatchState<M, V> {
    /// Pages to read, the next one last.
    pub pending: Seq<FrontierView<M>>,
    /// Pages read.
    pub visited: Set<ObjectView>,
    /// Number of pages read.
    pub pages: nat,
    /// Work spent.
    pub work: WorkCounters,
    /// Answers found.
    pub values: Seq<Option<V>>,
}

/// Why a batch fails, with the cause of a decoding failure as a value.
#[verifier::ext_equal]
pub enum BatchCause {
    /// A page does not decode.
    Undecodable(DecodeErrorView),
    /// Any other error.
    Refused(BatchError),
}

/// Whether an error has a cause.
pub open spec fn caused_by(error: BatchError, cause: BatchCause) -> bool {
    match cause {
        BatchCause::Undecodable(decoding) => error matches BatchError::Decode(found) && found@
            == decoding,
        BatchCause::Refused(refusal) => error == refusal,
    }
}

/// A failure as its cause and the work spent.
pub type BatchFailing = (BatchCause, WorkCounters);

/// The failure for a cause that is no decoding failure.
pub open spec fn batch_failing(error: BatchError, work: WorkCounters) -> BatchFailing {
    (BatchCause::Refused(error), work)
}

/// Answers once the first queries of a leaf have been looked up.
pub open spec fn leaf_answers<F: TreeFormat>(
    values: Seq<Option<<F::Entry as View>::V>>,
    entries: Seq<<F::Entry as View>::V>,
    keys: Seq<F::Model>,
    queries: Seq<int>,
    count: nat,
) -> Seq<Option<<F::Entry as View>::V>>
    decreases count,
{
    if count == 0 {
        values
    } else {
        leaf_answers::<F>(values, entries, keys, queries, (count - 1) as nat).update(
            queries[count - 1],
            F::entry_for(entries, keys[queries[count - 1]]),
        )
    }
}

/// How many of the first queries of a leaf are found.
pub open spec fn leaf_found<F: TreeFormat>(
    entries: Seq<<F::Entry as View>::V>,
    keys: Seq<F::Model>,
    queries: Seq<int>,
    count: nat,
) -> nat
    decreases count,
{
    if count == 0 {
        0
    } else {
        leaf_found::<F>(entries, keys, queries, (count - 1) as nat) + (if F::entry_for(
            entries,
            keys[queries[count - 1]],
        ) is Some {
            1nat
        } else {
            0nat
        })
    }
}

/// Queries that are routed to a child.
pub open spec fn routed_to<F: TreeFormat>(
    children: Seq<<F::Child as View>::V>,
    keys: Seq<F::Model>,
    queries: Seq<int>,
    child: int,
) -> Seq<int> {
    queries.filter(|query: int| F::child_for(children, keys[query]) == child)
}

/// Pages below an inner page that queries lead to, from the last child down to a
/// given one.
pub open spec fn descended<F: TreeFormat>(
    children: Seq<<F::Child as View>::V>,
    keys: Seq<F::Model>,
    item: FrontierView<F::Model>,
    from: int,
) -> Seq<FrontierView<F::Model>>
    decreases children.len() - from,
{
    if from < 0 || from >= children.len() {
        Seq::empty()
    } else {
        let later = descended::<F>(children, keys, item, from + 1);
        let queries = routed_to::<F>(children, keys, item.queries, from);
        if queries.len() == 0 {
            later
        } else {
            later.push(
                FrontierView {
                    page: F::child_page(children[from]),
                    lower: Some(F::child_first(children[from])),
                    upper: child_upper::<F>(children, from, item.upper),
                    height: (item.height - 1) as nat,
                    queries,
                },
            )
        }
    }
}

/// The batch once a page has been read and decoded.
pub open spec fn page_taken<F: TreeFormat>(
    keys: Seq<F::Model>,
    budget: WorkBudget,
    state: BatchState<F::Model, <F::Entry as View>::V>,
    page: PageView<<F::Entry as View>::V, <F::Child as View>::V>,
    work: WorkCounters,
) -> Result<BatchState<F::Model, <F::Entry as View>::V>, BatchFailing> {
    let item = state.pending.last();
    let rest = state.pending.drop_last();
    let visited = state.visited.insert(item.page);
    match page {
        PageView::Leaf(entries) => if !F::entries_fit(entries, item.lower, item.upper) {
            Err(batch_failing(BatchError::ChildBoundsMismatch, work))
        } else {
            let found = leaf_found::<F>(entries, keys, item.queries, item.queries.len());
            match charged(
                work,
                WorkCounters { items_returned: found as u64, ..no_work() },
                budget,
            ) {
                Err(error) => Err(batch_failing(BatchError::Work(error), work)),
                Ok(sum) => Ok(
                    BatchState {
                        pending: rest,
                        visited,
                        pages: state.pages + 1,
                        work: sum,
                        values: leaf_answers::<F>(
                            state.values,
                            entries,
                            keys,
                            item.queries,
                            item.queries.len(),
                        ),
                    },
                ),
            }
        },
        PageView::Internal(children) => if !F::children_fit(children, item.lower, item.upper) {
            Err(batch_failing(BatchError::ChildBoundsMismatch, work))
        } else {
            Ok(
                BatchState {
                    pending: rest + descended::<F>(children, keys, item, 0),
                    visited,
                    pages: state.pages + 1,
                    work,
                    values: state.values,
                },
            )
        },
    }
}

/// The batch after its next read.
pub open spec fn batch_step<S: ImmediateObjectStore, F: TreeFormat>(
    store: &S,
    keys: Seq<F::Model>,
    limits: DecodeLimits,
    budget: WorkBudget,
    state: BatchState<F::Model, <F::Entry as View>::V>,
) -> Result<BatchState<F::Model, <F::Entry as View>::V>, BatchFailing> {
    let item = state.pending.last();
    if item.height == 0 {
        Err(batch_failing(BatchError::HeightExceeded, state.work))
    } else if state.pages >= limits.maximum_visited_pages {
        Err(batch_failing(BatchError::AllocationFailed, state.work))
    } else if state.visited.contains(item.page) {
        Err(batch_failing(BatchError::CycleOrAlias, state.work))
    } else {
        match charged(state.work, WorkCounters { page_reads: 1, ..no_work() }, budget) {
            Err(error) => Err(batch_failing(BatchError::Work(error), state.work)),
            Ok(prospective) => {
                let request = RequestView {
                    object: item.page,
                    maximum_bytes: limits.page_object_bytes(),
                    remaining: left_over(prospective, budget),
                };
                match store.answers(request) {
                    Err(failure) => match total(prospective, failure.work) {
                        Ok(spent) => Err(batch_failing(BatchError::Storage(failure.error), spent)),
                        Err(error) => Err(batch_failing(BatchError::Work(error), prospective)),
                    },
                    Ok(read) => match total(prospective, read.work) {
                        Err(error) => Err(batch_failing(BatchError::Work(error), prospective)),
                        Ok(work) => if !within(work, budget) {
                            Err(batch_failing(BatchError::Work(WorkError::Exceeded), work))
                        } else {
                            match F::page_decoded(read.bytes, limits) {
                                Err(cause) => Err((BatchCause::Undecodable(cause), work)),
                                Ok(page) => page_taken::<F>(keys, budget, state, page, work),
                            }
                        },
                    },
                }
            },
        }
    }
}

/// What a batch comes to: the answers and the work, or the failure.
pub open spec fn batch_outcome<S: ImmediateObjectStore, F: TreeFormat>(
    store: &S,
    keys: Seq<F::Model>,
    limits: DecodeLimits,
    budget: WorkBudget,
    state: BatchState<F::Model, <F::Entry as View>::V>,
) -> Result<(Seq<Option<<F::Entry as View>::V>>, WorkCounters), BatchFailing>
    decreases limits.maximum_visited_pages - state.pages,
{
    if state.pending.len() == 0 {
        Ok((state.values, state.work))
    } else {
        match batch_step::<S, F>(store, keys, limits, budget, state) {
            Err(failing) => Err(failing),
            Ok(next) => if state.pages < limits.maximum_visited_pages && next.pages == state.pages
                + 1 {
                batch_outcome::<S, F>(store, keys, limits, budget, next)
            } else {
                Err(batch_failing(BatchError::AllocationFailed, state.work))
            },
        }
    }
}

/// A batch that has read nothing.
pub open spec fn batch_begun<F: TreeFormat>(
    root: ObjectView,
    keys: nat,
    limits: DecodeLimits,
) -> BatchState<F::Model, <F::Entry as View>::V> {
    BatchState {
        pending: seq![
            FrontierView {
                page: root,
                lower: None,
                upper: None,
                height: limits.maximum_page_height as nat,
                queries: Seq::new(keys, |i: int| i),
            },
        ],
        visited: Set::empty(),
        pages: 0,
        work: no_work(),
        values: Seq::new(keys, |i: int| None),
    }
}

/// Positions as numbers.
spec fn positions(queries: Seq<usize>) -> Seq<int> {
    Seq::new(queries.len(), |i: int| queries[i] as int)
}

/// Abstract value of a page to read.
spec fn frontier_view<F: TreeFormat>(item: Frontier<F::Key>) -> FrontierView<F::Model> {
    FrontierView {
        page: item.page@,
        lower: bound_model::<F>(item.lower),
        upper: bound_model::<F>(item.upper),
        height: item.height as nat,
        queries: positions(item.queries@),
    }
}

/// Abstract values of pages to read.
spec fn frontier_views<F: TreeFormat>(items: Seq<Frontier<F::Key>>) -> Seq<
    FrontierView<F::Model>,
> {
    Seq::new(items.len(), |i: int| frontier_view::<F>(items[i]))
}

/// Abstract values of answers.
spec fn answer_views<F: TreeFormat>(values: Seq<Option<F::Entry>>) -> Seq<
    Option<<F::Entry as View>::V>,
> {
    Seq::new(values.len(), |i: int| found_view(values[i]))
}

/// A filter of one more element.
proof fn lemma_filter_next(queries: Seq<int>, j: int, keep: spec_fn(int) -> bool)
    requires
        0 <= j < queries.len(),
    ensures
        queries.take(j + 1).filter(keep) == if keep(queries[j]) {
            queries.take(j).filter(keep).push(queries[j])
        } else {
            queries.take(j).filter(keep)
        },
{
    reveal(Seq::filter);
    assert(queries.take(j + 1).drop_last() =~= queries.take(j));
}

/// A page to read, with the queries that lead to it.
struct Frontier<K> {
    page: ObjectId,
    lower: Option<K>,
    upper: Option<K>,
    height: u16,
    queries: Vec<usize>,
}

/// Abstract keys of a batch.
pub open spec fn key_models<F: TreeFormat>(keys: Seq<F::Key>) -> Seq<F::Model> {
    Seq::new(keys.len(), |i: int| F::model(keys[i]))
}

/// What a batch is about.
struct Batch<F: TreeFormat> {
    limits: DecodeLimits,
    root: ObjectView,
    height: nat,
    keys: Seq<F::Model>,
}

/// What the whole tree answers to a query.
spec fn answer<F: TreeFormat>(objects: Objects, batch: Batch<F>, query: int) -> Option<
    <F::Entry as View>::V,
> {
    tree_search::<F>(objects, batch.limits, batch.root, batch.height, batch.keys[query])
}

/// Whether a query is answered by the subtree of a page.
spec fn led<F: TreeFormat>(
    objects: Objects,
    batch: Batch<F>,
    item: Frontier<F::Key>,
    query: int,
) -> bool {
    answer::<F>(objects, batch, query) == tree_search::<F>(
        objects,
        batch.limits,
        item.page@,
        item.height as nat,
        batch.keys[query],
    )
}

/// Whether the whole tree is sound.
spec fn whole_sound<F: TreeFormat>(objects: Objects, batch: Batch<F>) -> bool {
    tree_sound::<F>(objects, batch.limits, batch.root, None, None, batch.height)
}

/// Whether the queries of a page are answered by its subtree, which is sound if
/// the whole tree is.
spec fn leads<F: TreeFormat>(objects: Objects, batch: Batch<F>, item: Frontier<F::Key>) -> bool {
    &&& forall|j: int|
        0 <= j < item.queries@.len() ==> led::<F>(
            objects,
            batch,
            item,
            #[trigger] item.queries@[j] as int,
        )
    &&& whole_sound::<F>(objects, batch) ==> tree_sound::<F>(
        objects,
        batch.limits,
        item.page@,
        bound_model::<F>(item.lower),
        bound_model::<F>(item.upper),
        item.height as nat,
    )
}

/// Whether all pages that wait lead to the answers of their queries.
spec fn all_lead<F: TreeFormat>(
    objects: Objects,
    batch: Batch<F>,
    pending: Seq<Frontier<F::Key>>,
) -> bool {
    forall|i: int| 0 <= i < pending.len() ==> leads::<F>(objects, batch, #[trigger] pending[i])
}

/// Whether settled queries hold their answers.
spec fn all_answered<F: TreeFormat>(
    objects: Objects,
    batch: Batch<F>,
    values: Seq<Option<F::Entry>>,
    settled: Set<int>,
) -> bool {
    forall|q: int| #[trigger]
        settled.contains(q) ==> found_view(values[q]) == answer::<F>(objects, batch, q)
}

/// Whether a query waits among some.
spec fn among(queries: Seq<usize>, query: int) -> bool {
    exists|j: int| 0 <= j < queries.len() && #[trigger] queries[j] == query
}

/// Whether a query waits at some page.
spec fn waits<K>(pending: Seq<Frontier<K>>, query: int) -> bool {
    exists|i: int| 0 <= i < pending.len() && among((#[trigger] pending[i]).queries@, query)
}

/// Whether all queries that wait are queries of the batch.
spec fn in_range<K>(pending: Seq<Frontier<K>>, count: nat) -> bool {
    forall|i: int, j: int|
        0 <= i < pending.len() && 0 <= j < pending[i].queries@.len() ==> (
        #[trigger] pending[i].queries@[j]) < count
}

/// Whether a query of a page still waits for its child, or waits at the child's page.
spec fn placed<F: TreeFormat>(
    children: Seq<<F::Child as View>::V>,
    batch: Batch<F>,
    buckets: Seq<Vec<usize>>,
    pending: Seq<Frontier<F::Key>>,
    from: int,
    query: int,
) -> bool {
    let at = F::child_for(children, batch.keys[query]);
    &&& 0 <= at < children.len()
    &&& if at < from {
        among(buckets[at]@, query)
    } else {
        waits(pending, query)
    }
}

/// A child's page leads to the answers of the queries routed to it.
proof fn lemma_child_leads<F: TreeFormat>(
    objects: Objects,
    batch: Batch<F>,
    item: Frontier<F::Key>,
    bytes: Seq<u8>,
    children: Seq<<F::Child as View>::V>,
    at: int,
    next: Frontier<F::Key>,
)
    requires
        leads::<F>(objects, batch, item),
        item.height > 0,
        objects(item.page@) == Some(bytes),
        F::page_decoded(bytes, batch.limits) == Ok::<
            PageView<<F::Entry as View>::V, <F::Child as View>::V>,
            DecodeErrorView,
        >(PageView::Internal(children)),
        0 <= at < children.len(),
        next.page@ == F::child_page(children[at]),
        bound_model::<F>(next.lower) == Some(F::child_first(children[at])),
        bound_model::<F>(next.upper) == child_upper::<F>(
            children,
            at,
            bound_model::<F>(item.upper),
        ),
        next.height == item.height - 1,
        forall|k: int|
            0 <= k < next.queries@.len() ==> among(
                item.queries@,
                #[trigger] next.queries@[k] as int,
            ) && F::child_for(children, batch.keys[next.queries@[k] as int]) == at,
    ensures
        leads::<F>(objects, batch, next),
{
    assert forall|k: int| 0 <= k < next.queries@.len() implies led::<F>(
        objects,
        batch,
        next,
        #[trigger] next.queries@[k] as int,
    ) by {
        let q = next.queries@[k] as int;
        assert(among(item.queries@, q));
        let j = choose|j: int| 0 <= j < item.queries@.len() && #[trigger] item.queries@[j] == q;
        assert(led::<F>(objects, batch, item, item.queries@[j] as int));
    }
    if whole_sound::<F>(objects, batch) {
        assert(F::child_page(child_at(children, at)) == next.page@);
    }
}

/// Whether a batch is settled as its outcome says. More pages than a table of them can
/// hold are an allocation failure.
pub open spec fn batch_settled<S: ImmediateObjectStore, F: TreeFormat>(
    store: &S,
    root: ObjectView,
    keys: Seq<F::Model>,
    limits: DecodeLimits,
    budget: WorkBudget,
    r: Result<BatchReceipt<F::Entry>, BatchFailure>,
) -> bool {
    let begun = batch_begun::<F>(root, keys.len(), limits);
    ||| match batch_outcome::<S, F>(store, keys, limits, budget, begun) {
        Ok((values, work)) => r matches Ok(receipt) && receipt.work == work
            && receipt.values@.len() == values.len() && forall|q: int|
            0 <= q < values.len() ==> found_view(#[trigger] receipt.values@[q]) == values[q],
        Err(failing) => r matches Err(failure) && caused_by(failure.error, failing.0)
            && failure.work == failing.1,
    }
    ||| limits.maximum_visited_pages > usize::MAX / 4 && (r matches Err(failure)
        && failure.error is AllocationFailed)
}

/// Answers a batch of queries, reading every page at most once.
pub fn lookup_batch<S: ImmediateObjectStore, F: TreeFormat>(
    store: &S,
    root: ObjectId,
    keys: &Vec<F::Key>,
    maximum_queries: u32,
    limits: DecodeLimits,
    budget: WorkBudget,
) -> (r: Result<BatchReceipt<F::Entry>, BatchFailure>)
    ensures
        match batch_problem::<F>(root, keys@.len(), maximum_queries, limits) {
            Some(problem) => r matches Err(failure) && failure.error == problem && failure.work
                == no_work(),
            None => batch_settled::<S, F>(store, root@, key_models::<F>(keys@), limits, budget, r),
        },
        batch_problem::<F>(root, keys@.len(), maximum_queries, limits) is None ==> {
            match r {
                Ok(receipt) => receipt.values@.len() == keys@.len() && within(receipt.work, budget)
                    && forall|objects: Objects, q: int|
                    #![trigger serves(store, objects), receipt.values@[q]]
                    serves(store, objects) && 0 <= q < keys@.len() ==> found_view(
                        receipt.values@[q],
                    ) == tree_search::<F>(
                        objects,
                        limits,
                        root@,
                        limits.maximum_page_height as nat,
                        F::model(keys@[q]),
                    ),
                Err(failure) => !(failure.error is Empty) && !(failure.error is TooManyQueries)
                    && !(failure.error is WrongRootKind) && !(failure.error is InvalidLimits)
                    && forall|objects: Objects| #[trigger]
                    serves(store, objects) && tree_sound::<F>(
                        objects,
                        limits,
                        root@,
                        None,
                        None,
                        limits.maximum_page_height as nat,
                    ) ==> batch_resources(failure.error),
            }
        },
{
    if keys.len() == 0 {
        return Err(OperationFailure::before_work(BatchError::Empty));
    }
    if keys.len() as u64 > maximum_queries as u64 {
        return Err(OperationFailure::before_work(BatchError::TooManyQueries));
    }
    if root.kind != F::kind() {
        return Err(OperationFailure::before_work(BatchError::WrongRootKind));
    }
    if !limits.page_limits_valid(1) {
        return Err(OperationFailure::before_work(BatchError::InvalidLimits));
    }
    let ghost batch = Batch::<F> {
        limits,
        root: root@,
        height: limits.maximum_page_height as nat,
        keys: key_models::<F>(keys@),
    };
    let count = keys.len();
    let mut values: Vec<Option<F::Entry>> = Vec::new();
    let mut queries: Vec<usize> = Vec::new();
    while queries.len() < count
        invariant
            forall|j: int| 0 <= j < values@.len() ==> (#[trigger] values@[j]) is None,
            queries@.len() <= count,
            values@.len() == queries@.len(),
            forall|j: int| 0 <= j < queries@.len() ==> queries@[j] == j,
        decreases count - queries@.len(),
    {
        let next = queries.len();
        queries.push(next);
        values.push(None);
    }
    let first = Frontier {
        page: root,
        lower: None,
        upper: None,
        height: limits.maximum_page_height,
        queries,
    };
    let mut pending: Vec<Frontier<F::Key>> = Vec::new();
    pending.push(first);
    let mut visited = ObjectTable::new(16);
    let mut pages: u64 = 0;
    let mut work = WorkCounters::default();
    let ghost mut settled = Set::<int>::empty();
    let ghost goal = batch_outcome::<S, F>(
        store,
        batch.keys,
        limits,
        budget,
        batch_begun::<F>(root@, count as nat, limits),
    );
    proof {
        let begun = batch_begun::<F>(root@, count as nat, limits);
        assert(frontier_views::<F>(pending@) =~= begun.pending) by {
            assert(positions(first.queries@) =~= begun.pending[0].queries);
        }
        assert(answer_views::<F>(values@) =~= begun.values);
        assert(visited@ =~= begun.visited);
        assert forall|q: int| 0 <= q < count implies #[trigger] waits(pending@, q) by {
            assert(pending@[0].queries@[q] == q);
        }
        assert forall|objects: Objects| #[trigger] serves(store, objects) implies all_lead::<F>(
            objects,
            batch,
            pending@,
        ) by {
            assert(pending@[0] == first);
        }
    }
    while pending.len() > 0
        invariant
            count == keys@.len(),
            batch == (Batch::<F> {
                limits,
                root: root@,
                height: limits.maximum_page_height as nat,
                keys: key_models::<F>(keys@),
            }),
            values@.len() == count,
            in_range(pending@, count as nat),
            forall|q: int|
                0 <= q < count ==> settled.contains(q) || #[trigger] waits(pending@, q),
            forall|q: int| #[trigger] settled.contains(q) ==> 0 <= q < count,
            forall|objects: Objects| #[trigger]
                serves(store, objects) ==> all_lead::<F>(objects, batch, pending@) && all_answered::<F>(
                    objects,
                    batch,
                    values@,
                    settled,
                ),
            batch_problem::<F>(root, keys@.len(), maximum_queries, limits) is None,
            pages <= limits.maximum_visited_pages,
            settled.contains(0) ==> within(work, budget),
            visited@.finite(),
            visited@.len() <= pages,
            goal == batch_outcome::<S, F>(
                store,
                batch.keys,
                limits,
                budget,
                batch_begun::<F>(root@, count as nat, limits),
            ),
            goal == batch_outcome::<S, F>(
                store,
                batch.keys,
                limits,
                budget,
                (BatchState {
                    pending: frontier_views::<F>(pending@),
                    visited: visited@,
                    pages: pages as nat,
                    work,
                    values: answer_views::<F>(values@),
                }),
            ),
        decreases limits.maximum_visited_pages - pages,
    {
        let ghost waiting = pending@;
        let ghost state = BatchState::<F::Model, <F::Entry as View>::V> {
            pending: frontier_views::<F>(pending@),
            visited: visited@,
            pages: pages as nat,
            work,
            values: answer_views::<F>(values@),
        };
        let ghost given = values@;
        let item = match pending.pop() {
            Some(item) => item,
            None => {
                return Err(OperationFailure::new(BatchError::InvalidRouting, work));
            },
        };
        let ghost rest = pending@;
        proof {
            assert(state.pending.last() == frontier_view::<F>(item));
            assert(state.pending.drop_last() =~= frontier_views::<F>(rest));
            assert(waiting =~= rest.push(item));
            assert(waiting[rest.len() as int] == item);
            assert forall|objects: Objects| #[trigger] serves(store, objects) implies leads::<F>(
                objects,
                batch,
                item,
            ) && all_lead::<F>(objects, batch, rest) by {
                assert(all_lead::<F>(objects, batch, waiting));
                assert forall|i: int| 0 <= i < rest.len() implies leads::<F>(
                    objects,
                    batch,
                    #[trigger] rest[i],
                ) by {
                    assert(waiting[i] == rest[i]);
                }
            }
        }
        if item.height == 0 {
            return Err(OperationFailure::new(BatchError::HeightExceeded, work));
        }
        if pages >= limits.maximum_visited_pages as u64 {
            return Err(OperationFailure::new(BatchError::AllocationFailed, work));
        }
        pages = pages + 1;
        match visited.insert(item.page) {
            Some(true) => {},
            Some(false) => {
                return Err(OperationFailure::new(BatchError::CycleOrAlias, work));
            },
            None => {
                return Err(OperationFailure::new(BatchError::AllocationFailed, work));
            },
        }
        let prospective = match work.checked_add(WorkCounters::of_page_reads(1)) {
            Ok(sum) => sum,
            Err(error) => {
                return Err(OperationFailure::new(BatchError::Work(error), work));
            },
        };
        let remaining = match prospective.remaining(budget) {
            Ok(remaining) => remaining,
            Err(error) => {
                return Err(OperationFailure::new(BatchError::Work(error), work));
            },
        };
        let request = ReadRequest {
            object: item.page,
            maximum_bytes: limits.maximum_page_object_bytes(),
            remaining,
        };
        let read = match store.read(&request) {
            Ok(read) => read,
            Err(failure) => {
                return Err(
                    match prospective.checked_add(failure.work) {
                        Ok(spent) => OperationFailure::new(
                            BatchError::Storage(failure.error),
                            spent,
                        ),
                        Err(error) => OperationFailure::new(BatchError::Work(error), prospective),
                    },
                );
            },
        };
        proof {
            assert forall|objects: Objects| #[trigger] serves(store, objects) implies objects(
                item.page@,
            ) == Some(read.bytes@) by {
                assert(store.answers(request@) is Ok);
            }
        }
        let ghost answers = answer_views::<F>(values@);
        let ghost line = positions(item.queries@);
        work = match prospective.checked_add(read.work) {
            Ok(sum) => sum,
            Err(error) => {
                return Err(OperationFailure::new(BatchError::Work(error), prospective));
            },
        };
        if let Err(error) = work.verify(budget) {
            return Err(OperationFailure::new(BatchError::Work(error), work));
        }
        let page = match F::decode(read.bytes.as_slice(), limits) {
            Ok(page) => page,
            Err(error) => {
                return Err(OperationFailure::new(BatchError::Decode(error), work));
            },
        };
        match page {
            Page::Leaf(entries) => {
                let ghost all = views(entries@);
                if !F::entries_within(&entries, &item.lower, &item.upper) {
                    return Err(OperationFailure::new(BatchError::ChildBoundsMismatch, work));
                }
                let mut returned: u64 = 0;
                let mut j: usize = 0;
                while j < item.queries.len()
                    invariant
                        j <= item.queries@.len(),
                        returned <= j,
                        line == positions(item.queries@),
                        answers.len() == count,
                        returned == leaf_found::<F>(all, batch.keys, line, j as nat),
                        answer_views::<F>(values@) == leaf_answers::<F>(
                            answers,
                            all,
                            batch.keys,
                            line,
                            j as nat,
                        ),
                        count == keys@.len(),
                        values@.len() == count,
                        all == views(entries@),
                        F::page_decoded(read.bytes@, limits) == Ok::<
                            PageView<<F::Entry as View>::V, <F::Child as View>::V>,
                            DecodeErrorView,
                        >(PageView::Leaf(all)),
                        item.height > 0,
                        batch.keys == key_models::<F>(keys@),
                        batch.limits == limits,
                        forall|i: int|
                            0 <= i < item.queries@.len() ==> #[trigger] item.queries@[i] < count,
                        forall|i: int|
                            0 <= i < j ==> settled.contains(#[trigger] item.queries@[i] as int),
                        forall|q: int|
                            0 <= q < count ==> settled.contains(q) || #[trigger] waits(
                                rest.push(item),
                                q,
                            ),
                        forall|q: int| #[trigger] settled.contains(q) ==> 0 <= q < count,
                        forall|objects: Objects| #[trigger]
                            serves(store, objects) ==> leads::<F>(objects, batch, item) && objects(
                                item.page@,
                            ) == Some(read.bytes@) && all_answered::<F>(
                                objects,
                                batch,
                                values@,
                                settled,
                            ),
                    decreases item.queries@.len() - j,
                {
                    let query = item.queries[j];
                    proof {
                        F::decoded_in_order(read.bytes@, limits, F::model(keys@[query as int]));
                    }
                    let found = F::find(&entries, &keys[query]);
                    if found.is_some() {
                        returned = returned + 1;
                    }
                    let ghost before = values@;
                    let ghost answer_here = found_view(found);
                    values.set(query, found);
                    proof {
                        assert(line[j as int] == query);
                        assert(batch.keys[query as int] == F::model(keys@[query as int]));
                        assert(answer_views::<F>(values@) =~= answer_views::<F>(before).update(
                            query as int,
                            answer_here,
                        ));
                        let ghost earlier = settled;
                        settled = settled.insert(query as int);
                        assert forall|objects: Objects| #[trigger]
                            serves(store, objects) implies all_answered::<F>(
                            objects,
                            batch,
                            values@,
                            settled,
                        ) by {
                            assert(leads::<F>(objects, batch, item));
                            assert(led::<F>(objects, batch, item, item.queries@[j as int] as int));
                            assert forall|q: int| #[trigger] settled.contains(q) implies found_view(
                                values@[q],
                            ) == answer::<F>(objects, batch, q) by {
                                if q != query {
                                    assert(earlier.contains(q));
                                    assert(values@[q] == before[q]);
                                } else {
                                    assert(batch.keys[q] == F::model(keys@[q]));
                                }
                            }
                        }
                    }
                    j = j + 1;
                }
                proof {
                    assert forall|q: int| 0 <= q < count implies settled.contains(q)
                        || #[trigger] waits(rest, q) by {
                        assert(settled.contains(q) || waits(rest.push(item), q));
                        if !settled.contains(q) {
                            let i = choose|i: int|
                                0 <= i < rest.push(item).len() && among(
                                    (#[trigger] rest.push(item)[i]).queries@,
                                    q,
                                );
                            if i < rest.len() {
                                assert(rest.push(item)[i] == rest[i]);
                            } else {
                                assert(rest.push(item)[i] == item);
                                let k = choose|k: int|
                                    0 <= k < item.queries@.len() && #[trigger] item.queries@[k] == q;
                                assert(settled.contains(item.queries@[k] as int));
                            }
                        }
                    }
                }
                work = match work.charge(WorkCounters::of_items_returned(returned), budget) {
                    Ok(work) => work,
                    Err(error) => {
                        return Err(OperationFailure::new(BatchError::Work(error), work));
                    },
                };
            },
            Page::Internal(children) => {
                if !F::children_within(&children, &item.lower, &item.upper) {
                    return Err(OperationFailure::new(BatchError::ChildBoundsMismatch, work));
                }
                descend::<S, F>(store, &item, &children, keys, &mut pending, Ghost(batch), Ghost(read.bytes@));
                proof {
                    assert forall|q: int| 0 <= q < count implies settled.contains(q)
                        || #[trigger] waits(pending@, q) by {
                        assert(settled.contains(q) || waits(waiting, q));
                    }
                }
            },
        }
    }
    proof {
        assert forall|q: int| 0 <= q < count implies #[trigger] settled.contains(q) by {
            assert(settled.contains(q) || waits(pending@, q));
        }
        assert(settled.contains(0));
        assert forall|objects: Objects, q: int|
            #![trigger serves(store, objects), values@[q]]
            serves(store, objects) && 0 <= q < count implies found_view(values@[q])
            == tree_search::<F>(
            objects,
            limits,
            root@,
            limits.maximum_page_height as nat,
            F::model(keys@[q]),
        ) by {
            assert(settled.contains(q));
            assert(found_view(values@[q]) == answer::<F>(objects, batch, q));
        }
    }
    assert(frontier_views::<F>(pending@).len() == 0);
    assert(answer_views::<F>(values@).len() == values@.len());
    assert forall|q: int| 0 <= q < values@.len() implies found_view(#[trigger] values@[q])
        == answer_views::<F>(values@)[q] by {}
    Ok(BatchReceipt { values, work })
}

/// Distributes the queries of a page over its children.
fn descend<S: ImmediateObjectStore, F: TreeFormat>(
    store: &S,
    item: &Frontier<F::Key>,
    children: &Vec<F::Child>,
    keys: &Vec<F::Key>,
    pending: &mut Vec<Frontier<F::Key>>,
    Ghost(batch): Ghost<Batch<F>>,
    Ghost(bytes): Ghost<Seq<u8>>,
)
    requires
        item.height > 0,
        batch.keys == key_models::<F>(keys@),
        F::page_decoded(bytes, batch.limits) == Ok::<
            PageView<<F::Entry as View>::V, <F::Child as View>::V>,
            DecodeErrorView,
        >(PageView::Internal(views(children@))),
        in_range(old(pending)@.push(*item), keys@.len()),
        forall|objects: Objects| #[trigger]
            serves(store, objects) ==> leads::<F>(objects, batch, *item) && objects(item.page@)
                == Some(bytes) && all_lead::<F>(objects, batch, old(pending)@),
    ensures
        in_range(final(pending)@, keys@.len()),
        forall|objects: Objects| #[trigger]
            serves(store, objects) ==> all_lead::<F>(objects, batch, final(pending)@),
        forall|q: int| #[trigger]
            waits(old(pending)@.push(*item), q) ==> waits(final(pending)@, q),
        frontier_views::<F>(final(pending)@) == frontier_views::<F>(old(pending)@)
            + descended::<F>(views(children@), batch.keys, frontier_view::<F>(*item), 0),
{
    let ghost rest = pending@;
    let ghost all = views(children@);
    let ghost seen = frontier_view::<F>(*item);
    let ghost line = positions(item.queries@);
    let size = children.len();
    proof {
        assert(rest.push(*item)[rest.len() as int] == *item);
        assert forall|j: int| 0 <= j < item.queries@.len() implies (#[trigger] item.queries@[j])
            < keys@.len() by {
            assert(rest.push(*item)[rest.len() as int].queries@[j] == item.queries@[j]);
        }
        assert forall|i: int, j: int|
            0 <= i < rest.len() && 0 <= j < rest[i].queries@.len() implies (
        #[trigger] rest[i].queries@[j]) < keys@.len() by {
            assert(rest.push(*item)[i].queries@[j] == rest[i].queries@[j]);
        }
        if item.queries@.len() > 0 {
            F::decoded_in_order(bytes, batch.limits, F::model(keys@[item.queries@[0] as int]));
        }
    }
    let mut buckets: Vec<Vec<usize>> = Vec::new();
    while buckets.len() < size
        invariant
            buckets@.len() <= size,
            forall|c: int| 0 <= c < buckets@.len() ==> (#[trigger] buckets@[c])@.len() == 0,
        decreases size - buckets@.len(),
    {
        buckets.push(Vec::new());
    }
    proof {
        reveal(Seq::filter);
        assert forall|c: int| 0 <= c < size implies positions((#[trigger] buckets@[c])@)
            == routed_to::<F>(all, batch.keys, line.take(0), c) by {
            assert(line.take(0).len() == 0);
            assert(positions(buckets@[c]@) =~= Seq::<int>::empty());
        }
    }
    let mut j: usize = 0;
    while j < item.queries.len()
        invariant
            j <= item.queries@.len(),
            buckets@.len() == size,
            size == children@.len(),
            all == views(children@),
            batch.keys == key_models::<F>(keys@),
            F::page_decoded(bytes, batch.limits) == Ok::<
                PageView<<F::Entry as View>::V, <F::Child as View>::V>,
                DecodeErrorView,
            >(PageView::Internal(all)),
            forall|k: int| 0 <= k < item.queries@.len() ==> (#[trigger] item.queries@[k]) < keys@.len(),
            line == positions(item.queries@),
            forall|c: int|
                0 <= c < size ==> positions((#[trigger] buckets@[c])@) == routed_to::<F>(
                    all,
                    batch.keys,
                    line.take(j as int),
                    c,
                ),
            forall|c: int, k: int|
                0 <= c < size && 0 <= k < buckets@[c]@.len() ==> among(
                    item.queries@,
                    #[trigger] buckets@[c]@[k] as int,
                ) && F::child_for(all, batch.keys[buckets@[c]@[k] as int]) == c,
            forall|k: int|
                0 <= k < j ==> placed::<F>(
                    all,
                    batch,
                    buckets@,
                    rest,
                    size as int,
                    #[trigger] item.queries@[k] as int,
                ),
        decreases item.queries@.len() - j,
    {
        let query = item.queries[j];
        proof {
            F::decoded_in_order(bytes, batch.limits, F::model(keys@[query as int]));
        }
        let at = F::route(children, &keys[query]);
        let ghost before = buckets@;
        buckets[at].push(query);
        proof {
            let c = at as int;
            assert(batch.keys[query as int] == F::model(keys@[query as int]));
            assert(buckets@[c]@ == before[c]@.push(query));
            assert(buckets@[c]@[before[c]@.len() as int] == query);
            assert(item.queries@[j as int] == query);
            assert(line[j as int] == query);
            assert forall|d: int| 0 <= d < size implies positions((#[trigger] buckets@[d])@)
                == routed_to::<F>(all, batch.keys, line.take(j + 1), d) by {
                let keep = |query: int| F::child_for(all, batch.keys[query]) == d;
                lemma_filter_next(line, j as int, keep);
                assert(positions(before[d]@) == routed_to::<F>(
                    all,
                    batch.keys,
                    line.take(j as int),
                    d,
                ));
                if d == c {
                    assert(positions(buckets@[d]@) =~= positions(before[d]@).push(query as int));
                } else {
                    assert(buckets@[d] == before[d]);
                }
            }
            assert forall|d: int, k: int|
                0 <= d < size && 0 <= k < buckets@[d]@.len() implies among(
                item.queries@,
                #[trigger] buckets@[d]@[k] as int,
            ) && F::child_for(all, batch.keys[buckets@[d]@[k] as int]) == d by {
                if d != c {
                    assert(buckets@[d] == before[d]);
                } else if k < before[c]@.len() {
                    assert(buckets@[d]@[k] == before[d]@[k]);
                }
            }
            assert forall|k: int| 0 <= k < j + 1 implies placed::<F>(
                all,
                batch,
                buckets@,
                rest,
                size as int,
                #[trigger] item.queries@[k] as int,
            ) by {
                let q = item.queries@[k] as int;
                let d = F::child_for(all, batch.keys[q]);
                if k < j {
                    assert(placed::<F>(all, batch, before, rest, size as int, q));
                    let e = choose|e: int| 0 <= e < before[d]@.len() && #[trigger] before[d]@[e] == q;
                    if d != c {
                        assert(buckets@[d] == before[d]);
                    }
                    assert(buckets@[d]@[e] == before[d]@[e]);
                }
            }
        }
        j = j + 1;
    }
    proof {
        assert(line.take(j as int) =~= line);
        assert(descended::<F>(all, batch.keys, seen, size as int) =~= Seq::<
            FrontierView<F::Model>,
        >::empty());
        assert(frontier_views::<F>(pending@) =~= frontier_views::<F>(rest) + descended::<F>(
            all,
            batch.keys,
            seen,
            size as int,
        ));
    }
    let mut c: usize = size;
    while c > 0
        invariant
            seen == frontier_view::<F>(*item),
            line == positions(item.queries@),
            forall|d: int|
                0 <= d < c ==> positions((#[trigger] buckets@[d])@) == routed_to::<F>(
                    all,
                    batch.keys,
                    line,
                    d,
                ),
            frontier_views::<F>(pending@) == frontier_views::<F>(rest) + descended::<F>(
                all,
                batch.keys,
                seen,
                c as int,
            ),
            c <= size,
            size == children@.len(),
            buckets@.len() == c,
            all == views(children@),
            item.height > 0,
            rest.len() <= pending@.len(),
            in_range(pending@, keys@.len()),
            forall|k: int| 0 <= k < item.queries@.len() ==> (#[trigger] item.queries@[k]) < keys@.len(),
            forall|i: int| 0 <= i < rest.len() ==> #[trigger] pending@[i] == rest[i],
            forall|d: int, k: int|
                0 <= d < c && 0 <= k < buckets@[d]@.len() ==> among(
                    item.queries@,
                    #[trigger] buckets@[d]@[k] as int,
                ) && F::child_for(all, batch.keys[buckets@[d]@[k] as int]) == d,
            forall|k: int|
                0 <= k < item.queries@.len() ==> placed::<F>(
                    all,
                    batch,
                    buckets@,
                    pending@,
                    c as int,
                    #[trigger] item.queries@[k] as int,
                ),
            F::page_decoded(bytes, batch.limits) == Ok::<
                PageView<<F::Entry as View>::V, <F::Child as View>::V>,
                DecodeErrorView,
            >(PageView::Internal(all)),
            forall|objects: Objects| #[trigger]
                serves(store, objects) ==> leads::<F>(objects, batch, *item) && objects(item.page@)
                    == Some(bytes) && all_lead::<F>(objects, batch, pending@),
        decreases c,
    {
        let ghost held = pending@;
        let ghost parts = buckets@;
        let ghost last = c as int;
        c = c - 1;
        let queries = match buckets.pop() {
            Some(queries) => queries,
            None => Vec::new(),
        };
        assert(queries@ == parts[c as int]@);
        assert(positions(queries@) == routed_to::<F>(all, batch.keys, line, c as int));
        assert(forall|d: int| 0 <= d < c ==> #[trigger] buckets@[d] == parts[d]);
        if queries.len() > 0 {
            let upper = if c + 1 < size {
                Some(F::first_of(&children[c + 1]))
            } else {
                match &item.upper {
                    Some(upper) => Some(F::copy_key(upper)),
                    None => None,
                }
            };
            let next = Frontier {
                page: F::page_of(&children[c]),
                lower: Some(F::first_of(&children[c])),
                upper,
                height: item.height - 1,
                queries,
            };
            pending.push(next);
            proof {
                assert(all[c as int] == children@[c as int]@);
                assert(frontier_views::<F>(pending@) =~= frontier_views::<F>(held).push(
                    frontier_view::<F>(next),
                ));
                assert(frontier_view::<F>(next) =~= FrontierView {
                    page: F::child_page(all[c as int]),
                    lower: Some(F::child_first(all[c as int])),
                    upper: child_upper::<F>(all, c as int, seen.upper),
                    height: (seen.height - 1) as nat,
                    queries: routed_to::<F>(all, batch.keys, line, c as int),
                });
                assert(frontier_views::<F>(pending@) =~= frontier_views::<F>(rest)
                    + descended::<F>(all, batch.keys, seen, c as int));
                if c + 1 < size {
                    assert(all[c + 1] == children@[c + 1]@);
                }
                assert forall|k: int| 0 <= k < next.queries@.len() implies among(
                    item.queries@,
                    #[trigger] next.queries@[k] as int,
                ) && F::child_for(all, batch.keys[next.queries@[k] as int]) == c by {
                    assert(parts[c as int]@[k] == next.queries@[k]);
                }
                assert forall|objects: Objects| #[trigger] serves(store, objects) implies all_lead::<F>(
                    objects,
                    batch,
                    pending@,
                ) by {
                    lemma_child_leads::<F>(objects, batch, *item, bytes, all, c as int, next);
                    assert(all_lead::<F>(objects, batch, held));
                    assert forall|i: int| 0 <= i < pending@.len() implies leads::<F>(
                        objects,
                        batch,
                        #[trigger] pending@[i],
                    ) by {
                        if i < held.len() {
                            assert(pending@[i] == held[i]);
                        }
                    }
                }
                assert forall|i: int, j: int|
                    0 <= i < pending@.len() && 0 <= j < pending@[i].queries@.len() implies (
                #[trigger] pending@[i].queries@[j]) < keys@.len() by {
                    if i < held.len() {
                        assert(pending@[i] == held[i]);
                        assert(held[i].queries@[j] < keys@.len());
                    } else {
                        assert(among(item.queries@, next.queries@[j] as int));
                    }
                }
            }
        }
        proof {
            assert forall|k: int| 0 <= k < item.queries@.len() implies placed::<F>(
                all,
                batch,
                buckets@,
                pending@,
                c as int,
                #[trigger] item.queries@[k] as int,
            ) by {
                let q = item.queries@[k] as int;
                let d = F::child_for(all, batch.keys[q]);
                assert(placed::<F>(all, batch, parts, held, last, q));
                if d > c {
                    let i = choose|i: int| 0 <= i < held.len() && among((#[trigger] held[i]).queries@, q);
                    assert(pending@[i] == held[i]);
                } else if d == c {
                    assert(pending@[held.len() as int].queries@ == parts[d]@);
                }
            }
        }
    }
    proof {
        assert forall|q: int| #[trigger] waits(rest.push(*item), q) implies waits(pending@, q) by {
            let i = choose|i: int|
                0 <= i < rest.push(*item).len() && among(
                    (#[trigger] rest.push(*item)[i]).queries@,
                    q,
                );
            if i < rest.len() {
                assert(rest.push(*item)[i] == rest[i]);
                assert(pending@[i] == rest[i]);
            } else {
                assert(rest.push(*item)[i] == *item);
                let k = choose|k: int| 0 <= k < item.queries@.len() && #[trigger] item.queries@[k] == q;
                assert(item.queries@[k] == q);
            }
        }
    }
}

} // verus!
