//! Bounded authenticated named-attribute pagination.

use super::attribute::{
    attribute_children_ordered, attribute_decoded, attribute_leaf_ordered, lemma_name_order,
    name_lt, AttributeChildView, AttributeEntry, AttributeEntryView, AttributeName,
    AttributeNameView,
};
use super::attribute_access::{
    attribute_route, attributes_hold, attributes_sound, child_of, child_search_is_exact,
    lemma_attribute_tree, lemma_holds_within, name_view, upper_of, AttributeFormat,
};
use super::batch::{bound_model, tree_sound};
use super::blob_read::{ResidencyHint, ResidencyReason};
use super::codec::{CanonicalDecodeError, DecodeLimits, PageView};
use super::file_lookup::serves;
use super::pagination::{
    entries_past, listed, listed_children, paginate, past, walk_begun, walk_outcome, ListedFormat,
    ListingCause, PageReceipt, PaginationError,
};
use crate::order::{views, Replicate};
use crate::performance::{no_work, within, OperationFailure, WorkBudget, WorkCounters, WorkError};
use crate::storage::{
    ImmediateObjectStore, ObjectId, ObjectKind, ObjectStoreError, ObjectView, Objects,
};
use vstd::prelude::*;

verus! {

/// Authenticated bounded named-attribute pagination failures.
#[derive(Debug, PartialEq, Eq)]
pub enum AttributeListError {
    /// Cooperative cancellation occurred before the next backend boundary.
    Cancelled,
    /// Page bound must be positive.
    ZeroLimit,
    /// Page-bound allocation overflowed this target.
    LimitOverflow,
    /// Root is not an attribute page.
    WrongRootKind,
    /// Decode or traversal limits are internally inconsistent.
    InvalidLimits,
    /// Traversal exceeded the admitted height.
    HeightExceeded,
    /// Child graph references an ancestor or aliases a traversed page.
    CycleOrAlias,
    /// Parent routing bounds disagree with a child page.
    ChildBoundsMismatch,
    /// The private traversal reached an impossible state.
    TraversalState,
    /// A bounded scratch allocation could not be represented or reserved.
    AllocationFailed,
    /// Immutable object backend failed.
    Storage(ObjectStoreError),
    /// Canonical attribute page failed decoding.
    Decode(CanonicalDecodeError),
    /// Exact work exceeded or overflowed its budget.
    Work(WorkError),
}

/// Named-attribute pagination failure retaining exact spent work.
pub type AttributeListFailure = OperationFailure<AttributeListError>;

/// One bounded ordered named-attribute page.
#[derive(Debug, PartialEq, Eq)]
pub struct AttributeListing {
    /// Entries strictly after the supplied exact cursor.
    pub entries: Vec<AttributeEntry>,
    /// Whether at least one additional entry exists.
    pub has_more: bool,
    /// Exact unvisited metadata successor exposed by authenticated traversal.
    pub next_residency: Option<ResidencyHint>,
    /// Work of the traversal and the backend.
    pub work: WorkCounters,
}

/// A pagination failure as a listing failure.
pub open spec fn listing_cause(error: PaginationError) -> AttributeListError {
    match error {
        PaginationError::Cancelled => AttributeListError::Cancelled,
        PaginationError::ZeroLimit => AttributeListError::ZeroLimit,
        PaginationError::LimitOverflow => AttributeListError::LimitOverflow,
        PaginationError::WrongRootKind => AttributeListError::WrongRootKind,
        PaginationError::InvalidLimits => AttributeListError::InvalidLimits,
        PaginationError::HeightExceeded => AttributeListError::HeightExceeded,
        PaginationError::CycleOrAlias => AttributeListError::CycleOrAlias,
        PaginationError::ChildBoundsMismatch => AttributeListError::ChildBoundsMismatch,
        PaginationError::TraversalState => AttributeListError::TraversalState,
        PaginationError::AllocationFailed => AttributeListError::AllocationFailed,
        PaginationError::Storage(error) => AttributeListError::Storage(error),
        PaginationError::Decode(error) => AttributeListError::Decode(error),
        PaginationError::Work(error) => AttributeListError::Work(error),
    }
}

/// Turns a pagination failure into a listing failure.
pub fn map_error(error: PaginationError) -> (r: AttributeListError)
    ensures
        r == listing_cause(error),
{
    match error {
        PaginationError::Cancelled => AttributeListError::Cancelled,
        PaginationError::ZeroLimit => AttributeListError::ZeroLimit,
        PaginationError::LimitOverflow => AttributeListError::LimitOverflow,
        PaginationError::WrongRootKind => AttributeListError::WrongRootKind,
        PaginationError::InvalidLimits => AttributeListError::InvalidLimits,
        PaginationError::HeightExceeded => AttributeListError::HeightExceeded,
        PaginationError::CycleOrAlias => AttributeListError::CycleOrAlias,
        PaginationError::ChildBoundsMismatch => AttributeListError::ChildBoundsMismatch,
        PaginationError::TraversalState => AttributeListError::TraversalState,
        PaginationError::AllocationFailed => AttributeListError::AllocationFailed,
        PaginationError::Storage(error) => AttributeListError::Storage(error),
        PaginationError::Decode(error) => AttributeListError::Decode(error),
        PaginationError::Work(error) => AttributeListError::Work(error),
    }
}

/// Turns a page of entries into a listing.
pub fn to_listing(receipt: PageReceipt<AttributeEntry>, limits: DecodeLimits) -> (r: AttributeListing)
    ensures
        r.entries == receipt.values,
        r.has_more == receipt.has_more,
        r.work == receipt.work,
        match receipt.next_page {
            Some(object) => r.next_residency == Some(
                ResidencyHint {
                    object,
                    maximum_bytes: limits.page_object_bytes(),
                    reason: ResidencyReason::MetadataSuccessor,
                },
            ),
            None => r.next_residency is None,
        },
{
    AttributeListing {
        entries: receipt.values,
        has_more: receipt.has_more,
        next_residency: match receipt.next_page {
            Some(object) => Some(
                ResidencyHint {
                    object,
                    maximum_bytes: limits.maximum_page_object_bytes(),
                    reason: ResidencyReason::MetadataSuccessor,
                },
            ),
            None => None,
        },
        work: receipt.work,
    }
}

impl ListedFormat for AttributeFormat {
    open spec fn behind(entry: AttributeEntryView, key: AttributeNameView) -> bool {
        name_lt(key, entry.name)
    }

    fn is_behind(entry: &AttributeEntry, key: &AttributeName) -> (r: bool) {
        key.precedes(&entry.name)
    }

    fn copy_entry(entry: &AttributeEntry) -> (r: AttributeEntry) {
        entry.replicate()
    }
}

/// The entries of an attribute tree behind a cursor, in the order of a walk.
pub open spec fn attributes_listed(
    objects: Objects,
    limits: DecodeLimits,
    page: ObjectView,
    height: nat,
    after: Option<AttributeNameView>,
) -> Seq<AttributeEntryView> {
    listed::<AttributeFormat>(objects, limits, page, height, after)
}

/// Why a listing is refused before any work.
pub open spec fn listing_problem(
    root: ObjectId,
    maximum_entries: u32,
    limits: DecodeLimits,
) -> Option<AttributeListError> {
    if maximum_entries == 0 {
        Some(AttributeListError::ZeroLimit)
    } else if root.kind != ObjectKind::AttributePage {
        Some(AttributeListError::WrongRootKind)
    } else if !limits.admits_pages(1) {
        Some(AttributeListError::InvalidLimits)
    } else {
        None
    }
}

/// Whether a failure is one that a sound tree leaves possible: of the store, of the
/// bounds, or of a page reached twice.
pub open spec fn beside_the_tree(error: AttributeListError) -> bool {
    error is CycleOrAlias || error is AllocationFailed || error is Storage || error is Work
}

/// Whether a listing is one page of some entries.
pub open spec fn lists(
    listing: AttributeListing,
    all: Seq<AttributeEntryView>,
    maximum_entries: u32,
) -> bool {
    &&& listing.has_more == (all.len() > maximum_entries)
    &&& views(listing.entries@) == all.take(
        if all.len() > maximum_entries {
            maximum_entries as int
        } else {
            all.len() as int
        },
    )
}

/// Whether an error is the listing failure for a cause.
pub open spec fn fails_as(error: AttributeListError, cause: ListingCause) -> bool {
    match cause {
        ListingCause::Undecodable(decoding) => error matches AttributeListError::Decode(found)
            && found@ == decoding,
        ListingCause::Refused(refusal) => error == listing_cause(refusal),
    }
}

/// Whether a hint names the page that a walk would have read next.
pub open spec fn hints_at(
    hint: Option<ResidencyHint>,
    page: Option<ObjectView>,
    limits: DecodeLimits,
) -> bool {
    match page {
        None => hint is None,
        Some(object) => hint matches Some(given) && given.object@ == object && given.maximum_bytes
            == limits.page_object_bytes() && given.reason == ResidencyReason::MetadataSuccessor,
    }
}

/// Whether a listing is settled as its outcome says. More pages than a table of them
/// can hold are an allocation failure.
pub open spec fn attributes_settled<S: ImmediateObjectStore>(
    store: &S,
    root: ObjectView,
    after: Option<AttributeNameView>,
    maximum_entries: u32,
    limits: DecodeLimits,
    budget: WorkBudget,
    r: Result<AttributeListing, AttributeListFailure>,
) -> bool {
    ||| match walk_outcome::<S, AttributeFormat>(
        store,
        after,
        maximum_entries,
        limits,
        budget,
        walk_begun(root, limits),
    ) {
        Ok(page) => r matches Ok(listing) && views(listing.entries@) == page.values
            && listing.has_more == page.has_more && listing.work == page.work && hints_at(
            listing.next_residency,
            page.next_page,
            limits,
        ),
        Err(failing) => r matches Err(failure) && fails_as(failure.error, failing.0)
            && failure.work == failing.1,
    }
    ||| limits.maximum_visited_pages > usize::MAX / 4 && (r matches Err(failure)
        && failure.error is AllocationFailed)
}

/// Lists one bounded attribute page.
pub fn list_attributes<S: ImmediateObjectStore>(
    store: &S,
    root: ObjectId,
    after: &Option<AttributeName>,
    maximum_entries: u32,
    limits: DecodeLimits,
    budget: WorkBudget,
) -> (r: Result<AttributeListing, AttributeListFailure>)
    ensures
        match listing_problem(root, maximum_entries, limits) {
            Some(problem) => r matches Err(failure) && failure.error == problem && failure.work
                == no_work(),
            None => attributes_settled(
                store,
                root@,
                name_view(*after),
                maximum_entries,
                limits,
                budget,
                r,
            ),
        },
        listing_problem(root, maximum_entries, limits) is None ==> {
            match r {
                Ok(listing) => within(listing.work, budget) && listing.entries@.len()
                    <= maximum_entries && (listing.next_residency matches Some(hint)
                    ==> listing.has_more && hint.maximum_bytes == limits.page_object_bytes()
                    && hint.reason == ResidencyReason::MetadataSuccessor) && forall|objects: Objects|
                 #[trigger]
                    serves(store, objects) ==> lists(
                        listing,
                        attributes_listed(
                            objects,
                            limits,
                            root@,
                            limits.maximum_page_height as nat,
                            name_view(*after),
                        ),
                        maximum_entries,
                    ),
                Err(failure) => !(failure.error is ZeroLimit) && !(failure.error is WrongRootKind)
                    && !(failure.error is InvalidLimits) && forall|objects: Objects| #[trigger]
                    serves(store, objects) && attributes_sound(
                        objects,
                        limits,
                        root@,
                        None,
                        None,
                        limits.maximum_page_height as nat,
                    ) ==> beside_the_tree(failure.error),
            }
        },
{
    assert(bound_model::<AttributeFormat>(*after) == name_view(*after));
    match paginate::<S, AttributeFormat>(store, root, after, maximum_entries, limits, budget) {
        Ok(receipt) => Ok(to_listing(receipt, limits)),
        Err(failure) => {
            proof {
                let height = limits.maximum_page_height as nat;
                assert forall|objects: Objects| #[trigger]
                    serves(store, objects) && attributes_sound(
                        objects,
                        limits,
                        root@,
                        None,
                        None,
                        height,
                    ) implies tree_sound::<AttributeFormat>(
                    objects,
                    limits,
                    root@,
                    None,
                    None,
                    height,
                ) by {
                    lemma_attribute_tree(
                        objects,
                        limits,
                        root@,
                        None,
                        None,
                        height,
                        arbitrary(),
                    );
                }
            }
            Err(OperationFailure::new(map_error(failure.error), failure.work))
        },
    }
}

/// Whether entries ascend strictly by name.
pub open spec fn names_ascend(entries: Seq<AttributeEntryView>) -> bool {
    forall|i: int, j: int|
        0 <= i < j < entries.len() ==> name_lt(
            (#[trigger] entries[i]).name,
            (#[trigger] entries[j]).name,
        )
}

proof fn lemma_joined_holds(
    first: Seq<AttributeEntryView>,
    second: Seq<AttributeEntryView>,
    entry: AttributeEntryView,
)
    ensures
        (first + second).contains(entry) <==> first.contains(entry) || second.contains(entry),
{
    let joined = first + second;
    if joined.contains(entry) {
        let i = joined.index_of(entry);
        if i < first.len() {
            assert(first[i] == entry);
        } else {
            assert(second[i - first.len()] == entry);
        }
    }
    if first.contains(entry) {
        let i = first.index_of(entry);
        assert(joined[i] == entry);
    } else if second.contains(entry) {
        let i = second.index_of(entry);
        assert(joined[i + first.len()] == entry);
    }
}

proof fn lemma_entries_past(
    entries: Seq<AttributeEntryView>,
    after: Option<AttributeNameView>,
    from: int,
)
    requires
        attribute_leaf_ordered(entries),
        0 <= from <= entries.len(),
    ensures
        names_ascend(entries_past::<AttributeFormat>(entries, after, from)),
        forall|entry: AttributeEntryView| #[trigger]
            entries_past::<AttributeFormat>(entries, after, from).contains(entry) <==> past::<
                AttributeFormat,
            >(entry, after) && entries.skip(from).contains(entry),
    decreases entries.len() - from,
{
    let listing = entries_past::<AttributeFormat>(entries, after, from);
    if from < entries.len() {
        let later = entries_past::<AttributeFormat>(entries, after, from + 1);
        lemma_entries_past(entries, after, from + 1);
        let tail = entries.skip(from + 1);
        let own = seq![entries[from]];
        assert(entries.skip(from) =~= own + tail);
        assert forall|entry: AttributeEntryView| #[trigger] listing.contains(entry) <==> past::<
            AttributeFormat,
        >(entry, after) && entries.skip(from).contains(entry) by {
            lemma_joined_holds(own, tail, entry);
            lemma_joined_holds(own, later, entry);
            assert(own.contains(entry) <==> entry == entries[from]) by {
                assert(own[0] == entries[from]);
            }
            assert(later.contains(entry) <==> past::<AttributeFormat>(entry, after)
                && tail.contains(entry));
        }
        if past::<AttributeFormat>(entries[from], after) {
            assert(listing == own + later);
            assert forall|i: int, j: int| 0 <= i < j < listing.len() implies name_lt(
                (#[trigger] listing[i]).name,
                (#[trigger] listing[j]).name,
            ) by {
                assert(listing[j] == later[j - 1]);
                if i > 0 {
                    assert(listing[i] == later[i - 1]);
                } else {
                    assert(later.contains(later[j - 1]));
                    assert(tail.contains(later[j - 1]));
                    let k = tail.index_of(later[j - 1]);
                    assert(entries[from + 1 + k] == later[j - 1]);
                }
            }
        }
    }
}

proof fn lemma_join(
    first: Seq<AttributeEntryView>,
    second: Seq<AttributeEntryView>,
    border: AttributeNameView,
)
    requires
        names_ascend(first),
        names_ascend(second),
        forall|entry: AttributeEntryView| #[trigger]
            first.contains(entry) ==> name_lt(entry.name, border),
        forall|entry: AttributeEntryView| #[trigger]
            second.contains(entry) ==> !name_lt(entry.name, border),
    ensures
        names_ascend(first + second),
{
    let joined = first + second;
    assert forall|i: int, j: int| 0 <= i < j < joined.len() implies name_lt(
        (#[trigger] joined[i]).name,
        (#[trigger] joined[j]).name,
    ) by {
        if i < first.len() && j >= first.len() {
            assert(first.contains(first[i]));
            assert(second.contains(second[j - first.len()]));
            lemma_name_order(first[i].name, border, second[j - first.len()].name);
            lemma_name_order(second[j - first.len()].name, border, border);
        }
    }
}

proof fn lemma_listed(
    objects: Objects,
    limits: DecodeLimits,
    page: ObjectView,
    lower: Option<AttributeNameView>,
    upper: Option<AttributeNameView>,
    height: nat,
    after: Option<AttributeNameView>,
)
    requires
        attributes_sound(objects, limits, page, lower, upper, height),
    ensures
        names_ascend(attributes_listed(objects, limits, page, height, after)),
        forall|entry: AttributeEntryView| #[trigger]
            attributes_listed(objects, limits, page, height, after).contains(entry) <==> past::<
                AttributeFormat,
            >(entry, after) && attributes_hold(objects, limits, page, height, entry),
    decreases height, 0int,
{
    match attribute_decoded(objects(page)->0, limits) {
        Err(_) => {},
        Ok(PageView::Leaf(entries)) => {
            lemma_entries_past(entries, after, 0);
            assert(entries.skip(0) =~= entries);
        },
        Ok(PageView::Internal(children)) => {
            let start = match after {
                Some(name) => attribute_route(children, name),
                None => 0,
            };
            if let Some(name) = after {
                child_search_is_exact(children, name, 0, children.len() as int);
            }
            lemma_listed_children(
                objects,
                limits,
                children,
                upper,
                (height - 1) as nat,
                after,
                start,
            );
            assert forall|entry: AttributeEntryView| past::<AttributeFormat>(entry, after)
                && #[trigger] attributes_hold(
                objects,
                limits,
                page,
                height,
                entry,
            ) implies held_from(objects, limits, children, (height - 1) as nat, start, entry) by {
                let i = choose|i: int|
                    0 <= i < children.len() && attributes_hold(
                        objects,
                        limits,
                        (#[trigger] child_of(children, i)).page,
                        (height - 1) as nat,
                        entry,
                    );
                if i < start {
                    let low = Some(children[i].first_name);
                    let high = upper_of(children, i, upper);
                    lemma_holds_within(
                        objects,
                        limits,
                        child_of(children, i).page,
                        low,
                        high,
                        (height - 1) as nat,
                        entry,
                    );
                    let name = after->0;
                    let next = children[i + 1].first_name;
                    let own = children[start].first_name;
                    assert(name_lt(entry.name, next));
                    if i + 1 < start {
                        assert(name_lt(next, own));
                        lemma_name_order(entry.name, next, own);
                    }
                    assert(!name_lt(name, own));
                    lemma_name_order(name, entry.name, own);
                }
            }
        },
    }
}

/// Whether a child from a position on holds an entry.
spec fn held_from(
    objects: Objects,
    limits: DecodeLimits,
    children: Seq<AttributeChildView>,
    height: nat,
    from: int,
    entry: AttributeEntryView,
) -> bool {
    exists|i: int|
        from <= i < children.len() && attributes_hold(
            objects,
            limits,
            (#[trigger] child_of(children, i)).page,
            height,
            entry,
        )
}

proof fn lemma_listed_children(
    objects: Objects,
    limits: DecodeLimits,
    children: Seq<AttributeChildView>,
    upper: Option<AttributeNameView>,
    height: nat,
    after: Option<AttributeNameView>,
    from: int,
)
    requires
        attribute_children_ordered(children),
        0 <= from <= children.len(),
        forall|i: int|
            0 <= i < children.len() ==> attributes_sound(
                objects,
                limits,
                (#[trigger] child_of(children, i)).page,
                Some(children[i].first_name),
                upper_of(children, i, upper),
                height,
            ),
    ensures
        ({
            let listing = listed_children::<AttributeFormat>(
                objects,
                limits,
                children,
                height,
                after,
                from,
            );
            &&& names_ascend(listing)
            &&& forall|entry: AttributeEntryView| #[trigger]
                listing.contains(entry) <==> past::<AttributeFormat>(entry, after) && held_from(
                    objects,
                    limits,
                    children,
                    height,
                    from,
                    entry,
                )
            &&& from < children.len() ==> forall|entry: AttributeEntryView| #[trigger]
                listing.contains(entry) ==> !name_lt(entry.name, children[from].first_name)
        }),
    decreases height, children.len() - from + 1,
{
    let listing = listed_children::<AttributeFormat>(
        objects,
        limits,
        children,
        height,
        after,
        from,
    );
    if from < children.len() {
        let child = child_of(children, from);
        let own = attributes_listed(objects, limits, child.page, height, after);
        let later = listed_children::<AttributeFormat>(
            objects,
            limits,
            children,
            height,
            after,
            from + 1,
        );
        lemma_listed(
            objects,
            limits,
            child.page,
            Some(child.first_name),
            upper_of(children, from, upper),
            height,
            after,
        );
        lemma_listed_children(objects, limits, children, upper, height, after, from + 1);
        assert(listing == own + later);
        assert forall|entry: AttributeEntryView| #[trigger] own.contains(entry) implies !name_lt(
            entry.name,
            child.first_name,
        ) && (from + 1 < children.len() ==> name_lt(entry.name, children[from + 1].first_name)) by {
            lemma_holds_within(
                objects,
                limits,
                child.page,
                Some(child.first_name),
                upper_of(children, from, upper),
                height,
                entry,
            );
        }
        if from + 1 < children.len() {
            lemma_join(own, later, children[from + 1].first_name);
            assert forall|entry: AttributeEntryView| #[trigger]
                later.contains(entry) implies !name_lt(entry.name, child.first_name) by {
                assert(name_lt(child.first_name, children[from + 1].first_name));
                lemma_name_order(entry.name, child.first_name, children[from + 1].first_name);
            }
        } else {
            assert(later =~= Seq::empty());
            assert(listing =~= own);
        }
        assert forall|entry: AttributeEntryView| #[trigger] listing.contains(entry) <==> past::<
            AttributeFormat,
        >(entry, after) && held_from(objects, limits, children, height, from, entry) by {
            lemma_joined_holds(own, later, entry);
            if held_from(objects, limits, children, height, from, entry) {
                let i = choose|i: int|
                    from <= i < children.len() && attributes_hold(
                        objects,
                        limits,
                        (#[trigger] child_of(children, i)).page,
                        height,
                        entry,
                    );
                if i > from {
                    assert(held_from(objects, limits, children, height, from + 1, entry));
                }
            }
            if later.contains(entry) {
                let i = choose|i: int|
                    from + 1 <= i < children.len() && attributes_hold(
                        objects,
                        limits,
                        (#[trigger] child_of(children, i)).page,
                        height,
                        entry,
                    );
                assert(child_of(children, i) == children[i]);
            }
        }
        assert forall|entry: AttributeEntryView| #[trigger] listing.contains(entry) implies !name_lt(
            entry.name,
            child.first_name,
        ) by {
            lemma_joined_holds(own, later, entry);
        }
    }
}

/// The listing of a sound tree holds exactly the tree's entries behind the cursor, in
/// strictly ascending order.
pub proof fn listings_are_complete(
    objects: Objects,
    limits: DecodeLimits,
    root: ObjectView,
    height: nat,
    after: Option<AttributeNameView>,
)
    requires
        attributes_sound(objects, limits, root, None, None, height),
    ensures
        names_ascend(attributes_listed(objects, limits, root, height, after)),
        forall|entry: AttributeEntryView| #[trigger]
            attributes_listed(objects, limits, root, height, after).contains(entry)
                <==> attributes_hold(objects, limits, root, height, entry) && (after matches Some(
                name,
            ) ==> name_lt(name, entry.name)),
{
    lemma_listed(objects, limits, root, None, None, height, after);
}

} // verus!
