//! Authentication of a whole named-attribute tree.

use super::attribute::{
    attribute_decoded, attribute_leaf_ordered, decode_attribute_page, AttributeChild,
    AttributeChildView, AttributeEntry, AttributeEntryView, AttributeName, AttributeNameView,
    AttributePage,
};
use super::attribute_access::{
    attributes_hold, attributes_sound, child_of, children_within, entries_within, name_view,
    upper_of, validate_children, validate_leaf,
};
use super::closure_outcome::{
    attributes_walked, countable, lemma_walk_step, names_opened, names_opener, names_page,
    names_pages, names_pending, unit_proved, values_walked, walked_on, PendingNames,
};
use super::closure::{
    added_closed, blob_proved, blob_whole, common_height, follows,
    lemma_blob_opens, lemma_closed_on, lemma_page_closed, lengths_true, refers, resource_failure,
    same_metadata, some_height, ClosureError, ClosureErrorView, ProofContext,
};
use super::codec::{DecodeErrorView, DecodeLimits, PageView};
use super::object_table::ObjectTable;
use crate::order::{views, Replicate};
use crate::storage::{ObjectId, ObjectKind, ObjectStore, ObjectView, Objects};
use vstd::prelude::*;

verus! {

/// Whether the value of an entry is a sound blob of the recorded length.
pub open spec fn value_proved(
    objects: Objects,
    limits: DecodeLimits,
    entry: AttributeEntryView,
) -> bool {
    blob_proved(objects, limits, entry.value, 0, entry.value_bytes as int)
}

/// Whether the values of all entries are sound.
pub open spec fn values_proved(
    objects: Objects,
    limits: DecodeLimits,
    entries: Seq<AttributeEntryView>,
) -> bool {
    forall|i: int| 0 <= i < entries.len() ==> value_proved(objects, limits, #[trigger] entries[i])
}

/// Whether a page is the root of an attribute tree of at most a given height, whose
/// pages decode and keep their bounds, and whose values are sound.
pub open spec fn attributes_backed(
    objects: Objects,
    limits: DecodeLimits,
    page: ObjectView,
    lower: Option<AttributeNameView>,
    upper: Option<AttributeNameView>,
    height: nat,
) -> bool
    decreases height,
{
    &&& height > 0
    &&& objects(page) is Some
    &&& match attribute_decoded(objects(page)->0, limits) {
        Err(_) => false,
        Ok(PageView::Leaf(entries)) => entries_within(entries, lower, upper) && forall|i: int|
            0 <= i < entries.len() ==> value_proved(objects, limits, #[trigger] entries[i]),
        Ok(PageView::Internal(children)) => children_within(children, lower, upper) && forall|
            i: int,
        |
            0 <= i < children.len() ==> attributes_backed(
                objects,
                limits,
                (#[trigger] child_of(children, i)).page,
                Some(children[i].first_name),
                upper_of(children, i, upper),
                (height - 1) as nat,
            ),
    }
}

/// Whether a page is the root of a sound attribute tree of some height.
pub open spec fn attributes_proved(
    objects: Objects,
    limits: DecodeLimits,
    page: ObjectView,
    lower: Option<AttributeNameView>,
    upper: Option<AttributeNameView>,
) -> bool {
    exists|height: nat| #[trigger] attributes_backed(objects, limits, page, lower, upper, height)
}

proof fn lemma_backed_higher(
    objects: Objects,
    limits: DecodeLimits,
    page: ObjectView,
    lower: Option<AttributeNameView>,
    upper: Option<AttributeNameView>,
    low: nat,
    high: nat,
)
    requires
        attributes_backed(objects, limits, page, lower, upper, low),
        low <= high,
    ensures
        attributes_backed(objects, limits, page, lower, upper, high),
    decreases low,
{
    if let Ok(PageView::Internal(children)) = attribute_decoded(objects(page)->0, limits) {
        assert forall|i: int| 0 <= i < children.len() implies attributes_backed(
            objects,
            limits,
            (#[trigger] child_of(children, i)).page,
            Some(children[i].first_name),
            upper_of(children, i, upper),
            (high - 1) as nat,
        ) by {
            lemma_backed_higher(
                objects,
                limits,
                child_of(children, i).page,
                Some(children[i].first_name),
                upper_of(children, i, upper),
                (low - 1) as nat,
                (high - 1) as nat,
            );
        }
    }
}

/// An internal page over sound trees is sound.
proof fn lemma_internal_proved(
    objects: Objects,
    limits: DecodeLimits,
    page: ObjectView,
    lower: Option<AttributeNameView>,
    upper: Option<AttributeNameView>,
    children: Seq<AttributeChildView>,
)
    requires
        objects(page) is Some,
        attribute_decoded(objects(page)->0, limits) == Ok::<
            PageView<AttributeEntryView, AttributeChildView>,
            DecodeErrorView,
        >(PageView::Internal(children)),
        children_within(children, lower, upper),
        forall|i: int|
            0 <= i < children.len() ==> attributes_proved(
                objects,
                limits,
                (#[trigger] child_of(children, i)).page,
                Some(children[i].first_name),
                upper_of(children, i, upper),
            ),
    ensures
        attributes_proved(objects, limits, page, lower, upper),
{
    let holds_at = |i: int, height: nat|
        attributes_backed(
            objects,
            limits,
            child_of(children, i).page,
            Some(children[i].first_name),
            upper_of(children, i, upper),
            height,
        );
    assert forall|i: int, low: nat, high: nat|
        #![trigger holds_at(i, low), holds_at(i, high)]
        holds_at(i, low) && low <= high implies holds_at(i, high) by {
        lemma_backed_higher(
            objects,
            limits,
            child_of(children, i).page,
            Some(children[i].first_name),
            upper_of(children, i, upper),
            low,
            high,
        );
    }
    assert forall|i: int| 0 <= i < children.len() implies #[trigger] some_height(holds_at, i) by {
        let below = child_of(children, i).page;
        let height = choose|height: nat| #[trigger]
            attributes_backed(
                objects,
                limits,
                below,
                Some(children[i].first_name),
                upper_of(children, i, upper),
                height,
            );
        assert(holds_at(i, height));
    }
    let height = common_height(holds_at, children.len());
    assert(attributes_backed(objects, limits, page, lower, upper, height + 1)) by {
        assert forall|i: int| 0 <= i < children.len() implies attributes_backed(
            objects,
            limits,
            (#[trigger] child_of(children, i)).page,
            Some(children[i].first_name),
            upper_of(children, i, upper),
            height,
        ) by {
            assert(holds_at(i, height));
        }
    }
}

/// What is proved of an attribute tree is what lookups rely on, and every value in
/// it is a sound blob of the recorded length.
pub proof fn proved_attributes_are_sound(
    objects: Objects,
    limits: DecodeLimits,
    page: ObjectView,
    lower: Option<AttributeNameView>,
    upper: Option<AttributeNameView>,
    height: nat,
)
    requires
        attributes_backed(objects, limits, page, lower, upper, height),
    ensures
        attributes_sound(objects, limits, page, lower, upper, height),
        forall|entry: AttributeEntryView| #[trigger]
            attributes_hold(objects, limits, page, height, entry) ==> value_proved(
                objects,
                limits,
                entry,
            ),
    decreases height,
{
    match attribute_decoded(objects(page)->0, limits) {
        Ok(PageView::Leaf(entries)) => {
            assert forall|entry: AttributeEntryView| #[trigger]
                attributes_hold(objects, limits, page, height, entry) implies value_proved(
                objects,
                limits,
                entry,
            ) by {
                let i = entries.index_of(entry);
                assert(entries[i] == entry);
            }
        },
        Ok(PageView::Internal(children)) => {
            assert forall|i: int| 0 <= i < children.len() implies attributes_sound(
                objects,
                limits,
                (#[trigger] child_of(children, i)).page,
                Some(children[i].first_name),
                upper_of(children, i, upper),
                (height - 1) as nat,
            ) by {
                proved_attributes_are_sound(
                    objects,
                    limits,
                    child_of(children, i).page,
                    Some(children[i].first_name),
                    upper_of(children, i, upper),
                    (height - 1) as nat,
                );
            }
            assert forall|entry: AttributeEntryView| #[trigger]
                attributes_hold(objects, limits, page, height, entry) implies value_proved(
                objects,
                limits,
                entry,
            ) by {
                let i = choose|i: int|
                    0 <= i < children.len() && attributes_hold(
                        objects,
                        limits,
                        (#[trigger] child_of(children, i)).page,
                        (height - 1) as nat,
                        entry,
                    );
                proved_attributes_are_sound(
                    objects,
                    limits,
                    child_of(children, i).page,
                    Some(children[i].first_name),
                    upper_of(children, i, upper),
                    (height - 1) as nat,
                );
            }
        },
        Err(_) => {},
    }
}

/// A page of a sound tree decodes, keeps its bounds and leads to what is sound.
proof fn lemma_attributes_open(
    objects: Objects,
    limits: DecodeLimits,
    page: ObjectView,
    lower: Option<AttributeNameView>,
    upper: Option<AttributeNameView>,
)
    requires
        attributes_proved(objects, limits, page, lower, upper),
    ensures
        objects(page) is Some,
        match attribute_decoded(objects(page)->0, limits) {
            Err(_) => false,
            Ok(PageView::Leaf(entries)) => entries_within(entries, lower, upper)
                && attribute_leaf_ordered(entries) && values_proved(objects, limits, entries),
            Ok(PageView::Internal(children)) => children_within(children, lower, upper) && forall|
                i: int,
            |
                0 <= i < children.len() ==> attributes_proved(
                    objects,
                    limits,
                    (#[trigger] child_of(children, i)).page,
                    Some(children[i].first_name),
                    upper_of(children, i, upper),
                ),
        },
{
    let height = choose|height: nat| #[trigger]
        attributes_backed(objects, limits, page, lower, upper, height);
    if let Ok(PageView::Internal(children)) = attribute_decoded(objects(page)->0, limits) {
        assert forall|i: int| 0 <= i < children.len() implies attributes_proved(
            objects,
            limits,
            (#[trigger] child_of(children, i)).page,
            Some(children[i].first_name),
            upper_of(children, i, upper),
        ) by {
            assert(attributes_backed(
                objects,
                limits,
                child_of(children, i).page,
                Some(children[i].first_name),
                upper_of(children, i, upper),
                (height - 1) as nat,
            ));
        }
    }
}

/// One attribute page that is still to be proved.
struct PendingAttributes {
    page: ObjectId,
    lower: Option<AttributeName>,
    upper: Option<AttributeName>,
}

/// A page that waits.
spec fn name_waiting(pending: PendingAttributes) -> PendingNames {
    PendingNames {
        page: pending.page@,
        lower: name_view(pending.lower),
        upper: name_view(pending.upper),
    }
}

/// Pages that wait, with their bounds.
spec fn names_waiting(pending: Seq<PendingAttributes>) -> Seq<PendingNames> {
    Seq::new(pending.len(), |i: int| name_waiting(pending[i]))
}

/// Pages that wait.
spec fn pages_waiting(pending: Seq<PendingAttributes>) -> Seq<ObjectView> {
    Seq::new(pending.len(), |i: int| pending[i].page@)
}

spec fn tree_waits(objects: Objects, limits: DecodeLimits, pending: PendingAttributes) -> bool {
    attributes_proved(
        objects,
        limits,
        pending.page@,
        name_view(pending.lower),
        name_view(pending.upper),
    )
}

spec fn all_wait(objects: Objects, limits: DecodeLimits, pending: Seq<PendingAttributes>) -> bool {
    forall|i: int| 0 <= i < pending.len() ==> tree_waits(objects, limits, #[trigger] pending[i])
}

/// An index.
spec fn kept(j: int) -> int {
    j
}

/// Whether a page that waits was made of a child.
spec fn made_of(
    made: PendingAttributes,
    children: Seq<AttributeChildView>,
    j: int,
    upper: Option<AttributeNameView>,
) -> bool {
    &&& made.page@ == children[j].page
    &&& name_view(made.lower) == Some(children[j].first_name)
    &&& name_view(made.upper) == upper_of(children, j, upper)
}

/// Waiting for the children of a page is waiting for the page.
proof fn lemma_children_wait(
    objects: Objects,
    limits: DecodeLimits,
    rest: Seq<PendingAttributes>,
    next: PendingAttributes,
    own: Seq<AttributeChildView>,
    pending: Seq<PendingAttributes>,
)
    requires
        objects(next.page@) is Some,
        attribute_decoded(objects(next.page@)->0, limits) == Ok::<
            PageView<AttributeEntryView, AttributeChildView>,
            DecodeErrorView,
        >(PageView::Internal(own)),
        children_within(own, name_view(next.lower), name_view(next.upper)),
        pending.len() == rest.len() + own.len(),
        forall|j: int| 0 <= j < rest.len() ==> pending[j] == rest[j],
        forall|j: int|
            0 <= j < own.len() ==> made_of(
                pending[rest.len() + own.len() - 1 - j],
                own,
                #[trigger] kept(j),
                name_view(next.upper),
            ),
        all_wait(objects, limits, pending),
    ensures
        all_wait(objects, limits, rest.push(next)),
{
    let high = name_view(next.upper);
    let waiting = rest.push(next);
    assert forall|j: int| 0 <= j < own.len() implies attributes_proved(
        objects,
        limits,
        (#[trigger] child_of(own, j)).page,
        Some(own[j].first_name),
        upper_of(own, j, high),
    ) by {
        let at = rest.len() + own.len() - 1 - j;
        assert(made_of(pending[at], own, kept(j), high));
        assert(tree_waits(objects, limits, pending[at]));
    }
    lemma_internal_proved(objects, limits, next.page@, name_view(next.lower), high, own);
    assert forall|j: int| 0 <= j < waiting.len() implies tree_waits(
        objects,
        limits,
        #[trigger] waiting[j],
    ) by {
        if j < rest.len() {
            assert(pending[j] == rest[j]);
        }
    }
}

fn copy_bound(name: &Option<AttributeName>) -> (r: Option<AttributeName>)
    ensures
        name_view(r) == name_view(*name),
{
    match name {
        Some(name) => Some(name.replicate()),
        None => None,
    }
}

/// Pages that wait once those of the children of a page do.
fn push_children(
    pending: &mut Vec<PendingAttributes>,
    children: &Vec<AttributeChild>,
    upper: &Option<AttributeName>,
)
    ensures
        final(pending)@.len() == old(pending)@.len() + children@.len(),
        forall|j: int| 0 <= j < old(pending)@.len() ==> final(pending)@[j] == old(pending)@[j],
        forall|j: int|
            0 <= j < children@.len() ==> made_of(
                final(pending)@[old(pending)@.len() + children@.len() - 1 - j],
                views(children@),
                #[trigger] kept(j),
                name_view(*upper),
            ),
{
    let ghost rest = pending@;
    let ghost own = views(children@);
    let ghost high = name_view(*upper);
    let size: usize = children.len();
    let mut i: usize = size;
    while i > 0
        invariant
            i <= size,
            size == children@.len(),
            own == views(children@),
            high == name_view(*upper),
            rest == old(pending)@,
            pending@.len() == rest.len() + size - i,
            forall|j: int| 0 <= j < rest.len() ==> pending@[j] == rest[j],
            forall|j: int|
                i <= j < size ==> made_of(
                    pending@[rest.len() + size - 1 - j],
                    own,
                    #[trigger] kept(j),
                    high,
                ),
        decreases i,
    {
        i = i - 1;
        let child = &children[i];
        assert(own[i as int] == child@);
        let child_upper = if i + 1 < size {
            assert(own[i + 1] == children@[i + 1]@);
            Some(children[i + 1].first_name.replicate())
        } else {
            copy_bound(upper)
        };
        let ghost prior = pending@;
        pending.push(
            PendingAttributes {
                page: child.page,
                lower: Some(child.first_name.replicate()),
                upper: child_upper,
            },
        );
        assert forall|j: int| i <= j < size implies made_of(
            pending@[rest.len() + size - 1 - j],
            own,
            #[trigger] kept(j),
            high,
        ) by {
            if j > i {
                assert(kept(j) == j);
                assert(pending@[rest.len() + size - 1 - j] == prior[rest.len() + size - 1 - j]);
            }
        }
    }
}

impl ProofContext {
    /// Proves the values of leaf entries.
    fn prove_values<S: ObjectStore>(&mut self, store: &S, entries: &Vec<AttributeEntry>) -> (r: Result<
        (),
        ClosureError,
    >)
        requires
            lengths_true(store.contents(), old(self)@),
        ensures
            follows(old(self)@, final(self)@),
            same_metadata(old(self)@, final(self)@),
            lengths_true(store.contents(), final(self)@),
            r is Ok ==> forall|i: int|
                0 <= i < entries@.len() ==> final(self)@.objects.contains(
                    (#[trigger] views(entries@)[i]).value,
                ),
            r is Ok ==> added_closed(
                store.contents(),
                old(self)@.limits.decode,
                old(self)@.objects,
                final(self)@.objects,
                Seq::empty(),
            ),
            match r {
                Ok(()) => forall|i: int|
                    0 <= i < entries@.len() ==> value_proved(
                        store.contents(),
                        old(self)@.limits.decode,
                        #[trigger] views(entries@)[i],
                    ),
                Err(error) => attribute_failure_possible(error),
            },
            attribute_leaf_ordered(views(entries@)) && values_proved(
                store.contents(),
                old(self)@.limits.decode,
                views(entries@),
            ) ==> (r matches Err(error) ==> resource_failure(error) || error is RoutingAlias),
            countable(old(self)@) ==> values_walked(store, old(self)@, views(entries@), 0) == (
                unit_proved(r),
                final(self)@,
            ),
            countable(old(self)@) && r is Ok ==> countable(final(self)@),
    {
        let ghost can = countable(self@);
        let ghost all = views(entries@);
        let ghost begun = self@;
        let ghost objects = store.contents();
        let ghost sound = attribute_leaf_ordered(all) && values_proved(
            objects,
            begun.limits.decode,
            all,
        );
        let mut i: usize = 0;
        while i < entries.len()
            invariant
                i <= entries@.len(),
                all == views(entries@),
                begun == old(self)@,
                can == countable(begun),
                can ==> countable(self@) && values_walked(store, begun, all, 0) == values_walked(
                    store,
                    self@,
                    all,
                    i as int,
                ),
                objects == store.contents(),
                follows(begun, self@),
                same_metadata(begun, self@),
                lengths_true(objects, self@),
                sound == (attribute_leaf_ordered(all) && values_proved(
                    objects,
                    begun.limits.decode,
                    all,
                )),
                forall|j: int|
                    0 <= j < i ==> value_proved(
                        objects,
                        begun.limits.decode,
                        #[trigger] all[j],
                    ),
                added_closed(
                    objects,
                    begun.limits.decode,
                    begun.objects,
                    self@.objects,
                    Seq::empty(),
                ),
                forall|j: int|
                    0 <= j < i ==> self@.objects.contains((#[trigger] all[j]).value),
            decreases entries@.len() - i,
        {
            let ghost earlier = self@;
            let entry = &entries[i];
            assert(all[i as int] == entry@);
            proof {
                if sound {
                    assert(value_proved(objects, begun.limits.decode, all[i as int]));
                    assert(blob_whole(objects, begun.limits.decode, entry.value@));
                    lemma_blob_opens(
                        objects,
                        begun.limits.decode,
                        entry.value@,
                        0,
                        entry.value_bytes as int,
                    );
                }
            }
            let length = match self.prove_blob(store, entry.value) {
                Ok(length) => length,
                Err(error) => {
                    return Err(error);
                },
            };
            proof {
                lemma_blob_opens(
                    objects,
                    begun.limits.decode,
                    entry.value@,
                    0,
                    length as int,
                );
            }
            if length != entry.value_bytes {
                return Err(ClosureError::BlobLengthMismatch);
            }
            proof {
                lemma_closed_on(
                    objects,
                    begun.limits.decode,
                    begun.objects,
                    earlier.objects,
                    self@.objects,
                );
            }
            i = i + 1;
        }
        Ok(())
    }

    /// Proves an attribute tree.
    #[verifier::rlimit(80)]
    pub fn prove_attributes<S: ObjectStore>(&mut self, store: &S, root: ObjectId) -> (r: Result<
        (),
        ClosureError,
    >)
        requires
            lengths_true(store.contents(), old(self)@),
        ensures
            follows(old(self)@, final(self)@),
            same_metadata(old(self)@, final(self)@),
            lengths_true(store.contents(), final(self)@),
            root.kind != ObjectKind::AttributePage ==> r is Err && r->Err_0 is WrongObjectKind
                && final(self)@ == old(self)@,
            r is Ok ==> final(self)@.objects.contains(root@) && added_closed(
                store.contents(),
                old(self)@.limits.decode,
                old(self)@.objects,
                final(self)@.objects,
                Seq::empty(),
            ),
            match r {
                Ok(()) => attributes_proved(
                    store.contents(),
                    old(self)@.limits.decode,
                    root@,
                    None,
                    None,
                ),
                Err(error) => attribute_failure_possible(error),
            },
            root.kind == ObjectKind::AttributePage && attributes_proved(
                store.contents(),
                old(self)@.limits.decode,
                root@,
                None,
                None,
            ) ==> (r matches Err(error) ==> resource_failure(error) || error is RoutingAlias),
            countable(old(self)@) ==> attributes_walked(store, old(self)@, root@) == (
                unit_proved(r),
                final(self)@,
            ),
            countable(old(self)@) && r is Ok ==> countable(final(self)@),
    {
        proof {
            reveal(attributes_walked);
        }
        let ghost can = countable(self@);
        let ghost first_line = seq![PendingNames { page: root@, lower: None, upper: None }];
        let ghost whole = names_pages(store, self@, first_line, Set::empty());
        if root.kind != ObjectKind::AttributePage {
            proof {
                lemma_walk_step(
                    store,
                    self@,
                    ObjectKind::AttributePage,
                    names_page(),
                    names_opener(store),
                    first_line,
                    Set::empty(),
                    (),
                );
            }
            return Err(ClosureError::WrongObjectKind);
        }
        let ghost objects = store.contents();
        let ghost limits = self@.limits.decode;
        let ghost begun = self@;
        let mut pending: Vec<PendingAttributes> = Vec::new();
        pending.push(PendingAttributes { page: root, lower: None, upper: None });
        let mut pages = ObjectTable::new(16);
        proof {
            if all_wait(objects, limits, pending@) {
                assert(tree_waits(objects, limits, pending@[0]));
            }
        }
        let ghost sound = attributes_proved(objects, limits, root@, None, None);
        assert(pages_waiting(pending@)[0] == root@);
        assert(names_waiting(pending@) =~= first_line);
        while pending.len() > 0
            invariant
                can == countable(begun),
                can ==> attributes_walked(store, begun, root@) == whole,
                can ==> countable(self@) && pages@.finite() && pages@.subset_of(self@.objects)
                    && whole == names_pages(store, self@, names_waiting(pending@), pages@),
                objects == store.contents(),
                limits == self@.limits.decode,
                begun == old(self)@,
                follows(begun, self@),
                same_metadata(begun, self@),
                lengths_true(objects, self@),
                root.kind == ObjectKind::AttributePage,
                all_wait(objects, limits, pending@) ==> attributes_proved(
                    objects,
                    limits,
                    root@,
                    None,
                    None,
                ),
                sound == attributes_proved(objects, limits, root@, None, None),
                sound ==> all_wait(objects, limits, pending@),
                forall|i: int|
                    0 <= i < pending@.len() ==> (#[trigger] pending@[i]).page.kind
                        == ObjectKind::AttributePage,
                added_closed(
                    objects,
                    limits,
                    begun.objects,
                    self@.objects,
                    pages_waiting(pending@),
                ),
                self@.objects.contains(root@) || pages_waiting(pending@).contains(root@),
            decreases u64::MAX - self@.work.page_reads,
        {
            let ghost waiting = pending@;
            let ghost earlier = self@;
            let next = match pending.pop() {
                Some(next) => next,
                None => {
                    return Err(ClosureError::RoutingBoundsMismatch);
                },
            };
            let ghost rest = pending@;
            assert(waiting =~= rest.push(next));
            assert(waiting[rest.len() as int] == next);
            assert forall|j: int| 0 <= j < rest.len() implies (#[trigger] rest[j]).page.kind
                == ObjectKind::AttributePage by {
                assert(waiting[j] == rest[j]);
            }
            proof {
                if sound {
                    assert(tree_waits(objects, limits, waiting[rest.len() as int]));
                    lemma_attributes_open(
                        objects,
                        limits,
                        next.page@,
                        name_view(next.lower),
                        name_view(next.upper),
                    );
                    assert forall|j: int| 0 <= j < rest.len() implies tree_waits(
                        objects,
                        limits,
                        #[trigger] rest[j],
                    ) by {
                        assert(waiting[j] == rest[j]);
                    }
                }
            }
            let ghost met = pages@;
            let ghost line = names_waiting(rest);
            let ghost own_line = name_waiting(next);
            proof {
                assert(names_waiting(waiting) =~= line.push(own_line));
                assert(names_waiting(waiting).drop_last() =~= line);
                if can {
                    vstd::set_lib::lemma_len_subset(met, self@.objects);
                    lemma_walk_step(
                        store,
                        self@,
                        ObjectKind::AttributePage,
                        names_page(),
                        names_opener(store),
                        names_waiting(waiting),
                        met,
                        (),
                    );
                }
            }
            match pages.insert(next.page) {
                Some(true) => {},
                _ => {
                    return Err(ClosureError::RoutingAlias);
                },
            }
            let bytes = match self.read_object(store, next.page, true) {
                Ok(bytes) => bytes,
                Err(error) => {
                    return Err(error);
                },
            };
            assert(self@.objects =~= earlier.objects.insert(next.page@));
            let ghost opened_at = self@;
            let ghost step = names_opened(store, opened_at, own_line, bytes@);
            assert(can ==> whole == walked_on(
                store,
                earlier,
                ObjectKind::AttributePage,
                names_page(),
                names_opener(store),
                line,
                pages@,
                step,
            ));
            proof {
                reveal(names_opened);
            }
            match decode_attribute_page(bytes.as_slice(), self.limits().decode) {
                Err(error) => {
                    return Err(ClosureError::Decode(error));
                },
                Ok(AttributePage::Leaf(entries)) => {
                    if !validate_leaf(&entries, &next.lower, &next.upper) {
                        return Err(ClosureError::RoutingBoundsMismatch);
                    }
                    if let Err(error) = self.prove_values(store, &entries) {
                        return Err(error);
                    }
                    proof {
                        assert(names_waiting(pending@) =~= line + Seq::<PendingNames>::empty());
                        assert(can ==> step == (
                            Ok::<(Seq<PendingNames>, ()), ClosureErrorView>((Seq::empty(), ())),
                            self@,
                        ));
                        assert(attributes_backed(
                            objects,
                            limits,
                            next.page@,
                            name_view(next.lower),
                            name_view(next.upper),
                            1,
                        ));
                        assert(tree_waits(objects, limits, next));
                        if all_wait(objects, limits, pending@) {
                            assert(all_wait(objects, limits, waiting));
                        }
                        assert forall|target: ObjectView| #[trigger]
                            refers(objects, limits, next.page@, target) implies self@.objects.contains(
                            target,
                        ) by {
                            let own = views(entries@);
                            let k = choose|k: int|
                                0 <= k < own.len() && (#[trigger] own[k]).value == target;
                            assert(self@.objects.contains(own[k].value));
                        }
                    }
                },
                Ok(AttributePage::Internal(children)) => {
                    if !validate_children(&children, &next.lower, &next.upper) {
                        return Err(ClosureError::RoutingBoundsMismatch);
                    }
                    push_children(&mut pending, &children, &next.upper);
                    proof {
                        let own = views(children@);
                        let below = names_pending(own, name_view(next.upper));
                        assert(names_waiting(pending@) =~= line + below) by {
                            assert forall|j: int| 0 <= j < pending@.len() implies names_waiting(
                                pending@,
                            )[j] == (line + below)[j] by {
                                if j < rest.len() {
                                    assert(pending@[j] == rest[j]);
                                } else {
                                    let k = rest.len() + own.len() - 1 - j;
                                    assert(made_of(pending@[j], own, kept(k), name_view(next.upper)));
                                }
                            }
                        }
                        assert(can ==> step == (
                            Ok::<(Seq<PendingNames>, ()), ClosureErrorView>((below, ())),
                            self@,
                        ));
                        assert forall|j: int| 0 <= j < pending@.len() implies (
                        #[trigger] pending@[j]).page.kind == ObjectKind::AttributePage by {
                            if j < rest.len() {
                                assert(pending@[j] == rest[j]);
                            } else {
                                let k = rest.len() + own.len() - 1 - j;
                                assert(made_of(pending@[j], own, kept(k), name_view(next.upper)));
                                assert(own[k].page.kind == ObjectKind::AttributePage);
                            }
                        }
                        if sound {
                            assert forall|j: int| 0 <= j < pending@.len() implies tree_waits(
                                objects,
                                limits,
                                #[trigger] pending@[j],
                            ) by {
                                if j < rest.len() {
                                    assert(pending@[j] == rest[j]);
                                } else {
                                    let k = rest.len() + own.len() - 1 - j;
                                    assert(made_of(pending@[j], own, kept(k), name_view(next.upper)));
                                    assert(child_of(own, k) == own[k]);
                                }
                            }
                        }
                        if all_wait(objects, limits, pending@) {
                            lemma_children_wait(
                                objects,
                                limits,
                                rest,
                                next,
                                views(children@),
                                pending@,
                            );
                        }
                        assert forall|target: ObjectView| #[trigger]
                            refers(objects, limits, next.page@, target) implies pages_waiting(
                            pending@,
                        ).contains(target) by {
                            let k = choose|k: int|
                                0 <= k < own.len() && (#[trigger] own[k]).page == target;
                            let at = rest.len() + own.len() - 1 - k;
                            assert(made_of(pending@[at], own, kept(k), name_view(next.upper)));
                            assert(pages_waiting(pending@)[at] == target);
                        }
                    }
                },
            }
            proof {
                let line = pages_waiting(pending@);
                assert(pages_waiting(waiting) =~= pages_waiting(rest).push(next.page@));
                assert forall|j: int| 0 <= j < rest.len() implies line.contains(
                    #[trigger] pages_waiting(rest)[j],
                ) by {
                    assert(pending@[j] == rest[j]);
                    assert(line[j] == rest[j].page@);
                }
                lemma_page_closed(
                    objects,
                    limits,
                    begun.objects,
                    earlier.objects,
                    self@.objects,
                    pages_waiting(rest),
                    next.page@,
                    line,
                );
                if !self@.objects.contains(root@) {
                    let k = pages_waiting(waiting).index_of(root@);
                    assert(pages_waiting(rest)[k] == root@);
                }
            }
        }
        assert(all_wait(objects, limits, pending@));
        assert(pages_waiting(pending@) =~= Seq::<ObjectView>::empty());
        proof {
            assert(names_waiting(pending@) =~= Seq::<PendingNames>::empty());
            lemma_walk_step(
                store,
                self@,
                ObjectKind::AttributePage,
                names_page(),
                names_opener(store),
                names_waiting(pending@),
                pages@,
                (),
            );
        }
        Ok(())
    }
}

/// Whether an error is one that proving an attribute tree can end with.
pub open spec fn attribute_failure_possible(error: ClosureError) -> bool {
    ||| resource_failure(error)
    ||| error is WrongObjectKind
    ||| error is RoutingAlias
    ||| error is RoutingBoundsMismatch
    ||| error is BlobLengthMismatch
    ||| error is Decode
}

} // verus!
