//! Authentication of a whole sparse extent tree.

use super::closure_outcome::{
    countable, extent_opened, extent_opener, extent_page, extent_pages, extent_tree_walked,
    extents_walked, lemma_walk_step, unit_proved, walked_on,
};
use super::closure::{
    added_closed, blob_proved, blob_whole, common_height, follows, holds_content,
    lemma_blob_opens, lemma_closed_on, lemma_page_closed, lengths_true, refers, resource_failure,
    same_metadata, some_height, ClosureError, ClosureErrorView, ProofContext,
};
use super::codec::{DecodeErrorView, DecodeLimits, PageView};
use super::extent::{
    decode_extent_page, extent_child_fits, extent_decoded, extent_end_of, extent_fits,
    extents_ordered, Extent, ExtentChild, ExtentChildView, ExtentKind, ExtentKindView, ExtentPage,
    ExtentView,
};
use super::object_table::ObjectTable;
use crate::order::views;
use crate::storage::{ObjectId, ObjectKind, ObjectStore, ObjectView, Objects};
use vstd::prelude::*;

verus! {

/// Whether the extents of a leaf fill the range under which it was reached.
pub open spec fn extents_within(extents: Seq<ExtentView>, first: u64, end: u64) -> bool {
    ||| first == end && extents.len() == 0
    ||| extents.len() > 0 && extents[0].offset == first && extent_end_of(extents.last()) == end
}

/// Tells whether the extents of a leaf fill the range under which it was reached.
pub fn validate_extent_bounds(extents: &Vec<Extent>, first: u64, end: u64) -> (r: bool)
    ensures
        r == extents_within(views(extents@), first, end),
{
    let ghost all = views(extents@);
    if extents.len() == 0 {
        return first == end;
    }
    assert(all[0] == extents@[0]@);
    assert(all.last() == extents@[extents@.len() - 1]@);
    let last = extents[extents.len() - 1];
    if extents[0].offset != first || last.length > u64::MAX - last.offset {
        return false;
    }
    last.offset + last.length == end
}

/// Whether the children of a page fill the range under which it was reached.
pub open spec fn extent_children_within(
    children: Seq<ExtentChildView>,
    first: u64,
    end: u64,
) -> bool {
    children.len() > 0 && children[0].first_offset == first && children.last().end_offset == end
}

/// Tells whether the children of a page fill the range under which it was reached.
pub fn validate_extent_child_bounds(children: &Vec<ExtentChild>, first: u64, end: u64) -> (r: bool)
    ensures
        r == extent_children_within(views(children@), first, end),
{
    let ghost all = views(children@);
    if children.len() == 0 {
        return false;
    }
    assert(all[0] == children@[0]@);
    assert(all.last() == children@[children@.len() - 1]@);
    children[0].first_offset == first && children[children.len() - 1].end_offset == end
}

/// Whether an extent lies within a sound blob, or is one without content where
/// those are admitted.
pub open spec fn extent_backed(
    objects: Objects,
    limits: DecodeLimits,
    sparse: bool,
    extent: ExtentView,
) -> bool {
    match extent.kind {
        ExtentKindView::Content { object, object_offset } => exists|length: int| #[trigger]
            blob_proved(objects, limits, object, 0, length) && object_offset + extent.length
                <= length,
        _ => sparse,
    }
}

/// Whether all extents are backed.
pub open spec fn all_backed(
    objects: Objects,
    limits: DecodeLimits,
    sparse: bool,
    extents: Seq<ExtentView>,
) -> bool {
    forall|i: int|
        0 <= i < extents.len() ==> extent_backed(objects, limits, sparse, #[trigger] extents[i])
}

/// One child of an extent page.
pub open spec fn extent_child_of(children: Seq<ExtentChildView>, i: int) -> ExtentChildView {
    children[i]
}

/// Whether a page is the root of an extent tree of at most a given height, whose
/// pages decode and keep their ranges, and whose extents are backed.
pub open spec fn extents_sound(
    objects: Objects,
    limits: DecodeLimits,
    sparse: bool,
    page: ObjectView,
    first: u64,
    end: u64,
    height: nat,
) -> bool
    decreases height,
{
    &&& height > 0
    &&& objects(page) is Some
    &&& match extent_decoded(objects(page)->0, limits) {
        Err(_) => false,
        Ok(PageView::Leaf(extents)) => extents_within(extents, first, end) && forall|i: int|
            0 <= i < extents.len() ==> extent_backed(objects, limits, sparse, #[trigger] extents[i]),
        Ok(PageView::Internal(children)) => extent_children_within(children, first, end)
            && forall|i: int|
            0 <= i < children.len() ==> extents_sound(
                objects,
                limits,
                sparse,
                (#[trigger] extent_child_of(children, i)).page,
                children[i].first_offset,
                children[i].end_offset,
                (height - 1) as nat,
            ),
    }
}

/// Whether a page is the root of a sound extent tree of some height.
pub open spec fn extents_proved(
    objects: Objects,
    limits: DecodeLimits,
    sparse: bool,
    page: ObjectView,
    first: u64,
    end: u64,
) -> bool {
    exists|height: nat| #[trigger] extents_sound(objects, limits, sparse, page, first, end, height)
}

proof fn lemma_sound_higher(
    objects: Objects,
    limits: DecodeLimits,
    sparse: bool,
    page: ObjectView,
    first: u64,
    end: u64,
    low: nat,
    high: nat,
)
    requires
        extents_sound(objects, limits, sparse, page, first, end, low),
        low <= high,
    ensures
        extents_sound(objects, limits, sparse, page, first, end, high),
    decreases low,
{
    if let Ok(PageView::Internal(children)) = extent_decoded(objects(page)->0, limits) {
        assert forall|i: int| 0 <= i < children.len() implies extents_sound(
            objects,
            limits,
            sparse,
            (#[trigger] extent_child_of(children, i)).page,
            children[i].first_offset,
            children[i].end_offset,
            (high - 1) as nat,
        ) by {
            lemma_sound_higher(
                objects,
                limits,
                sparse,
                extent_child_of(children, i).page,
                children[i].first_offset,
                children[i].end_offset,
                (low - 1) as nat,
                (high - 1) as nat,
            );
        }
    }
}

/// An internal page over sound trees is sound.
proof fn lemma_internal_proved(
    objects: Objects,
    limits: DecodeLimits,
    sparse: bool,
    page: ObjectView,
    first: u64,
    end: u64,
    children: Seq<ExtentChildView>,
)
    requires
        objects(page) is Some,
        extent_decoded(objects(page)->0, limits) == Ok::<
            PageView<ExtentView, ExtentChildView>,
            DecodeErrorView,
        >(PageView::Internal(children)),
        extent_children_within(children, first, end),
        forall|i: int|
            0 <= i < children.len() ==> extents_proved(
                objects,
                limits,
                sparse,
                (#[trigger] extent_child_of(children, i)).page,
                children[i].first_offset,
                children[i].end_offset,
            ),
    ensures
        extents_proved(objects, limits, sparse, page, first, end),
{
    let holds_at = |i: int, height: nat|
        extents_sound(
            objects,
            limits,
            sparse,
            extent_child_of(children, i).page,
            children[i].first_offset,
            children[i].end_offset,
            height,
        );
    assert forall|i: int, low: nat, high: nat|
        #![trigger holds_at(i, low), holds_at(i, high)]
        holds_at(i, low) && low <= high implies holds_at(i, high) by {
        lemma_sound_higher(
            objects,
            limits,
            sparse,
            extent_child_of(children, i).page,
            children[i].first_offset,
            children[i].end_offset,
            low,
            high,
        );
    }
    assert forall|i: int| 0 <= i < children.len() implies #[trigger] some_height(holds_at, i) by {
        let below = extent_child_of(children, i).page;
        let height = choose|height: nat| #[trigger]
            extents_sound(
                objects,
                limits,
                sparse,
                below,
                children[i].first_offset,
                children[i].end_offset,
                height,
            );
        assert(holds_at(i, height));
    }
    let height = common_height(holds_at, children.len());
    assert(extents_sound(objects, limits, sparse, page, first, end, height + 1)) by {
        assert forall|i: int| 0 <= i < children.len() implies extents_sound(
            objects,
            limits,
            sparse,
            (#[trigger] extent_child_of(children, i)).page,
            children[i].first_offset,
            children[i].end_offset,
            height,
        ) by {
            assert(holds_at(i, height));
        }
    }
}

/// A page of a sound tree decodes, keeps its range and leads to what is sound.
proof fn lemma_extents_open(
    objects: Objects,
    limits: DecodeLimits,
    sparse: bool,
    page: ObjectView,
    first: u64,
    end: u64,
)
    requires
        extents_proved(objects, limits, sparse, page, first, end),
    ensures
        objects(page) is Some,
        match extent_decoded(objects(page)->0, limits) {
            Err(_) => false,
            Ok(PageView::Leaf(extents)) => extents_within(extents, first, end) && extents_ordered(
                extents,
            ) && all_backed(objects, limits, sparse, extents),
            Ok(PageView::Internal(children)) => extent_children_within(children, first, end)
                && forall|i: int|
                0 <= i < children.len() ==> extents_proved(
                    objects,
                    limits,
                    sparse,
                    (#[trigger] extent_child_of(children, i)).page,
                    children[i].first_offset,
                    children[i].end_offset,
                ),
        },
{
    let height = choose|height: nat| #[trigger]
        extents_sound(objects, limits, sparse, page, first, end, height);
    if let Ok(PageView::Internal(children)) = extent_decoded(objects(page)->0, limits) {
        assert forall|i: int| 0 <= i < children.len() implies extents_proved(
            objects,
            limits,
            sparse,
            (#[trigger] extent_child_of(children, i)).page,
            children[i].first_offset,
            children[i].end_offset,
        ) by {
            assert(extents_sound(
                objects,
                limits,
                sparse,
                extent_child_of(children, i).page,
                children[i].first_offset,
                children[i].end_offset,
                (height - 1) as nat,
            ));
        }
    }
}

/// Pages that wait.
spec fn pages_waiting(pending: Seq<ExtentChild>) -> Seq<ObjectView> {
    Seq::new(pending.len(), |i: int| pending[i].page@)
}

spec fn child_waits(objects: Objects, limits: DecodeLimits, sparse: bool, child: ExtentChild) -> bool {
    extents_proved(objects, limits, sparse, child.page@, child.first_offset, child.end_offset)
}

spec fn all_wait(
    objects: Objects,
    limits: DecodeLimits,
    sparse: bool,
    pending: Seq<ExtentChild>,
) -> bool {
    forall|i: int|
        0 <= i < pending.len() ==> child_waits(objects, limits, sparse, #[trigger] pending[i])
}

/// Waiting for the children of a page is waiting for the page.
proof fn lemma_children_wait(
    objects: Objects,
    limits: DecodeLimits,
    sparse: bool,
    rest: Seq<ExtentChild>,
    next: ExtentChild,
    children: Seq<ExtentChild>,
    pending: Seq<ExtentChild>,
)
    requires
        objects(next.page@) is Some,
        extent_decoded(objects(next.page@)->0, limits) == Ok::<
            PageView<ExtentView, ExtentChildView>,
            DecodeErrorView,
        >(PageView::Internal(views(children))),
        extent_children_within(views(children), next.first_offset, next.end_offset),
        pending == rest + children.reverse(),
        all_wait(objects, limits, sparse, pending),
    ensures
        all_wait(objects, limits, sparse, rest.push(next)),
{
    let own = views(children);
    let waiting = rest.push(next);
    assert forall|j: int| 0 <= j < own.len() implies extents_proved(
        objects,
        limits,
        sparse,
        (#[trigger] extent_child_of(own, j)).page,
        own[j].first_offset,
        own[j].end_offset,
    ) by {
        let at = rest.len() + own.len() - 1 - j;
        assert(own[j] == children[j]@);
        assert(pending[at] == children[j]);
        assert(child_waits(objects, limits, sparse, pending[at]));
    }
    lemma_internal_proved(
        objects,
        limits,
        sparse,
        next.page@,
        next.first_offset,
        next.end_offset,
        own,
    );
    assert forall|j: int| 0 <= j < waiting.len() implies child_waits(
        objects,
        limits,
        sparse,
        #[trigger] waiting[j],
    ) by {
        if j < rest.len() {
            assert(pending[j] == rest[j]);
        }
    }
}

impl ProofContext {
    /// Proves that the extents of a leaf are backed.
    fn prove_extents<S: ObjectStore>(&mut self, store: &S, extents: &Vec<Extent>) -> (r: Result<
        (),
        ClosureError,
    >)
        requires
            lengths_true(store.contents(), old(self)@),
        ensures
            follows(old(self)@, final(self)@),
            same_metadata(old(self)@, final(self)@),
            lengths_true(store.contents(), final(self)@),
            r is Ok ==> forall|i: int, target: ObjectView|
                0 <= i < extents@.len() && #[trigger] holds_content(views(extents@)[i], target)
                    ==> final(self)@.objects.contains(target),
            r is Ok ==> added_closed(
                store.contents(),
                old(self)@.limits.decode,
                old(self)@.objects,
                final(self)@.objects,
                Seq::empty(),
            ),
            match r {
                Ok(()) => forall|i: int|
                    0 <= i < extents@.len() ==> extent_backed(
                        store.contents(),
                        old(self)@.limits.decode,
                        old(self)@.limits.sparse_files,
                        #[trigger] views(extents@)[i],
                    ),
                Err(error) => extent_failure_possible(error),
            },
            extents_ordered(views(extents@)) && all_backed(
                store.contents(),
                old(self)@.limits.decode,
                old(self)@.limits.sparse_files,
                views(extents@),
            ) ==> (r matches Err(error) ==> resource_failure(error) || error is RoutingAlias),
            countable(old(self)@) ==> extents_walked(store, old(self)@, views(extents@), 0) == (
                unit_proved(r),
                final(self)@,
            ),
            countable(old(self)@) && r is Ok ==> countable(final(self)@),
    {
        let ghost can = countable(self@);
        let ghost all = views(extents@);
        let ghost begun = self@;
        let ghost objects = store.contents();
        let ghost sound = extents_ordered(all) && all_backed(
            objects,
            begun.limits.decode,
            begun.limits.sparse_files,
            all,
        );
        let mut i: usize = 0;
        while i < extents.len()
            invariant
                i <= extents@.len(),
                all == views(extents@),
                begun == old(self)@,
                can == countable(begun),
                can ==> countable(self@) && extents_walked(store, begun, all, 0) == extents_walked(
                    store,
                    self@,
                    all,
                    i as int,
                ),
                objects == store.contents(),
                follows(begun, self@),
                same_metadata(begun, self@),
                lengths_true(objects, self@),
                sound == (extents_ordered(all) && all_backed(
                    objects,
                    begun.limits.decode,
                    begun.limits.sparse_files,
                    all,
                )),
                forall|j: int|
                    0 <= j < i ==> extent_backed(
                        objects,
                        begun.limits.decode,
                        begun.limits.sparse_files,
                        #[trigger] all[j],
                    ),
                added_closed(
                    objects,
                    begun.limits.decode,
                    begun.objects,
                    self@.objects,
                    Seq::empty(),
                ),
                forall|j: int, target: ObjectView|
                    0 <= j < i && #[trigger] holds_content(all[j], target)
                        ==> self@.objects.contains(target),
            decreases extents@.len() - i,
        {
            let ghost earlier = self@;
            let extent = extents[i];
            assert(all[i as int] == extent@);
            proof {
                if sound {
                    assert(extent_fits(all[i as int]));
                    assert(extent_backed(
                        objects,
                        begun.limits.decode,
                        begun.limits.sparse_files,
                        all[i as int],
                    ));
                }
            }
            match extent.kind {
                ExtentKind::Content { object, object_offset } => {
                    proof {
                        if sound {
                            let length = choose|length: int| #[trigger]
                                blob_proved(objects, begun.limits.decode, object@, 0, length)
                                    && object_offset + extent.length <= length;
                            assert(blob_whole(objects, begun.limits.decode, object@));
                            lemma_blob_opens(objects, begun.limits.decode, object@, 0, length);
                        }
                    }
                    if extent.length > u64::MAX - object_offset {
                        return Err(ClosureError::RangeOverflow);
                    }
                    let content_end: u64 = object_offset + extent.length;
                    let length = match self.prove_blob(store, object) {
                        Ok(length) => length,
                        Err(error) => {
                            return Err(error);
                        },
                    };
                    proof {
                        lemma_blob_opens(
                            objects,
                            begun.limits.decode,
                            object@,
                            0,
                            length as int,
                        );
                    }
                    if content_end > length {
                        return Err(ClosureError::BlobSpanOutsideObject);
                    }
                    assert(blob_proved(objects, begun.limits.decode, object@, 0, length as int));
                },
                _ => {
                    if !self.limits().sparse_files {
                        return Err(ClosureError::UnsupportedVolumeSemantics);
                    }
                },
            }
            proof {
                lemma_closed_on(
                    objects,
                    begun.limits.decode,
                    begun.objects,
                    earlier.objects,
                    self@.objects,
                );
            }
            i = i + 1;
        }
        Ok(())
    }

    /// Proves an extent tree over a file of a given size.
    #[verifier::rlimit(80)]
    pub fn prove_extent_tree<S: ObjectStore>(&mut self, store: &S, root: ObjectId, size: u64) -> (r:
        Result<(), ClosureError>)
        requires
            lengths_true(store.contents(), old(self)@),
        ensures
            follows(old(self)@, final(self)@),
            same_metadata(old(self)@, final(self)@),
            lengths_true(store.contents(), final(self)@),
            root.kind != ObjectKind::ExtentPage ==> r is Err && r->Err_0 is WrongObjectKind
                && final(self)@ == old(self)@,
            r is Ok ==> final(self)@.objects.contains(root@) && added_closed(
                store.contents(),
                old(self)@.limits.decode,
                old(self)@.objects,
                final(self)@.objects,
                Seq::empty(),
            ),
            match r {
                Ok(()) => extents_proved(
                    store.contents(),
                    old(self)@.limits.decode,
                    old(self)@.limits.sparse_files,
                    root@,
                    0,
                    size,
                ),
                Err(error) => extent_failure_possible(error),
            },
            root.kind == ObjectKind::ExtentPage && extents_proved(
                store.contents(),
                old(self)@.limits.decode,
                old(self)@.limits.sparse_files,
                root@,
                0,
                size,
            ) ==> (r matches Err(error) ==> resource_failure(error) || error is RoutingAlias),
            countable(old(self)@) ==> extent_tree_walked(store, old(self)@, root@, size) == (
                unit_proved(r),
                final(self)@,
            ),
            countable(old(self)@) && r is Ok ==> countable(final(self)@),
    {
        proof {
            reveal(extent_tree_walked);
        }
        let ghost can = countable(self@);
        let ghost first_line = seq![
            ExtentChildView { first_offset: 0, end_offset: size, page: root@ },
        ];
        let ghost whole = extent_pages(store, self@, first_line, Set::empty());
        if root.kind != ObjectKind::ExtentPage {
            proof {
                lemma_walk_step(
                    store,
                    self@,
                    ObjectKind::ExtentPage,
                    extent_page(),
                    extent_opener(store),
                    first_line,
                    Set::empty(),
                    (),
                );
            }
            return Err(ClosureError::WrongObjectKind);
        }
        let ghost objects = store.contents();
        let ghost limits = self@.limits.decode;
        let ghost sparse = self@.limits.sparse_files;
        let ghost begun = self@;
        let mut pending: Vec<ExtentChild> = Vec::new();
        pending.push(ExtentChild { first_offset: 0, end_offset: size, page: root });
        let mut pages = ObjectTable::new(16);
        proof {
            if all_wait(objects, limits, sparse, pending@) {
                assert(child_waits(objects, limits, sparse, pending@[0]));
            }
        }
        let ghost sound = extents_proved(objects, limits, sparse, root@, 0, size);
        assert(pages_waiting(pending@)[0] == root@);
        assert(views(pending@) =~= first_line);
        while pending.len() > 0
            invariant
                can == countable(begun),
                can ==> extent_tree_walked(store, begun, root@, size) == whole,
                can ==> countable(self@) && pages@.finite() && pages@.subset_of(self@.objects)
                    && whole == extent_pages(store, self@, views(pending@), pages@),
                objects == store.contents(),
                limits == self@.limits.decode,
                sparse == self@.limits.sparse_files,
                begun == old(self)@,
                follows(begun, self@),
                same_metadata(begun, self@),
                lengths_true(objects, self@),
                root.kind == ObjectKind::ExtentPage,
                all_wait(objects, limits, sparse, pending@) ==> extents_proved(
                    objects,
                    limits,
                    sparse,
                    root@,
                    0,
                    size,
                ),
                sound == extents_proved(objects, limits, sparse, root@, 0, size),
                sound ==> all_wait(objects, limits, sparse, pending@),
                forall|i: int|
                    0 <= i < pending@.len() ==> (#[trigger] pending@[i]).page.kind
                        == ObjectKind::ExtentPage,
                added_closed(
                    objects,
                    limits,
                    begun.objects,
                    self@.objects,
                    pages_waiting(pending@),
                ),
                self@.objects.contains(root@) || pages_waiting(pending@).contains(root@),
            decreases u64::MAX - self@.work.page_reads,
        {
            let ghost waiting = pending@;
            let ghost earlier = self@;
            let next = match pending.pop() {
                Some(next) => next,
                None => {
                    return Err(ClosureError::RoutingBoundsMismatch);
                },
            };
            let ghost rest = pending@;
            assert(waiting =~= rest.push(next));
            assert(waiting[rest.len() as int] == next);
            assert forall|j: int| 0 <= j < rest.len() implies (#[trigger] rest[j]).page.kind
                == ObjectKind::ExtentPage by {
                assert(waiting[j] == rest[j]);
            }
            proof {
                if sound {
                    assert(child_waits(objects, limits, sparse, waiting[rest.len() as int]));
                    lemma_extents_open(
                        objects,
                        limits,
                        sparse,
                        next.page@,
                        next.first_offset,
                        next.end_offset,
                    );
                    assert forall|j: int| 0 <= j < rest.len() implies child_waits(
                        objects,
                        limits,
                        sparse,
                        #[trigger] rest[j],
                    ) by {
                        assert(waiting[j] == rest[j]);
                    }
                }
            }
            let ghost met = pages@;
            let ghost line = views(rest);
            let ghost own_line = next@;
            proof {
                assert(views(waiting) =~= line.push(own_line));
                assert(views(waiting).drop_last() =~= line);
                if can {
                    vstd::set_lib::lemma_len_subset(met, self@.objects);
                    lemma_walk_step(
                        store,
                        self@,
                        ObjectKind::ExtentPage,
                        extent_page(),
                        extent_opener(store),
                        views(waiting),
                        met,
                        (),
                    );
                }
            }
            match pages.insert(next.page) {
                Some(true) => {},
                _ => {
                    return Err(ClosureError::RoutingAlias);
                },
            }
            let bytes = match self.read_object(store, next.page, true) {
                Ok(bytes) => bytes,
                Err(error) => {
                    return Err(error);
                },
            };
            assert(self@.objects =~= earlier.objects.insert(next.page@));
            let ghost opened_at = self@;
            let ghost step = extent_opened(store, opened_at, own_line, bytes@);
            assert(can ==> whole == walked_on(
                store,
                earlier,
                ObjectKind::ExtentPage,
                extent_page(),
                extent_opener(store),
                line,
                pages@,
                step,
            ));
            proof {
                reveal(extent_opened);
            }
            match decode_extent_page(bytes.as_slice(), self.limits().decode) {
                Err(error) => {
                    return Err(ClosureError::Decode(error));
                },
                Ok(ExtentPage::Leaf(extents)) => {
                    if !validate_extent_bounds(&extents, next.first_offset, next.end_offset) {
                        return Err(ClosureError::RoutingBoundsMismatch);
                    }
                    if let Err(error) = self.prove_extents(store, &extents) {
                        return Err(error);
                    }
                    proof {
                        assert(views(pending@) =~= line + Seq::<ExtentChildView>::empty());
                        assert(can ==> step == (
                            Ok::<(Seq<ExtentChildView>, ()), ClosureErrorView>((Seq::empty(), ())),
                            self@,
                        ));
                        assert(extents_sound(
                            objects,
                            limits,
                            sparse,
                            next.page@,
                            next.first_offset,
                            next.end_offset,
                            1,
                        ));
                        assert(child_waits(objects, limits, sparse, next));
                        if all_wait(objects, limits, sparse, pending@) {
                            assert(all_wait(objects, limits, sparse, waiting));
                        }
                        assert forall|target: ObjectView| #[trigger]
                            refers(objects, limits, next.page@, target) implies self@.objects.contains(
                            target,
                        ) by {
                            let own = views(extents@);
                            let k = choose|k: int|
                                0 <= k < own.len() && holds_content(#[trigger] own[k], target);
                            assert(holds_content(own[k], target));
                        }
                    }
                },
                Ok(ExtentPage::Internal(children)) => {
                    if !validate_extent_child_bounds(
                        &children,
                        next.first_offset,
                        next.end_offset,
                    ) {
                        return Err(ClosureError::RoutingBoundsMismatch);
                    }
                    let mut i: usize = children.len();
                    assert(rest + children@.skip(i as int).reverse() =~= rest);
                    while i > 0
                        invariant
                            i <= children@.len(),
                            pending@ == rest + children@.skip(i as int).reverse(),
                        decreases i,
                    {
                        i = i - 1;
                        let ghost prior = pending@;
                        pending.push(children[i]);
                        assert(children@.skip(i as int).reverse() =~= children@.skip(
                            i + 1,
                        ).reverse().push(children@[i as int]));
                        assert(pending@ =~= rest + children@.skip(i as int).reverse());
                    }
                    proof {
                        assert(children@.skip(0) =~= children@);
                        assert(views(pending@) =~= line + views(children@).reverse());
                        assert(can ==> step == (
                            Ok::<(Seq<ExtentChildView>, ()), ClosureErrorView>((views(children@).reverse(), ())),
                            self@,
                        ));
                        assert forall|j: int| 0 <= j < pending@.len() implies (
                        #[trigger] pending@[j]).page.kind == ObjectKind::ExtentPage by {
                            if j < rest.len() {
                                assert(pending@[j] == rest[j]);
                            } else {
                                let k = rest.len() + children@.len() - 1 - j;
                                assert(pending@[j] == children@[k]);
                                assert(views(children@)[k] == children@[k]@);
                                assert(extent_child_fits(views(children@)[k]));
                            }
                        }
                        if sound {
                            assert forall|j: int| 0 <= j < pending@.len() implies child_waits(
                                objects,
                                limits,
                                sparse,
                                #[trigger] pending@[j],
                            ) by {
                                if j < rest.len() {
                                    assert(pending@[j] == rest[j]);
                                } else {
                                    let k = rest.len() + children@.len() - 1 - j;
                                    assert(pending@[j] == children@[k]);
                                    assert(views(children@)[k] == children@[k]@);
                                    assert(extent_child_of(views(children@), k) == children@[k]@);
                                }
                            }
                        }
                        if all_wait(objects, limits, sparse, pending@) {
                            lemma_children_wait(
                                objects,
                                limits,
                                sparse,
                                rest,
                                next,
                                children@,
                                pending@,
                            );
                        }
                        assert forall|target: ObjectView| #[trigger]
                            refers(objects, limits, next.page@, target) implies pages_waiting(
                            pending@,
                        ).contains(target) by {
                            let own = views(children@);
                            let k = choose|k: int|
                                0 <= k < own.len() && (#[trigger] own[k]).page == target;
                            let at = rest.len() + children@.len() - 1 - k;
                            assert(pending@[at] == children@[k]);
                            assert(own[k] == children@[k]@);
                            assert(pages_waiting(pending@)[at] == target);
                        }
                    }
                },
            }
            proof {
                let line = pages_waiting(pending@);
                assert(pages_waiting(waiting) =~= pages_waiting(rest).push(next.page@));
                assert forall|j: int| 0 <= j < rest.len() implies line.contains(
                    #[trigger] pages_waiting(rest)[j],
                ) by {
                    assert(pending@[j] == rest[j]);
                    assert(line[j] == rest[j].page@);
                }
                lemma_page_closed(
                    objects,
                    limits,
                    begun.objects,
                    earlier.objects,
                    self@.objects,
                    pages_waiting(rest),
                    next.page@,
                    line,
                );
                if !self@.objects.contains(root@) {
                    let k = pages_waiting(waiting).index_of(root@);
                    assert(pages_waiting(rest)[k] == root@);
                }
            }
        }
        assert(all_wait(objects, limits, sparse, pending@));
        assert(pages_waiting(pending@) =~= Seq::<ObjectView>::empty());
        proof {
            assert(views(pending@) =~= Seq::<ExtentChildView>::empty());
            lemma_walk_step(
                store,
                self@,
                ObjectKind::ExtentPage,
                extent_page(),
                extent_opener(store),
                views(pending@),
                pages@,
                (),
            );
        }
        Ok(())
    }
}

/// Whether an error is one that proving an extent tree can end with.
pub open spec fn extent_failure_possible(error: ClosureError) -> bool {
    ||| resource_failure(error)
    ||| error is WrongObjectKind
    ||| error is RoutingAlias
    ||| error is RoutingBoundsMismatch
    ||| error is BlobLengthMismatch
    ||| error is BlobSpanOutsideObject
    ||| error is UnsupportedVolumeSemantics
    ||| error is RangeOverflow
    ||| error is Decode
}

} // verus!
