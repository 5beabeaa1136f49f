//! What extent trees say of the bytes of a file.

use super::closure::{common_height, some_height};
use super::closure_extent::{extent_child_of, extent_children_within, extents_within};
use super::codec::{DecodeErrorView, DecodeLimits, PageView};
use super::extent::{
    extent_adjoins, extent_child_adjoins, extent_child_fits, extent_children_ordered,
    extent_decoded, extent_end_of, extent_fits, extents_ordered, ExtentChildView, ExtentPageView,
    ExtentView,
};
use super::extent_patch::{
    byte_at, byte_of, covers, lemma_extents_disjoint, lemma_run_at, patched_at, run_of, runs_of,
    ByteView, PatchView,
};
use crate::storage::{extends, ObjectView, Objects};
use vstd::prelude::*;

verus! {

/// Bytes of a file by position.
pub type Bytes = spec_fn(int) -> ByteView;

/// Whether a page is the root of an extent tree of at most a given height over a
/// range of a file, and says of every byte of the range what the file says.
pub open spec fn tells(
    objects: Objects,
    limits: DecodeLimits,
    page: ObjectView,
    first: u64,
    end: u64,
    height: nat,
    file: Bytes,
) -> bool
    decreases height,
{
    &&& height > 0
    &&& objects(page) is Some
    &&& match extent_decoded(objects(page)->0, limits) {
        Err(_) => false,
        Ok(PageView::Leaf(extents)) => extents_within(extents, first, end) && extents_tell(
            extents,
            first as int,
            end as int,
            file,
        ),
        Ok(PageView::Internal(children)) => extent_children_within(children, first, end)
            && forall|i: int|
            0 <= i < children.len() ==> tells(
                objects,
                limits,
                (#[trigger] extent_child_of(children, i)).page,
                children[i].first_offset,
                children[i].end_offset,
                (height - 1) as nat,
                file,
            ),
    }
}

/// Whether extents say of every byte of a range what a file says.
pub open spec fn extents_tell(
    extents: Seq<ExtentView>,
    first: int,
    end: int,
    file: Bytes,
) -> bool {
    forall|x: int| first <= x < end ==> #[trigger] byte_at(extents, x) == Some(file(x))
}

/// Whether a page is the root of such a tree of some height.
pub open spec fn told(
    objects: Objects,
    limits: DecodeLimits,
    page: ObjectView,
    first: u64,
    end: u64,
    file: Bytes,
) -> bool {
    exists|height: nat| #[trigger] tells(objects, limits, page, first, end, height, file)
}

proof fn lemma_tells_higher(
    objects: Objects,
    limits: DecodeLimits,
    page: ObjectView,
    first: u64,
    end: u64,
    low: nat,
    high: nat,
    file: Bytes,
)
    requires
        tells(objects, limits, page, first, end, low, file),
        low <= high,
    ensures
        tells(objects, limits, page, first, end, high, file),
    decreases low,
{
    if let Ok(PageView::Internal(children)) = extent_decoded(objects(page)->0, limits) {
        assert forall|i: int| 0 <= i < children.len() implies tells(
            objects,
            limits,
            (#[trigger] extent_child_of(children, i)).page,
            children[i].first_offset,
            children[i].end_offset,
            (high - 1) as nat,
            file,
        ) by {
            lemma_tells_higher(
                objects,
                limits,
                extent_child_of(children, i).page,
                children[i].first_offset,
                children[i].end_offset,
                (low - 1) as nat,
                (high - 1) as nat,
                file,
            );
        }
    }
}

/// An internal page says what its children say.
pub proof fn lemma_internal_told(
    objects: Objects,
    limits: DecodeLimits,
    page: ObjectView,
    first: u64,
    end: u64,
    children: Seq<ExtentChildView>,
    file: Bytes,
)
    requires
        objects(page) is Some,
        extent_decoded(objects(page)->0, limits) == Ok::<ExtentPageView, DecodeErrorView>(
            PageView::Internal(children),
        ),
        extent_children_within(children, first, end),
        forall|i: int|
            0 <= i < children.len() ==> told(
                objects,
                limits,
                (#[trigger] extent_child_of(children, i)).page,
                children[i].first_offset,
                children[i].end_offset,
                file,
            ),
    ensures
        told(objects, limits, page, first, end, file),
{
    let holds_at = |i: int, height: nat|
        tells(
            objects,
            limits,
            extent_child_of(children, i).page,
            children[i].first_offset,
            children[i].end_offset,
            height,
            file,
        );
    assert forall|i: int, low: nat, high: nat|
        #![trigger holds_at(i, low), holds_at(i, high)]
        holds_at(i, low) && low <= high implies holds_at(i, high) by {
        lemma_tells_higher(
            objects,
            limits,
            extent_child_of(children, i).page,
            children[i].first_offset,
            children[i].end_offset,
            low,
            high,
            file,
        );
    }
    assert forall|i: int| 0 <= i < children.len() implies #[trigger] some_height(holds_at, i) by {
        let below = extent_child_of(children, i).page;
        let height = choose|height: nat| #[trigger]
            tells(
                objects,
                limits,
                below,
                children[i].first_offset,
                children[i].end_offset,
                height,
                file,
            );
        assert(holds_at(i, height));
    }
    let height = common_height(holds_at, children.len());
    assert(tells(objects, limits, page, first, end, height + 1, file)) by {
        assert forall|i: int| 0 <= i < children.len() implies tells(
            objects,
            limits,
            (#[trigger] extent_child_of(children, i)).page,
            children[i].first_offset,
            children[i].end_offset,
            height,
            file,
        ) by {
            assert(holds_at(i, height));
        }
    }
}

/// The children of a page that says something say it too.
pub proof fn lemma_children_told(
    objects: Objects,
    limits: DecodeLimits,
    page: ObjectView,
    first: u64,
    end: u64,
    children: Seq<ExtentChildView>,
    file: Bytes,
    i: int,
)
    requires
        told(objects, limits, page, first, end, file),
        extent_decoded(objects(page)->0, limits) == Ok::<ExtentPageView, DecodeErrorView>(
            PageView::Internal(children),
        ),
        0 <= i < children.len(),
    ensures
        extent_children_within(children, first, end),
        told(
            objects,
            limits,
            children[i].page,
            children[i].first_offset,
            children[i].end_offset,
            file,
        ),
{
    let height = choose|height: nat| #[trigger]
        tells(objects, limits, page, first, end, height, file);
    assert(tells(
        objects,
        limits,
        extent_child_of(children, i).page,
        children[i].first_offset,
        children[i].end_offset,
        (height - 1) as nat,
        file,
    ));
}

/// What a tree says it still says once a store holds more.
pub proof fn lemma_told_grows(
    before: Objects,
    after: Objects,
    limits: DecodeLimits,
    page: ObjectView,
    first: u64,
    end: u64,
    file: Bytes,
)
    requires
        extends(before, after),
        told(before, limits, page, first, end, file),
    ensures
        told(after, limits, page, first, end, file),
{
    let height = choose|height: nat| #[trigger]
        tells(before, limits, page, first, end, height, file);
    lemma_tells_grows(before, after, limits, page, first, end, height, file);
}

proof fn lemma_tells_grows(
    before: Objects,
    after: Objects,
    limits: DecodeLimits,
    page: ObjectView,
    first: u64,
    end: u64,
    height: nat,
    file: Bytes,
)
    requires
        extends(before, after),
        tells(before, limits, page, first, end, height, file),
    ensures
        tells(after, limits, page, first, end, height, file),
    decreases height,
{
    assert(after(page) == before(page));
    if let Ok(PageView::Internal(children)) = extent_decoded(before(page)->0, limits) {
        assert forall|i: int| 0 <= i < children.len() implies tells(
            after,
            limits,
            (#[trigger] extent_child_of(children, i)).page,
            children[i].first_offset,
            children[i].end_offset,
            (height - 1) as nat,
            file,
        ) by {
            lemma_tells_grows(
                before,
                after,
                limits,
                extent_child_of(children, i).page,
                children[i].first_offset,
                children[i].end_offset,
                (height - 1) as nat,
                file,
            );
        }
    }
}

/// Adjoining child ranges lie within the range that they fill.
pub proof fn lemma_children_range(children: Seq<ExtentChildView>, first: u64, end: u64)
    requires
        extent_children_ordered(children),
        extent_children_within(children, first, end),
    ensures
        forall|i: int|
            0 <= i < children.len() ==> first <= (#[trigger] children[i]).first_offset
                && children[i].end_offset <= end,
{
    lemma_children_from(children, (children.len() - 1) as nat);
    lemma_children_to(children, 0);
}

proof fn lemma_children_from(children: Seq<ExtentChildView>, upto: nat)
    requires
        extent_children_ordered(children),
        upto < children.len(),
    ensures
        forall|i: int|
            0 <= i <= upto ==> children[0].first_offset <= (#[trigger] children[i]).first_offset,
    decreases upto,
{
    if upto > 0 {
        lemma_children_from(children, (upto - 1) as nat);
        assert(extent_child_adjoins(children, upto as int));
        assert(extent_child_fits(children[upto - 1]));
    }
}

proof fn lemma_children_to(children: Seq<ExtentChildView>, from: nat)
    requires
        extent_children_ordered(children),
        from < children.len(),
    ensures
        forall|i: int|
            from <= i < children.len() ==> (#[trigger] children[i]).end_offset
                <= children.last().end_offset,
    decreases children.len() - from,
{
    if from + 1 < children.len() {
        lemma_children_to(children, from + 1);
        assert(extent_child_adjoins(children, from as int + 1));
        assert(extent_child_fits(children[from as int + 1]));
    }
}

/// A tree says the same of two files that agree on its range.
pub proof fn lemma_told_same(
    objects: Objects,
    limits: DecodeLimits,
    page: ObjectView,
    first: u64,
    end: u64,
    file: Bytes,
    other: Bytes,
)
    requires
        told(objects, limits, page, first, end, file),
        forall|x: int| first <= x < end ==> #[trigger] other(x) == file(x),
    ensures
        told(objects, limits, page, first, end, other),
{
    let height = choose|height: nat| #[trigger]
        tells(objects, limits, page, first, end, height, file);
    lemma_tells_same(objects, limits, page, first, end, height, file, other);
}

proof fn lemma_tells_same(
    objects: Objects,
    limits: DecodeLimits,
    page: ObjectView,
    first: u64,
    end: u64,
    height: nat,
    file: Bytes,
    other: Bytes,
)
    requires
        tells(objects, limits, page, first, end, height, file),
        forall|x: int| first <= x < end ==> #[trigger] other(x) == file(x),
    ensures
        tells(objects, limits, page, first, end, height, other),
    decreases height,
{
    match extent_decoded(objects(page)->0, limits) {
        Ok(PageView::Leaf(extents)) => {
            assert forall|x: int| first <= x < end implies #[trigger] byte_at(extents, x) == Some(
                other(x),
            ) by {
                assert(other(x) == file(x));
            }
        },
        Ok(PageView::Internal(children)) => {
            lemma_children_range(children, first, end);
            assert forall|i: int| 0 <= i < children.len() implies tells(
                objects,
                limits,
                (#[trigger] extent_child_of(children, i)).page,
                children[i].first_offset,
                children[i].end_offset,
                (height - 1) as nat,
                other,
            ) by {
                assert(first <= children[i].first_offset && children[i].end_offset <= end);
                lemma_tells_same(
                    objects,
                    limits,
                    extent_child_of(children, i).page,
                    children[i].first_offset,
                    children[i].end_offset,
                    (height - 1) as nat,
                    file,
                    other,
                );
            }
        },
        Err(_) => {},
    }
}

/// Whether a list of trees says of every byte of a range what a file says: one tree
/// after the other, without gaps.
pub open spec fn list_told(
    objects: Objects,
    limits: DecodeLimits,
    list: Seq<ExtentChildView>,
    first: int,
    end: int,
    file: Bytes,
) -> bool {
    &&& list.len() == 0 ==> first == end
    &&& list.len() > 0 ==> {
        &&& extent_children_ordered(list)
        &&& list[0].first_offset == first
        &&& list.last().end_offset == end
    }
    &&& forall|i: int|
        0 <= i < list.len() ==> told(
            objects,
            limits,
            (#[trigger] extent_child_of(list, i)).page,
            list[i].first_offset,
            list[i].end_offset,
            file,
        )
}

/// What a list says it still says once a store holds more.
pub proof fn lemma_list_grows(
    before: Objects,
    after: Objects,
    limits: DecodeLimits,
    list: Seq<ExtentChildView>,
    first: int,
    end: int,
    file: Bytes,
)
    requires
        extends(before, after),
        list_told(before, limits, list, first, end, file),
    ensures
        list_told(after, limits, list, first, end, file),
{
    assert forall|i: int| 0 <= i < list.len() implies told(
        after,
        limits,
        (#[trigger] extent_child_of(list, i)).page,
        list[i].first_offset,
        list[i].end_offset,
        file,
    ) by {
        let child = extent_child_of(list, i);
        lemma_told_grows(
            before,
            after,
            limits,
            child.page,
            child.first_offset,
            child.end_offset,
            file,
        );
    }
}

/// Two lists, one behind the other, say what both say.
pub proof fn lemma_list_joins(
    objects: Objects,
    limits: DecodeLimits,
    a: Seq<ExtentChildView>,
    b: Seq<ExtentChildView>,
    first: int,
    middle: int,
    end: int,
    file: Bytes,
)
    requires
        list_told(objects, limits, a, first, middle, file),
        list_told(objects, limits, b, middle, end, file),
    ensures
        list_told(objects, limits, a + b, first, end, file),
{
    let list = a + b;
    if list.len() > 0 {
        assert forall|i: int| 0 <= i < list.len() implies extent_child_fits(#[trigger] list[i]) by {
            if i < a.len() {
                assert(list[i] == a[i]);
            } else {
                assert(list[i] == b[i - a.len()]);
            }
        }
        assert forall|i: int| 0 < i < list.len() implies #[trigger] extent_child_adjoins(list, i) by {
            if i < a.len() {
                assert(extent_child_adjoins(a, i));
            } else if i > a.len() {
                assert(extent_child_adjoins(b, i - a.len()));
            }
        }
    }
    assert forall|i: int| 0 <= i < list.len() implies told(
        objects,
        limits,
        (#[trigger] extent_child_of(list, i)).page,
        list[i].first_offset,
        list[i].end_offset,
        file,
    ) by {
        if i < a.len() {
            assert(extent_child_of(a, i) == list[i]);
        } else {
            assert(extent_child_of(b, i - a.len()) == list[i]);
        }
    }
}

/// A list of one tree.
pub proof fn lemma_list_one(
    objects: Objects,
    limits: DecodeLimits,
    child: ExtentChildView,
    file: Bytes,
)
    requires
        extent_child_fits(child),
        told(objects, limits, child.page, child.first_offset, child.end_offset, file),
    ensures
        list_told(
            objects,
            limits,
            seq![child],
            child.first_offset as int,
            child.end_offset as int,
            file,
        ),
{
    let list = seq![child];
    assert(extent_children_ordered(list));
    assert forall|i: int| 0 <= i < list.len() implies told(
        objects,
        limits,
        (#[trigger] extent_child_of(list, i)).page,
        list[i].first_offset,
        list[i].end_offset,
        file,
    ) by {
        assert(list[i] == child);
    }
}

/// A part of a list says what the list says of its range.
pub proof fn lemma_list_part(
    objects: Objects,
    limits: DecodeLimits,
    list: Seq<ExtentChildView>,
    first: int,
    end: int,
    file: Bytes,
    from: int,
    to: int,
)
    requires
        list_told(objects, limits, list, first, end, file),
        0 <= from < to <= list.len(),
    ensures
        list_told(
            objects,
            limits,
            list.subrange(from, to),
            list[from].first_offset as int,
            list[to - 1].end_offset as int,
            file,
        ),
        to < list.len() ==> list[to - 1].end_offset == list[to].first_offset,
{
    let part = list.subrange(from, to);
    assert forall|i: int| 0 <= i < part.len() implies extent_child_fits(#[trigger] part[i]) by {
        assert(part[i] == list[from + i]);
    }
    assert forall|i: int| 0 < i < part.len() implies #[trigger] extent_child_adjoins(part, i) by {
        assert(extent_child_adjoins(list, from + i));
    }
    assert forall|i: int| 0 <= i < part.len() implies told(
        objects,
        limits,
        (#[trigger] extent_child_of(part, i)).page,
        part[i].first_offset,
        part[i].end_offset,
        file,
    ) by {
        assert(extent_child_of(list, from + i) == part[i]);
    }
    if to < list.len() {
        assert(extent_child_adjoins(list, to));
    }
}

/// Adjoining extents hold every byte between their first and their last.
proof fn lemma_extent_holding(extents: Seq<ExtentView>, from: int, to: int, x: int) -> (at: int)
    requires
        extents_ordered(extents),
        0 <= from < to <= extents.len(),
        extents[from].offset <= x < extent_end_of(extents[to - 1]),
    ensures
        from <= at < to,
        extents[at].offset <= x < extent_end_of(extents[at]),
    decreases to - from,
{
    if x < extent_end_of(extents[from]) {
        from
    } else {
        assert(from + 1 < to);
        assert(extent_adjoins(extents, from + 1));
        lemma_extent_holding(extents, from + 1, to, x)
    }
}

/// The extent that holds a byte says what it is.
pub proof fn lemma_held_byte(extents: Seq<ExtentView>, at: int, x: int)
    requires
        extents_ordered(extents),
        0 <= at < extents.len(),
        extents[at].offset <= x < extent_end_of(extents[at]),
    ensures
        byte_at(extents, x) == Some(byte_of(extents[at].kind, x - extents[at].offset)),
{
    lemma_extents_disjoint(extents);
    let runs = runs_of(extents);
    assert(extent_fits(extents[at]));
    assert(runs[at] == run_of(extents[at]));
    assert(covers(runs[at], x));
    assert forall|j: int| at < j < runs.len() implies !covers(#[trigger] runs[j], x) by {
        assert(runs[at].end <= runs[j].offset);
    }
    lemma_run_at(runs, x, at, runs.len());
}

/// A part of adjoining extents says what they say of its range.
pub proof fn lemma_extents_part(
    extents: Seq<ExtentView>,
    from: int,
    to: int,
    file: Bytes,
)
    requires
        extents_ordered(extents),
        0 <= from < to <= extents.len(),
        extents_tell(
            extents,
            extents[from].offset as int,
            extent_end_of(extents[to - 1]),
            file,
        ),
    ensures
        extents_ordered(extents.subrange(from, to)),
        extents_tell(
            extents.subrange(from, to),
            extents[from].offset as int,
            extent_end_of(extents[to - 1]),
            file,
        ),
{
    let part = extents.subrange(from, to);
    assert forall|i: int| 0 <= i < part.len() implies extent_fits(#[trigger] part[i]) by {
        assert(part[i] == extents[from + i]);
    }
    assert forall|i: int| 0 < i < part.len() implies #[trigger] extent_adjoins(part, i) by {
        assert(extent_adjoins(extents, from + i));
    }
    assert forall|x: int|
        extents[from].offset <= x < extent_end_of(extents[to - 1]) implies #[trigger] byte_at(
        part,
        x,
    ) == Some(file(x)) by {
        let at = lemma_extent_holding(extents, from, to, x);
        lemma_held_byte(extents, at, x);
        assert(part[at - from] == extents[at]);
        lemma_held_byte(part, at - from, x);
        assert(byte_at(extents, x) == Some(file(x)));
    }
}

/// A file with patches laid over it.
pub open spec fn overlaid_file(patches: Seq<PatchView>, file: Bytes) -> Bytes {
    |x: int|
        match patched_at(patches, x) {
            Some(byte) => byte,
            None => file(x),
        }
}

} // verus!
