//! Ordered extent mutations compiled to disjoint patches and laid over extents.

use super::extent::{
    extent_adjoins, extent_end_of, extent_fits, extents_ordered, kind_fits, Extent, ExtentKind,
    ExtentKindView, ExtentView,
};
use crate::order::views;
use crate::storage::{ObjectKind, ObjectView};
use vstd::prelude::*;

verus! {

/// One ordered logical-file extent mutation.
#[derive(Clone, Copy, Debug, PartialEq, Eq)]
pub enum ExtentMutation {
    /// Replaces one byte range with content, a hole, or allocated zeros.
    Replace {
        /// Inclusive logical destination offset.
        offset: u64,
        /// Positive byte count.
        length: u64,
        /// Replacement representation. Content offset corresponds to `offset`.
        kind: ExtentKind,
        /// Whether this operation may extend logical file length.
        extend: bool,
    },
    /// Truncates or extends; growth is always represented by holes.
    Resize {
        /// New exact logical byte length.
        logical_bytes: u64,
    },
}

/// Abstract value of [`ExtentMutation`].
#[verifier::ext_equal]
pub enum ExtentMutationView {
    /// Replaces one byte range with content, a hole, or allocated zeros.
    Replace {
        /// Inclusive logical destination offset.
        offset: u64,
        /// Positive byte count.
        length: u64,
        /// Replacement representation.
        kind: ExtentKindView,
        /// Whether this operation may extend logical file length.
        extend: bool,
    },
    /// Truncates or extends.
    Resize {
        /// New exact logical byte length.
        logical_bytes: u64,
    },
}

impl View for ExtentMutation {
    type V = ExtentMutationView;

    open spec fn view(&self) -> ExtentMutationView {
        match *self {
            ExtentMutation::Replace { offset, length, kind, extend } => {
                ExtentMutationView::Replace { offset, length, kind: kind@, extend }
            },
            ExtentMutation::Resize { logical_bytes } => ExtentMutationView::Resize {
                logical_bytes,
            },
        }
    }
}

/// Range failures of extent mutations.
#[derive(Clone, Copy, Debug, PartialEq, Eq, Structural)]
pub enum ExtentRangeError {
    /// Replacement range must be non-empty.
    EmptyRange,
    /// Range arithmetic overflowed.
    RangeOverflow,
    /// Non-extending replacement exceeds current logical file length.
    OutsideFile,
    /// Content replacement references another object class.
    WrongContentKind,
}

/// What one byte of a sparse file is.
pub enum ByteView {
    /// Never written.
    Hole,
    /// Allocated and zero.
    Zero,
    /// A byte of a blob.
    Content(ObjectView, int),
}

/// The byte at a distance behind the beginning of a run.
pub open spec fn byte_of(kind: ExtentKindView, delta: int) -> ByteView {
    match kind {
        ExtentKindView::Hole => ByteView::Hole,
        ExtentKindView::AllocatedZero => ByteView::Zero,
        ExtentKindView::Content { object, object_offset } => ByteView::Content(
            object,
            object_offset + delta,
        ),
    }
}

/// A run of bytes that replaces others.
#[derive(Clone, Copy, Debug, PartialEq, Eq)]
pub struct Patch {
    /// First byte.
    pub offset: u64,
    /// End of the run.
    pub end: u64,
    /// What the bytes are.
    pub kind: ExtentKind,
}

/// Abstract value of [`Patch`].
#[verifier::ext_equal]
pub struct PatchView {
    /// First byte.
    pub offset: u64,
    /// End of the run.
    pub end: u64,
    /// What the bytes are.
    pub kind: ExtentKindView,
}

impl View for Patch {
    type V = PatchView;

    open spec fn view(&self) -> PatchView {
        PatchView { offset: self.offset, end: self.end, kind: self.kind@ }
    }
}

/// Whether a run holds a byte.
pub open spec fn covers(run: PatchView, x: int) -> bool {
    run.offset <= x < run.end
}

/// The byte that the last of the first `count` runs holding it says it is.
pub open spec fn run_at(runs: Seq<PatchView>, x: int, count: nat) -> Option<ByteView>
    decreases count,
{
    if count == 0 {
        None
    } else if covers(runs[count - 1], x) {
        Some(byte_of(runs[count - 1].kind, x - runs[count - 1].offset))
    } else {
        run_at(runs, x, (count - 1) as nat)
    }
}

/// The byte that the last run holding it says it is.
pub open spec fn patched_at(runs: Seq<PatchView>, x: int) -> Option<ByteView> {
    run_at(runs, x, runs.len())
}

/// The run of an extent.
pub open spec fn run_of(extent: ExtentView) -> PatchView {
    PatchView {
        offset: extent.offset,
        end: (extent.offset + extent.length) as u64,
        kind: extent.kind,
    }
}

/// The runs of extents.
pub open spec fn runs_of(extents: Seq<ExtentView>) -> Seq<PatchView> {
    Seq::new(extents.len(), |i: int| run_of(extents[i]))
}

/// The byte that extents say a position is.
pub open spec fn byte_at(extents: Seq<ExtentView>, x: int) -> Option<ByteView> {
    patched_at(runs_of(extents), x)
}

/// Whether a run is in order by itself.
pub open spec fn run_fits(run: PatchView) -> bool {
    run.offset < run.end && kind_fits(run.kind, (run.end - run.offset) as u64)
}

/// Whether runs are in order, ascending and disjoint.
pub open spec fn runs_disjoint(runs: Seq<PatchView>) -> bool {
    &&& forall|i: int| 0 <= i < runs.len() ==> run_fits(#[trigger] runs[i])
    &&& forall|i: int, j: int|
        0 <= i < j < runs.len() ==> (#[trigger] runs[i]).end <= (#[trigger] runs[j]).offset
}

/// A run that holds a byte, with no later one holding it, says what it is.
pub proof fn lemma_run_at(runs: Seq<PatchView>, x: int, at: int, count: nat)
    requires
        0 <= at < count <= runs.len(),
        covers(runs[at], x),
        forall|j: int| at < j < count ==> !covers(#[trigger] runs[j], x),
    ensures
        run_at(runs, x, count) == Some(byte_of(runs[at].kind, x - runs[at].offset)),
    decreases count,
{
    if at < count - 1 {
        lemma_run_at(runs, x, at, (count - 1) as nat);
    }
}

/// A byte that no run holds is not said to be anything.
pub proof fn lemma_run_none(runs: Seq<PatchView>, x: int, count: nat)
    requires
        count <= runs.len(),
        forall|j: int| 0 <= j < count ==> !covers(#[trigger] runs[j], x),
    ensures
        run_at(runs, x, count) is None,
    decreases count,
{
    if count > 0 {
        lemma_run_none(runs, x, (count - 1) as nat);
    }
}

proof fn lemma_run_prefix(a: Seq<PatchView>, b: Seq<PatchView>, x: int, count: nat)
    requires
        count <= a.len(),
        count <= b.len(),
        forall|i: int| 0 <= i < count ==> a[i] == #[trigger] b[i],
    ensures
        run_at(a, x, count) == run_at(b, x, count),
    decreases count,
{
    if count > 0 {
        lemma_run_prefix(a, b, x, (count - 1) as nat);
        assert(a[count - 1] == b[count - 1]);
    }
}

/// A run added at the end decides its own bytes and no others.
pub proof fn lemma_run_push(runs: Seq<PatchView>, run: PatchView, x: int)
    ensures
        patched_at(runs.push(run), x) == (if covers(run, x) {
            Some(byte_of(run.kind, x - run.offset))
        } else {
            patched_at(runs, x)
        }),
{
    lemma_run_prefix(runs.push(run), runs, x, runs.len());
}

/// A byte that is said to be something is held by a run, the last one of which says so.
pub(crate) proof fn lemma_run_found(runs: Seq<PatchView>, x: int, count: nat) -> (at: int)
    requires
        count <= runs.len(),
        run_at(runs, x, count) is Some,
    ensures
        0 <= at < count,
        covers(runs[at], x),
        forall|j: int| at < j < count ==> !covers(#[trigger] runs[j], x),
        run_at(runs, x, count) == Some(byte_of(runs[at].kind, x - runs[at].offset)),
    decreases count,
{
    if covers(runs[count - 1], x) {
        count - 1
    } else {
        lemma_run_found(runs, x, (count - 1) as nat)
    }
}

/// Logical size after the first `count` mutations.
pub open spec fn replay_size(old_size: u64, mutations: Seq<ExtentMutationView>, count: nat) -> int
    decreases count,
{
    if count == 0 {
        old_size as int
    } else {
        let size = replay_size(old_size, mutations, (count - 1) as nat);
        match mutations[count - 1] {
            ExtentMutationView::Replace { offset, length, .. } => if offset + length > size {
                offset + length
            } else {
                size
            },
            ExtentMutationView::Resize { logical_bytes } => logical_bytes as int,
        }
    }
}

/// What a byte within the file is after the first `count` mutations, one
/// after another: replaced bytes are the replacement, bytes that come into
/// being otherwise are holes, and all others stay.
pub open spec fn replay_byte(
    old: spec_fn(int) -> ByteView,
    old_size: u64,
    mutations: Seq<ExtentMutationView>,
    count: nat,
    x: int,
) -> ByteView
    decreases count,
{
    if count == 0 {
        old(x)
    } else {
        let size = replay_size(old_size, mutations, (count - 1) as nat);
        match mutations[count - 1] {
            ExtentMutationView::Replace { offset, length, kind, .. } => if offset <= x < offset
                + length {
                byte_of(kind, x - offset)
            } else if x >= size {
                ByteView::Hole
            } else {
                replay_byte(old, old_size, mutations, (count - 1) as nat, x)
            },
            ExtentMutationView::Resize { logical_bytes } => if x >= size {
                ByteView::Hole
            } else {
                replay_byte(old, old_size, mutations, (count - 1) as nat, x)
            },
        }
    }
}

/// Why a mutation is refused on a file of a given size.
pub open spec fn mutation_refused(mutation: ExtentMutationView, size: int) -> Option<
    ExtentRangeError,
> {
    match mutation {
        ExtentMutationView::Replace { offset, length, kind, extend } => if length == 0 {
            Some(ExtentRangeError::EmptyRange)
        } else if kind matches ExtentKindView::Content { object, .. } && object.kind
            != ObjectKind::Blob {
            Some(ExtentRangeError::WrongContentKind)
        } else if !kind_fits(kind, length) || offset + length > u64::MAX {
            Some(ExtentRangeError::RangeOverflow)
        } else if offset + length > size && !extend {
            Some(ExtentRangeError::OutsideFile)
        } else {
            None
        },
        ExtentMutationView::Resize { .. } => None,
    }
}

/// Why the first `count` mutations are refused, if they are.
pub open spec fn plan_refused(
    old_size: u64,
    mutations: Seq<ExtentMutationView>,
    count: nat,
) -> Option<ExtentRangeError>
    decreases count,
{
    if count == 0 {
        None
    } else {
        match plan_refused(old_size, mutations, (count - 1) as nat) {
            Some(error) => Some(error),
            None => mutation_refused(
                mutations[count - 1],
                replay_size(old_size, mutations, (count - 1) as nat),
            ),
        }
    }
}

pub(crate) proof fn lemma_refused_stays(
    old_size: u64,
    mutations: Seq<ExtentMutationView>,
    count: nat,
    upto: nat,
)
    requires
        count <= upto,
        plan_refused(old_size, mutations, count) is Some,
    ensures
        plan_refused(old_size, mutations, upto) == plan_refused(old_size, mutations, count),
    decreases upto,
{
    if count < upto {
        lemma_refused_stays(old_size, mutations, count, (upto - 1) as nat);
    }
}

pub(crate) fn refuse(mutation: &ExtentMutation, size: u64) -> (r: Option<ExtentRangeError>)
    ensures
        r == mutation_refused(mutation@, size as int),
{
    match mutation {
        ExtentMutation::Replace { offset, length, kind, extend } => {
            if *length == 0 {
                return Some(ExtentRangeError::EmptyRange);
            }
            if let ExtentKind::Content { object, object_offset } = kind {
                if object.kind != ObjectKind::Blob {
                    return Some(ExtentRangeError::WrongContentKind);
                }
                if *length > u64::MAX - *object_offset {
                    return Some(ExtentRangeError::RangeOverflow);
                }
            }
            if *length > u64::MAX - *offset {
                return Some(ExtentRangeError::RangeOverflow);
            }
            if *offset + *length > size && !*extend {
                return Some(ExtentRangeError::OutsideFile);
            }
            None
        },
        ExtentMutation::Resize { .. } => None,
    }
}

/// Whether raw patches say of every byte within the file what replaying the
/// first `count` mutations makes of it.
pub open spec fn tells_replay(
    raw: Seq<PatchView>,
    old_size: u64,
    mutations: Seq<ExtentMutationView>,
    count: nat,
) -> bool {
    forall|old: spec_fn(int) -> ByteView, x: int|
        #![trigger replay_byte(old, old_size, mutations, count, x)]
        0 <= x < replay_size(old_size, mutations, count) ==> match patched_at(raw, x) {
            Some(byte) => replay_byte(old, old_size, mutations, count, x) == byte,
            None => x < old_size && replay_byte(old, old_size, mutations, count, x) == old(x),
        }
}

/// Whether every raw patch is in order by itself.
pub open spec fn runs_fit(runs: Seq<PatchView>) -> bool {
    forall|i: int| 0 <= i < runs.len() ==> run_fits(#[trigger] runs[i])
}

pub(crate) proof fn lemma_replay_replace(
    raw: Seq<PatchView>,
    next: Seq<PatchView>,
    old_size: u64,
    mutations: Seq<ExtentMutationView>,
    count: nat,
)
    requires
        count < mutations.len(),
        tells_replay(raw, old_size, mutations, count),
        replay_size(old_size, mutations, count) >= 0,
        mutations[count as int] is Replace,
        mutation_refused(
            mutations[count as int],
            replay_size(old_size, mutations, count),
        ) is None,
        ({
            let size = replay_size(old_size, mutations, count);
            let m = mutations[count as int];
            let own = PatchView {
                offset: m->offset,
                end: (m->offset + m->length) as u64,
                kind: m->kind,
            };
            if m->offset > size {
                next == raw.push(
                    PatchView { offset: size as u64, end: m->offset, kind: ExtentKindView::Hole },
                ).push(own)
            } else {
                next == raw.push(own)
            }
        }),
    ensures
        tells_replay(next, old_size, mutations, count + 1),
{
    let size = replay_size(old_size, mutations, count);
    let m = mutations[count as int];
    let own = PatchView {
        offset: m->offset,
        end: (m->offset + m->length) as u64,
        kind: m->kind,
    };
    let gap = PatchView { offset: size as u64, end: m->offset, kind: ExtentKindView::Hole };
    assert forall|old: spec_fn(int) -> ByteView, x: int|
        #![trigger replay_byte(old, old_size, mutations, count + 1, x)]
        0 <= x < replay_size(old_size, mutations, count + 1) implies match patched_at(next, x) {
        Some(byte) => replay_byte(old, old_size, mutations, count + 1, x) == byte,
        None => x < old_size && replay_byte(old, old_size, mutations, count + 1, x) == old(x),
    } by {
        let before = replay_byte(old, old_size, mutations, count, x);
        if m->offset > size {
            lemma_run_push(raw.push(gap), own, x);
            lemma_run_push(raw, gap, x);
        } else {
            lemma_run_push(raw, own, x);
        }
    }
}

pub(crate) proof fn lemma_replay_resize(
    raw: Seq<PatchView>,
    next: Seq<PatchView>,
    old_size: u64,
    mutations: Seq<ExtentMutationView>,
    count: nat,
)
    requires
        count < mutations.len(),
        tells_replay(raw, old_size, mutations, count),
        0 <= replay_size(old_size, mutations, count) <= u64::MAX,
        mutations[count as int] is Resize,
        ({
            let size = replay_size(old_size, mutations, count);
            let target = mutations[count as int]->logical_bytes;
            if target == size {
                next == raw
            } else if target > size {
                next == raw.push(
                    PatchView { offset: size as u64, end: target, kind: ExtentKindView::Hole },
                )
            } else {
                next == raw.push(
                    PatchView { offset: target, end: size as u64, kind: ExtentKindView::Hole },
                )
            }
        }),
    ensures
        tells_replay(next, old_size, mutations, count + 1),
{
    let size = replay_size(old_size, mutations, count);
    let target = mutations[count as int]->logical_bytes;
    let grow = PatchView { offset: size as u64, end: target, kind: ExtentKindView::Hole };
    let shrink = PatchView { offset: target, end: size as u64, kind: ExtentKindView::Hole };
    assert forall|old: spec_fn(int) -> ByteView, x: int|
        #![trigger replay_byte(old, old_size, mutations, count + 1, x)]
        0 <= x < replay_size(old_size, mutations, count + 1) implies match patched_at(next, x) {
        Some(byte) => replay_byte(old, old_size, mutations, count + 1, x) == byte,
        None => x < old_size && replay_byte(old, old_size, mutations, count + 1, x) == old(x),
    } by {
        let before = replay_byte(old, old_size, mutations, count, x);
        if target > size {
            lemma_run_push(raw, grow, x);
        } else if target < size {
            lemma_run_push(raw, shrink, x);
        }
    }
}

/// Whether numbers ascend.
pub open spec fn numbers_ascend(values: Seq<u64>) -> bool {
    forall|i: int, j: int| 0 <= i < j < values.len() ==> (#[trigger] values[i]) < (#[trigger] values[j])
}

/// Whether every bound of a run within a size is among given numbers.
pub open spec fn bounds_listed(runs: Seq<PatchView>, size: u64, values: Seq<u64>, count: int) -> bool {
    forall|i: int|
        0 <= i < count && (#[trigger] runs[i]).offset < size ==> values.contains(runs[i].offset)
            && values.contains(
            if runs[i].end < size {
                runs[i].end
            } else {
                size
            },
        )
}

/// The kind of a run moved forward.
pub open spec fn kind_moved(kind: ExtentKindView, delta: u64) -> ExtentKindView {
    match kind {
        ExtentKindView::Content { object, object_offset } => ExtentKindView::Content {
            object,
            object_offset: (object_offset + delta) as u64,
        },
        other => other,
    }
}

/// The kind of the rest of a run behind a distance.
pub fn offset_kind(kind: &ExtentKind, delta: u64) -> (r: ExtentKind)
    requires
        kind@ matches ExtentKindView::Content { object_offset, .. } ==> object_offset + delta
            <= u64::MAX,
    ensures
        r@ == kind_moved(kind@, delta),
{
    match kind {
        ExtentKind::Content { object, object_offset } => ExtentKind::Content {
            object: *object,
            object_offset: *object_offset + delta,
        },
        ExtentKind::Hole => ExtentKind::Hole,
        ExtentKind::AllocatedZero => ExtentKind::AllocatedZero,
    }
}

/// Whether the second of two adjoining runs goes on where the first stops.
pub open spec fn continues(left: PatchView, right: PatchView) -> bool {
    left.end == right.offset && match (left.kind, right.kind) {
        (ExtentKindView::Hole, ExtentKindView::Hole) => true,
        (ExtentKindView::AllocatedZero, ExtentKindView::AllocatedZero) => true,
        (
            ExtentKindView::Content { object: a, object_offset: x },
            ExtentKindView::Content { object: b, object_offset: y },
        ) => a == b && x + (left.end - left.offset) == y,
        _ => false,
    }
}

/// Tells whether the second of two runs goes on where the first stops.
pub fn run_continues(left: &Patch, right: &Patch) -> (r: bool)
    requires
        run_fits(left@),
    ensures
        r == continues(left@, right@),
{
    if left.end != right.offset {
        return false;
    }
    match (&left.kind, &right.kind) {
        (ExtentKind::Hole, ExtentKind::Hole) => true,
        (ExtentKind::AllocatedZero, ExtentKind::AllocatedZero) => true,
        (
            ExtentKind::Content { object: a, object_offset: x },
            ExtentKind::Content { object: b, object_offset: y },
        ) => a.same(b) && *x + (left.end - left.offset) == *y,
        _ => false,
    }
}

/// Two runs of which the second goes on where the first stops say together
/// what each of them says.
proof fn lemma_join(left: PatchView, right: PatchView, x: int)
    requires
        run_fits(left),
        run_fits(right),
        continues(left, right),
    ensures
        ({
            let joined = PatchView { end: right.end, ..left };
            &&& run_fits(joined)
            &&& covers(joined, x) == (covers(left, x) || covers(right, x))
            &&& covers(left, x) ==> byte_of(joined.kind, x - joined.offset) == byte_of(
                left.kind,
                x - left.offset,
            )
            &&& covers(right, x) ==> byte_of(joined.kind, x - joined.offset) == byte_of(
                right.kind,
                x - right.offset,
            )
        }),
{
}

/// Whether no run goes on where the one before it stops.
pub open spec fn runs_joined(runs: Seq<PatchView>) -> bool {
    forall|i: int| 0 < i < runs.len() ==> !#[trigger] goes_on(runs, i)
}

/// Whether a run goes on where the one before it stops.
pub open spec fn goes_on(runs: Seq<PatchView>, i: int) -> bool {
    continues(runs[i - 1], runs[i])
}

/// Runs with another behind them, joined to the last one where it goes on.
pub open spec fn run_pushed(runs: Seq<PatchView>, run: PatchView) -> Seq<PatchView> {
    if runs.len() > 0 && continues(runs.last(), run) {
        runs.drop_last().push(PatchView { end: run.end, ..runs.last() })
    } else {
        runs.push(run)
    }
}

/// Adds a run behind others, joined to the last one where it goes on.
pub(crate) fn push_run(runs: &mut Vec<Patch>, run: Patch)
    requires
        runs_disjoint(views(old(runs)@)),
        runs_joined(views(old(runs)@)),
        run_fits(run@),
        old(runs)@.len() > 0 ==> views(old(runs)@).last().end <= run.offset,
    ensures
        views(final(runs)@) == run_pushed(views(old(runs)@), run@),
        runs_disjoint(views(final(runs)@)),
        runs_joined(views(final(runs)@)),
        0 < final(runs)@.len() <= old(runs)@.len() + 1,
        views(final(runs)@).last().end == run.end,
        forall|x: int| #[trigger]
            patched_at(views(final(runs)@), x) == (if covers(run@, x) {
                Some(byte_of(run@.kind, x - run.offset))
            } else {
                patched_at(views(old(runs)@), x)
            }),
        old(runs)@.len() > 0 ==> views(final(runs)@)[0].offset == views(old(runs)@)[0].offset,
        old(runs)@.len() == 0 ==> views(final(runs)@)[0].offset == run.offset,
{
    let ghost start = views(runs@);
    let count = runs.len();
    if count > 0 {
        let last = runs[count - 1];
        assert(start.last() == last@);
        assert(start[count - 1] == last@);
        if run_continues(&last, &run) {
            let joined = Patch { offset: last.offset, end: run.end, kind: last.kind };
            runs.set(count - 1, joined);
            let ghost next = views(runs@);
            proof {
                assert(next =~= start.update(count - 1, joined@));
                let front = start.drop_last();
                assert(start =~= front.push(last@));
                assert(next =~= front.push(joined@));
                lemma_join(last@, run@, 0);
                assert forall|x: int| #[trigger] patched_at(next, x) == (if covers(run@, x) {
                    Some(byte_of(run@.kind, x - run.offset))
                } else {
                    patched_at(start, x)
                }) by {
                    lemma_join(last@, run@, x);
                    lemma_run_push(front, last@, x);
                    lemma_run_push(front, joined@, x);
                }
                assert forall|i: int| 0 < i < next.len() implies !#[trigger] goes_on(next, i) by {
                    assert(!goes_on(start, i));
                }
                assert(runs_disjoint(next)) by {
                    assert forall|i: int, j: int| 0 <= i < j < next.len() implies (
                    #[trigger] next[i]).end <= (#[trigger] next[j]).offset by {
                        assert(start[i].end <= start[j].offset);
                    }
                }
            }
            return;
        }
    }
    runs.push(run);
    let ghost next = views(runs@);
    proof {
        assert(next =~= start.push(run@));
        assert forall|x: int| #[trigger] patched_at(next, x) == (if covers(run@, x) {
            Some(byte_of(run@.kind, x - run.offset))
        } else {
            patched_at(start, x)
        }) by {
            lemma_run_push(start, run@, x);
        }
        assert forall|i: int, j: int| 0 <= i < j < next.len() implies (#[trigger] next[i]).end <= (
        #[trigger] next[j]).offset by {
            if j < start.len() {
                assert(start[i].end <= start[j].offset);
            } else {
                let n = start.len() - 1;
                if i < n {
                    assert(start[i].end <= start[n].offset);
                    assert(run_fits(start[n]));
                }
            }
        }
        assert forall|i: int| 0 < i < next.len() implies !#[trigger] goes_on(next, i) by {
            if i < start.len() {
                assert(!goes_on(start, i));
            }
        }
    }
}

/// Between two neighbouring bounds a raw patch holds either every byte or none.
pub(crate) proof fn lemma_elementary(
    runs: Seq<PatchView>,
    size: u64,
    values: Seq<u64>,
    k: int,
    i: int,
    x: int,
)
    requires
        runs_fit(runs),
        numbers_ascend(values),
        bounds_listed(runs, size, values, runs.len() as int),
        0 <= k,
        k + 1 < values.len(),
        forall|j: int| 0 <= j < values.len() ==> values[j] <= size,
        0 <= i < runs.len(),
        values[k] <= x < values[k + 1],
    ensures
        covers(runs[i], x) == covers(runs[i], values[k] as int),
{
    let run = runs[i];
    let low = values[k];
    if run.offset < size {
        let stop = if run.end < size {
            run.end
        } else {
            size
        };
        let a = values.index_of(run.offset);
        let b = values.index_of(stop);
        assert(values[a] == run.offset);
        assert(values[b] == stop);
        if a <= k {
            if a < k {
                assert(values[a] < values[k]);
            }
        } else {
            if k + 1 < a {
                assert(values[k + 1] < values[a]);
            }
        }
        if b <= k {
            if b < k {
                assert(values[b] < values[k]);
            }
        } else {
            if k + 1 < b {
                assert(values[k + 1] < values[b]);
            }
        }
    }
}

/// Adjoining extents are disjoint runs.
pub proof fn lemma_extents_disjoint(extents: Seq<ExtentView>)
    requires
        extents_ordered(extents),
    ensures
        runs_disjoint(runs_of(extents)),
    decreases extents.len(),
{
    let runs = runs_of(extents);
    assert forall|i: int| 0 <= i < runs.len() implies run_fits(#[trigger] runs[i]) by {
        assert(extent_fits(extents[i]));
    }
    assert forall|i: int, j: int| 0 <= i < j < runs.len() implies (#[trigger] runs[i]).end <= (
    #[trigger] runs[j]).offset by {
        lemma_extents_apart(extents, i, j);
    }
}

proof fn lemma_extents_apart(extents: Seq<ExtentView>, i: int, j: int)
    requires
        extents_ordered(extents),
        0 <= i < j < extents.len(),
    ensures
        extent_end_of(extents[i]) <= extents[j].offset,
    decreases j - i,
{
    assert(extent_adjoins(extents, j));
    assert(extent_fits(extents[j - 1]));
    if i < j - 1 {
        lemma_extents_apart(extents, i, j - 1);
    }
}

/// An extent of an ordered list says what its bytes are.
proof fn lemma_extent_byte(extents: Seq<ExtentView>, at: int, x: int)
    requires
        extents_ordered(extents),
        0 <= at < extents.len(),
        extents[at].offset <= x < extent_end_of(extents[at]),
    ensures
        byte_at(extents, x) == Some(byte_of(extents[at].kind, x - extents[at].offset)),
{
    lemma_extents_disjoint(extents);
    let runs = runs_of(extents);
    assert(extent_fits(extents[at]));
    assert(covers(runs[at], x));
    assert forall|j: int| at < j < runs.len() implies !covers(#[trigger] runs[j], x) by {
        assert(runs[at].end <= runs[j].offset);
    }
    lemma_run_at(runs, x, at, runs.len());
}

/// What a byte is once patches are laid over extents.
pub open spec fn overlaid(
    extents: Seq<ExtentView>,
    patches: Seq<PatchView>,
    x: int,
) -> Option<ByteView> {
    match patched_at(patches, x) {
        Some(byte) => Some(byte),
        None => byte_at(extents, x),
    }
}

/// Whether runs say of exactly the bytes of a range what an overlay says.
pub open spec fn tells_overlay(
    runs: Seq<PatchView>,
    extents: Seq<ExtentView>,
    patches: Seq<PatchView>,
    first: int,
    end: int,
) -> bool {
    forall|x: int| #[trigger]
        patched_at(runs, x) == (if first <= x < end {
            overlaid(extents, patches, x)
        } else {
            None
        })
}

/// A byte between two patches is not patched.
proof fn lemma_between(patches: Seq<PatchView>, next: int, x: int)
    requires
        runs_disjoint(patches),
        0 <= next <= patches.len(),
        forall|j: int| 0 <= j < next ==> (#[trigger] patches[j]).end <= x,
        next < patches.len() ==> x < patches[next].offset,
    ensures
        patched_at(patches, x) is None,
{
    assert forall|j: int| 0 <= j < patches.len() implies !covers(#[trigger] patches[j], x) by {
        if j > next {
            assert(patches[next].end <= patches[j].offset);
            assert(run_fits(patches[next]));
        }
    }
    lemma_run_none(patches, x, patches.len());
}

/// A byte of a disjoint patch is what that patch says.
proof fn lemma_within(patches: Seq<PatchView>, at: int, x: int)
    requires
        runs_disjoint(patches),
        0 <= at < patches.len(),
        covers(patches[at], x),
    ensures
        patched_at(patches, x) == Some(byte_of(patches[at].kind, x - patches[at].offset)),
{
    assert forall|j: int| at < j < patches.len() implies !covers(#[trigger] patches[j], x) by {
        assert(patches[at].end <= patches[j].offset);
    }
    lemma_run_at(patches, x, at, patches.len());
}

proof fn lemma_moved(kind: ExtentKindView, delta: u64, length: u64, x: int, from: int)
    requires
        kind_fits(kind, length),
        delta <= length,
    ensures
        kind_fits(kind_moved(kind, delta), (length - delta) as u64),
        byte_of(kind_moved(kind, delta), x - (from + delta)) == byte_of(kind, x - from),
{
}

/// The first patch from an index on that ends behind a position.
pub open spec fn patches_passed(patches: Seq<PatchView>, index: int, cursor: u64) -> int
    decreases patches.len() - index,
{
    if 0 <= index < patches.len() && patches[index].end <= cursor {
        patches_passed(patches, index + 1, cursor)
    } else {
        index
    }
}

/// The part of an extent from a position to an end, as a run.
pub open spec fn extent_piece(extent: ExtentView, cursor: u64, end: u64) -> PatchView {
    PatchView {
        offset: cursor,
        end,
        kind: kind_moved(extent.kind, (cursor - extent.offset) as u64),
    }
}

/// The part of a patch from a position to an end.
pub open spec fn patch_piece(patch: PatchView, cursor: u64, end: u64) -> PatchView {
    PatchView { offset: cursor, end, kind: kind_moved(patch.kind, (cursor - patch.offset) as u64) }
}

/// Patches from an index on, laid over an extent from a position on, behind some runs.
/// Then the patch to go on with, and how many items were looked at.
pub open spec fn patches_laid(
    runs: Seq<PatchView>,
    extent: ExtentView,
    patches: Seq<PatchView>,
    index: int,
    cursor: u64,
    examined: int,
) -> (Seq<PatchView>, int, int)
    decreases patches.len() - index,
{
    let stop = (extent.offset + extent.length) as u64;
    if 0 <= index < patches.len() && patches[index].offset < stop && cursor < stop {
        let patch = patches[index];
        let (laid, from) = if cursor < patch.offset {
            (run_pushed(runs, extent_piece(extent, cursor, patch.offset)), patch.offset)
        } else {
            (runs, cursor)
        };
        if patch.end <= stop {
            patches_laid(
                run_pushed(laid, patch_piece(patch, from, patch.end)),
                extent,
                patches,
                index + 1,
                patch.end,
                examined + 1,
            )
        } else {
            (run_pushed(laid, patch_piece(patch, from, stop)), index, examined + 1)
        }
    } else {
        (
            if cursor < stop {
                run_pushed(runs, extent_piece(extent, cursor, stop))
            } else {
                runs
            },
            index,
            if index < patches.len() {
                examined + 1
            } else {
                examined
            },
        )
    }
}

/// Patches laid over one extent, behind some runs. Then the patch to go on with, and how
/// many items were looked at.
pub open spec fn extent_laid(
    runs: Seq<PatchView>,
    extent: ExtentView,
    patches: Seq<PatchView>,
    from: int,
) -> (Seq<PatchView>, int, int) {
    let index = patches_passed(patches, from, extent.offset);
    patches_laid(runs, extent, patches, index, extent.offset, 1 + index - from)
}

/// Patches laid over extents from an index on, behind some runs, and how many items were
/// looked at.
pub open spec fn extents_laid(
    runs: Seq<PatchView>,
    extents: Seq<ExtentView>,
    i: int,
    patches: Seq<PatchView>,
    next: int,
    examined: int,
) -> (Seq<PatchView>, int)
    decreases extents.len() - i,
{
    if 0 <= i < extents.len() {
        let (laid, after, looked) = extent_laid(runs, extents[i], patches, next);
        extents_laid(laid, extents, i + 1, patches, after, examined + looked)
    } else {
        (runs, examined)
    }
}

/// Extents from an index on, cut at an end.
pub open spec fn extents_kept(extents: Seq<ExtentView>, output_end: u64, i: int) -> Seq<ExtentView>
    decreases extents.len() - i,
{
    if 0 <= i < extents.len() && extents[i].offset < output_end {
        if extent_end_of(extents[i]) > output_end {
            seq![ExtentView { length: (output_end - extents[i].offset) as u64, ..extents[i] }]
        } else {
            seq![extents[i]] + extents_kept(extents, output_end, i + 1)
        }
    } else {
        Seq::empty()
    }
}

/// Extents cut at an end, or grown to it by a hole.
pub open spec fn extents_resized(
    extents: Seq<ExtentView>,
    original_end: u64,
    output_end: u64,
) -> Seq<ExtentView> {
    let kept = extents_kept(extents, output_end, 0);
    if output_end > original_end {
        kept.push(
            ExtentView {
                offset: original_end,
                length: (output_end - original_end) as u64,
                kind: ExtentKindView::Hole,
            },
        )
    } else {
        kept
    }
}

/// The extent of a run.
pub open spec fn extent_of(run: PatchView) -> ExtentView {
    ExtentView { offset: run.offset, length: (run.end - run.offset) as u64, kind: run.kind }
}

/// Extents with patches laid over them up to a new end, and how many items were looked at.
#[verifier::opaque]
pub open spec fn extents_rewritten(
    extents: Seq<ExtentView>,
    original_end: u64,
    output_end: u64,
    patches: Seq<PatchView>,
) -> (Seq<ExtentView>, int) {
    let (runs, examined) = extents_laid(
        Seq::empty(),
        extents_resized(extents, original_end, output_end),
        0,
        patches,
        0,
        0,
    );
    (Seq::new(runs.len(), |i: int| extent_of(runs[i])), examined)
}

/// Lays patches over one extent, behind what was laid before it. Tells the patch to go
/// on with and how many items were looked at.
fn overlay_extent(
    runs: &mut Vec<Patch>,
    extent: &Extent,
    patches: &Vec<Patch>,
    from: usize,
    Ghost(extents): Ghost<Seq<ExtentView>>,
    Ghost(at): Ghost<int>,
    Ghost(first): Ghost<int>,
) -> (r: (usize, u64))
    requires
        extents_ordered(extents),
        0 <= at < extents.len(),
        extents[at] == extent@,
        runs_disjoint(views(patches@)),
        from <= patches@.len(),
        forall|j: int| 0 <= j < from ==> (#[trigger] views(patches@)[j]).end <= extent.offset,
        runs_disjoint(views(old(runs)@)),
        runs_joined(views(old(runs)@)),
        first <= extent.offset,
        old(runs)@.len() > 0 ==> views(old(runs)@).last().end == extent.offset && views(
            old(runs)@,
        )[0].offset == first,
        old(runs)@.len() == 0 ==> first == extent.offset,
        tells_overlay(
            views(old(runs)@),
            extents,
            views(patches@),
            first,
            extent.offset as int,
        ),
    ensures
        from <= r.0 <= patches@.len(),
        r.1 <= 2 + r.0 - from,
        ({
            let (laid, index, examined) = extent_laid(
                views(old(runs)@),
                extent@,
                views(patches@),
                from as int,
            );
            &&& views(final(runs)@) == laid
            &&& r.0 == index
            &&& examined <= 2 + index - from
            &&& 2 + patches@.len() <= u64::MAX ==> r.1 == examined
        }),
        forall|j: int| 0 <= j < r.0 ==> (#[trigger] views(patches@)[j]).end <= extent_end_of(extent@),
        runs_disjoint(views(final(runs)@)),
        runs_joined(views(final(runs)@)),
        final(runs)@.len() > 0,
        views(final(runs)@).last().end == extent_end_of(extent@),
        views(final(runs)@)[0].offset == first,
        tells_overlay(
            views(final(runs)@),
            extents,
            views(patches@),
            first,
            extent_end_of(extent@),
        ),
{
    let ghost all = views(patches@);
    proof {
        assert(extent_fits(extents[at]));
    }
    let stop: u64 = extent.offset + extent.length;
    let mut cursor: u64 = extent.offset;
    let mut index: usize = from;
    let mut examined: u64 = 1;
    let ghost small = 2 + patches@.len() <= u64::MAX;
    let ghost whole = extent_laid(views(runs@), extent@, all, from as int);
    while index < patches.len() && patches[index].end <= cursor
        invariant
            from <= index <= patches@.len(),
            examined <= 1 + index - from,
            small == (2 + patches@.len() <= u64::MAX),
            small ==> examined == 1 + index - from,
            patches_passed(all, from as int, cursor) == patches_passed(all, index as int, cursor),
            all == views(patches@),
            cursor == extent.offset,
            forall|j: int| 0 <= j < index ==> (#[trigger] all[j]).end <= cursor,
        decreases patches@.len() - index,
    {
        assert(all[index as int] == patches@[index as int]@);
        index = index + 1;
        examined = examined.saturating_add(1);
    }
    if index < patches.len() {
        assert(all[index as int] == patches@[index as int]@);
    }
    let mut cut = false;
    let ghost mut counted: int = 1 + index - from;
    while index < patches.len() && patches[index].offset < stop && cursor < stop
        invariant
            from <= index <= patches@.len(),
            small == (2 + patches@.len() <= u64::MAX),
            counted == 1 + index - from + (if cut {
                1int
            } else {
                0
            }),
            small ==> examined == counted,
            if cut {
                whole == (views(runs@), index as int, counted)
            } else {
                whole == patches_laid(views(runs@), extent@, all, index as int, cursor, counted)
            },
            examined <= 1 + index - from + (if cut {
                1int
            } else {
                0
            }),
            cut ==> cursor == stop,
            all == views(patches@),
            runs_disjoint(all),
            extents_ordered(extents),
            0 <= at < extents.len(),
            extents[at] == extent@,
            extent_fits(extent@),
            stop == extent_end_of(extent@),
            extent.offset <= cursor <= stop,
            first <= extent.offset,
            forall|j: int| 0 <= j < index ==> (#[trigger] all[j]).end <= cursor,
            index < patches@.len() ==> all[index as int].end > cursor || cursor == stop,
            runs_disjoint(views(runs@)),
            runs_joined(views(runs@)),
            runs@.len() > 0 ==> views(runs@).last().end == cursor && views(runs@)[0].offset == first,
            runs@.len() == 0 ==> first == cursor,
            tells_overlay(views(runs@), extents, all, first, cursor as int),
        decreases patches@.len() - index, stop - cursor,
    {
        let patch = patches[index];
        assert(all[index as int] == patch@);
        assert(run_fits(all[index as int]));
        examined = examined.saturating_add(1);
        proof {
            counted = counted + 1;
        }
        if cursor < patch.offset {
            let piece = Patch {
                offset: cursor,
                end: patch.offset,
                kind: offset_kind(&extent.kind, cursor - extent.offset),
            };
            let ghost before = views(runs@);
            proof {
                lemma_moved(
                    extent@.kind,
                    (cursor - extent.offset) as u64,
                    extent.length,
                    0,
                    extent.offset as int,
                );
            }
            assert(run_fits(piece@));
            push_run(runs, piece);
            assert forall|x: int| #[trigger]
                patched_at(views(runs@), x) == (if first <= x < patch.offset {
                    overlaid(extents, all, x)
                } else {
                    None
                }) by {
                assert(patched_at(before, x) == (if first <= x < cursor {
                    overlaid(extents, all, x)
                } else {
                    None
                }));
                if covers(piece@, x) {
                    lemma_between(all, index as int, x);
                    lemma_extent_byte(extents, at, x);
                    lemma_moved(
                        extent@.kind,
                        (cursor - extent.offset) as u64,
                        extent.length,
                        x,
                        extent.offset as int,
                    );
                }
            }
            cursor = patch.offset;
        }
        let end = if patch.end < stop {
            patch.end
        } else {
            stop
        };
        let piece = Patch { offset: cursor, end, kind: offset_kind(&patch.kind, cursor - patch.offset) };
        let ghost before = views(runs@);
        proof {
            lemma_moved(
                patch@.kind,
                (cursor - patch.offset) as u64,
                (patch.end - patch.offset) as u64,
                0,
                patch.offset as int,
            );
        }
        assert(run_fits(piece@));
        push_run(runs, piece);
        assert forall|x: int| #[trigger]
            patched_at(views(runs@), x) == (if first <= x < end {
                overlaid(extents, all, x)
            } else {
                None
            }) by {
            assert(patched_at(before, x) == (if first <= x < cursor {
                overlaid(extents, all, x)
            } else {
                None
            }));
            if covers(piece@, x) {
                lemma_within(all, index as int, x);
                lemma_moved(
                    patch@.kind,
                    (cursor - patch.offset) as u64,
                    (patch.end - patch.offset) as u64,
                    x,
                    patch.offset as int,
                );
            }
        }
        cursor = end;
        if patch.end <= cursor {
            index = index + 1;
            if index < patches.len() {
                assert(all[index as int] == patches@[index as int]@);
                assert(all[index - 1].end <= all[index as int].offset);
                assert(run_fits(all[index as int]));
            }
        } else {
            cut = true;
        }
    }
    if index < patches.len() && !cut {
        examined = examined.saturating_add(1);
    }
    if cursor < stop {
        let piece = Patch {
            offset: cursor,
            end: stop,
            kind: offset_kind(&extent.kind, cursor - extent.offset),
        };
        let ghost before = views(runs@);
        proof {
            lemma_moved(
                extent@.kind,
                (cursor - extent.offset) as u64,
                extent.length,
                0,
                extent.offset as int,
            );
            if index < patches.len() {
                assert(all[index as int] == patches@[index as int]@);
            }
        }
        assert(run_fits(piece@));
        push_run(runs, piece);
        assert forall|x: int| #[trigger]
            patched_at(views(runs@), x) == (if first <= x < stop {
                overlaid(extents, all, x)
            } else {
                None
            }) by {
            assert(patched_at(before, x) == (if first <= x < cursor {
                overlaid(extents, all, x)
            } else {
                None
            }));
            if covers(piece@, x) {
                lemma_between(all, index as int, x);
                lemma_extent_byte(extents, at, x);
                lemma_moved(
                    extent@.kind,
                    (cursor - extent.offset) as u64,
                    extent.length,
                    x,
                    extent.offset as int,
                );
            }
        }
    }
    (index, examined)
}

/// Extents cut at an end, or grown to it by a hole.
pub open spec fn clipped_byte(
    extents: Seq<ExtentView>,
    original_end: u64,
    output_end: u64,
    x: int,
) -> Option<ByteView> {
    if x >= output_end {
        None
    } else if x >= original_end {
        Some(ByteView::Hole)
    } else {
        byte_at(extents, x)
    }
}

/// Cuts extents at an end, or grows them to it by a hole.
pub fn clip_and_grow(extents: &Vec<Extent>, output_end: u64, original_end: u64) -> (r: Vec<Extent>)
    requires
        extents_ordered(views(extents@)),
        extents@.len() > 0 ==> extent_end_of(views(extents@).last()) == original_end,
    ensures
        views(r@) == extents_resized(views(extents@), original_end, output_end),
        r@.len() <= extents@.len() + 1,
        extents_ordered(views(r@)),
        r@.len() > 0 ==> extent_end_of(views(r@).last()) == output_end,
        extents@.len() > 0 && views(extents@)[0].offset < output_end ==> r@.len() > 0 && views(
            r@,
        )[0].offset == views(extents@)[0].offset,
        extents@.len() == 0 && original_end < output_end ==> r@.len() == 1 && views(r@)[0].offset
            == original_end,
        r@.len() == 0 ==> output_end <= original_end,
        forall|x: int| #[trigger]
            byte_at(views(r@), x) == clipped_byte(views(extents@), original_end, output_end, x),
{
    let ghost all = views(extents@);
    let mut result: Vec<Extent> = Vec::new();
    let mut i: usize = 0;
    assert(runs_of(views(result@)) =~= Seq::<PatchView>::empty());
    let mut cut = false;
    while i < extents.len() && !cut && extents[i].offset < output_end
        invariant
            i <= extents@.len(),
            all == views(extents@),
            extents_ordered(all),
            extents_ordered(views(result@)),
            extents_kept(all, output_end, 0) == (if cut {
                views(result@)
            } else {
                views(result@) + extents_kept(all, output_end, i as int)
            }),
            !cut ==> result@.len() == i && views(result@) =~= all.take(i as int),
            !cut && i > 0 ==> extent_end_of(all[i - 1]) <= output_end,
            cut ==> 0 < i && extent_end_of(all[i - 1]) > output_end && (i < extents@.len() ==> all[i as int].offset >= output_end) && result@.len()
                == i && extent_end_of(views(result@).last()) == output_end && views(
                result@,
            )[0].offset == all[0].offset && forall|x: int| #[trigger]
                byte_at(views(result@), x) == (if x >= output_end {
                    None
                } else {
                    byte_at(all.take(i as int), x)
                }),
        decreases extents@.len() - i, (if cut { 0int } else { 1int }),
    {
        let extent = extents[i];
        assert(all[i as int] == extent@);
        assert(extent_fits(all[i as int]));
        let end: u64 = extent.offset + extent.length;
        let kept = if end > output_end {
            Extent { offset: extent.offset, length: output_end - extent.offset, kind: extent.kind }
        } else {
            extent
        };
        let ghost before = views(result@);
        assert(extent_fits(kept@));
        result.push(kept);
        let ghost next = views(result@);
        proof {
            assert(next =~= before.push(kept@));
            assert(before =~= all.take(i as int));
            assert(before + (seq![extent@] + extents_kept(all, output_end, i + 1)) =~= before.push(
                extent@,
            ) + extents_kept(all, output_end, i + 1));
            assert(before + seq![kept@] =~= before.push(kept@));
            assert forall|j: int| 0 <= j < next.len() implies extent_fits(#[trigger] next[j]) by {
                if j < before.len() {
                    assert(extent_fits(before[j]));
                }
            }
            assert forall|j: int| 0 < j < next.len() implies #[trigger] extent_adjoins(next, j) by {
                assert(extent_adjoins(all, j));
            }
            if end <= output_end {
                assert(next =~= all.take(i + 1));
            } else {
                let whole = all.take(i + 1);
                assert(whole =~= before.push(extent@));
                assert(runs_of(next) =~= runs_of(before).push(run_of(kept@)));
                assert(runs_of(whole) =~= runs_of(before).push(run_of(extent@)));
                assert forall|x: int| #[trigger] byte_at(next, x) == (if x >= output_end {
                    None
                } else {
                    byte_at(whole, x)
                }) by {
                    lemma_run_push(runs_of(before), run_of(kept@), x);
                    lemma_run_push(runs_of(before), run_of(extent@), x);
                    if x >= output_end {
                        assert forall|j: int| 0 <= j < before.len() implies !covers(
                            #[trigger] runs_of(before)[j],
                            x,
                        ) by {
                            lemma_extents_apart(all, j, i as int);
                            assert(extent_fits(all[j]));
                        }
                        lemma_run_none(runs_of(before), x, before.len());
                    }
                }
            }
        }
        cut = end > output_end;
        i = i + 1;
        if cut && i < extents.len() {
            assert(extent_adjoins(all, i as int));
        }
    }
    let ghost kept = views(result@);
    proof {
        assert(kept + Seq::<ExtentView>::empty() =~= kept);
        if i < extents@.len() {
            assert(all[i as int] == extents@[i as int]@);
            if i > 0 {
                assert(extent_adjoins(all, i as int));
            }
        }
        assert forall|x: int| #[trigger]
            byte_at(kept, x) == (if x >= output_end || x >= original_end {
                None
            } else {
                byte_at(all, x)
            }) by {
            lemma_clip(all, kept, i as nat, cut, original_end, output_end, x);
        }
    }
    if output_end > original_end {
        let hole = Extent {
            offset: original_end,
            length: output_end - original_end,
            kind: ExtentKind::Hole,
        };
        proof {
            if extents@.len() > 0 {
                if cut {
                    lemma_extents_last(all, i as int - 1);
                }
                if !cut && i < extents@.len() {
                    lemma_extents_last(all, i as int);
                }
            }
            assert(!cut);
            assert(i == extents@.len());
            assert(kept =~= all);
        }
        result.push(hole);
        let ghost next = views(result@);
        proof {
            assert(next =~= kept.push(hole@));
            assert forall|j: int| 0 <= j < next.len() implies extent_fits(#[trigger] next[j]) by {
                if j < kept.len() {
                    assert(extent_fits(kept[j]));
                }
            }
            assert forall|j: int| 0 < j < next.len() implies #[trigger] extent_adjoins(next, j) by {
                if j < kept.len() {
                    assert(extent_adjoins(kept, j));
                }
            }
            assert(runs_of(next) =~= runs_of(kept).push(run_of(hole@)));
            assert forall|x: int| #[trigger]
                byte_at(next, x) == clipped_byte(all, original_end, output_end, x) by {
                lemma_run_push(runs_of(kept), run_of(hole@), x);
                assert(byte_at(kept, x) == (if x >= output_end || x >= original_end {
                    None
                } else {
                    byte_at(all, x)
                }));
            }
        }
    } else {
        proof {
            if extents@.len() > 0 && !cut {
                if i < extents@.len() {
                    if i > 0 {
                        assert(extent_adjoins(all, i as int));
                    }
                } else {
                    assert(kept =~= all);
                }
            }
        }
    }
    result
}

/// The last extent ends behind every other one.
proof fn lemma_extents_last(extents: Seq<ExtentView>, at: int)
    requires
        extents_ordered(extents),
        0 <= at < extents.len(),
    ensures
        extent_end_of(extents[at]) <= extent_end_of(extents.last()),
{
    assert(extent_fits(extents.last()));
    if at < extents.len() - 1 {
        lemma_extents_apart(extents, at, extents.len() - 1);
    }
}

proof fn lemma_clip(
    all: Seq<ExtentView>,
    kept: Seq<ExtentView>,
    count: nat,
    cut: bool,
    original_end: u64,
    output_end: u64,
    x: int,
)
    requires
        extents_ordered(all),
        all.len() > 0 ==> extent_end_of(all.last()) == original_end,
        count <= all.len(),
        cut ==> byte_at(kept, x) == (if x >= output_end {
            None
        } else {
            byte_at(all.take(count as int), x)
        }),
        !cut ==> kept == all.take(count as int) && (count > 0 ==> extent_end_of(all[count - 1])
            <= output_end),
        count < all.len() ==> all[count as int].offset >= output_end,
    ensures
        byte_at(kept, x) == (if x >= output_end || x >= original_end {
            None
        } else {
            byte_at(all, x)
        }),
{
    let front = all.take(count as int);
    let runs = runs_of(all);
    lemma_extents_disjoint(all);
    assert forall|j: int| 0 <= j < count implies runs_of(front)[j] == #[trigger] runs[j] by {}
    lemma_run_prefix(runs_of(front), runs, x, count);
    if x >= output_end || x >= original_end {
        if x >= original_end {
            assert forall|j: int| 0 <= j < runs.len() implies !covers(#[trigger] runs[j], x) by {
                lemma_extents_last(all, j);
                assert(extent_fits(all[j]));
            }
            lemma_run_none(runs, x, count);
        }
        if x >= output_end && !cut {
            assert forall|j: int| 0 <= j < count implies !covers(#[trigger] runs[j], x) by {
                assert(extent_fits(all[j]));
                if j < count - 1 {
                    lemma_extents_apart(all, j, count - 1);
                    assert(extent_fits(all[count - 1]));
                }
            }
            lemma_run_none(runs, x, count);
        }
    } else {
        assert forall|j: int| count <= j < runs.len() implies !covers(#[trigger] runs[j], x) by {
            if j > count {
                lemma_extents_apart(all, count as int, j);
                assert(extent_fits(all[count as int]));
            }
        }
        lemma_run_tail(runs, x, count, runs.len());
    }
}

proof fn lemma_run_tail(runs: Seq<PatchView>, x: int, count: nat, upto: nat)
    requires
        count <= upto <= runs.len(),
        forall|j: int| count <= j < upto ==> !covers(#[trigger] runs[j], x),
    ensures
        run_at(runs, x, upto) == run_at(runs, x, count),
    decreases upto,
{
    if count < upto {
        lemma_run_tail(runs, x, count, (upto - 1) as nat);
    }
}

/// The extents of runs.
fn extents_of(runs: &Vec<Patch>) -> (r: Vec<Extent>)
    requires
        runs_fit(views(runs@)),
    ensures
        runs_of(views(r@)) == views(runs@),
        views(r@) == Seq::new(runs@.len(), |i: int| extent_of(views(runs@)[i])),
        r@.len() == runs@.len(),
        forall|i: int| 0 <= i < r@.len() ==> extent_fits(#[trigger] views(r@)[i]),
{
    let ghost all = views(runs@);
    let mut r: Vec<Extent> = Vec::new();
    let mut i: usize = 0;
    while i < runs.len()
        invariant
            i <= runs@.len(),
            all == views(runs@),
            runs_fit(all),
            r@.len() == i,
            forall|j: int| 0 <= j < i ==> run_of(#[trigger] views(r@)[j]) == all[j],
            forall|j: int| 0 <= j < i ==> (#[trigger] views(r@)[j]) == extent_of(all[j]),
            forall|j: int| 0 <= j < i ==> extent_fits(#[trigger] views(r@)[j]),
        decreases runs@.len() - i,
    {
        let run = runs[i];
        assert(all[i as int] == run@);
        assert(run_fits(all[i as int]));
        let ghost before = views(r@);
        let extent = Extent { offset: run.offset, length: run.end - run.offset, kind: run.kind };
        r.push(extent);
        assert(views(r@) =~= before.push(extent@));
        i = i + 1;
    }
    assert(runs_of(views(r@)) =~= all);
    assert(views(r@) =~= Seq::new(runs@.len(), |i: int| extent_of(all[i])));
    r
}

/// Adjoining runs hold every byte between their ends, so disjoint runs that
/// say something of every byte of a range adjoin one another.
proof fn lemma_adjoining(runs: Seq<PatchView>, first: int, end: int, i: int)
    requires
        runs_disjoint(runs),
        forall|x: int| first <= x < end ==> (#[trigger] patched_at(runs, x)) is Some,
        runs.len() > 0,
        runs[0].offset == first,
        runs.last().end == end,
        0 < i < runs.len(),
    ensures
        runs[i - 1].end == runs[i].offset,
{
    let x = runs[i - 1].end as int;
    assert(run_fits(runs[i - 1]));
    assert(run_fits(runs[i]));
    assert(runs[i - 1].end <= runs[i].offset);
    if i < runs.len() - 1 {
        assert(runs[i].end <= runs[runs.len() - 1].offset);
        assert(run_fits(runs[runs.len() - 1]));
    }
    if 0 < i - 1 {
        assert(runs[0].end <= runs[i - 1].offset);
        assert(run_fits(runs[0]));
    }
    if runs[i - 1].end < runs[i].offset {
        assert(patched_at(runs, x) is Some);
        let at = lemma_run_found(runs, x, runs.len());
        if at < i - 1 {
            assert(runs[at].end <= runs[i - 1].offset);
        } else if at > i {
            assert(runs[i].end <= runs[at].offset);
        }
        assert(false);
    }
}

/// Extents after a rewrite: clipped or grown, patched, and joined where one
/// goes on where another stops.
pub fn rewrite_extents(
    extents: &Vec<Extent>,
    original_end: u64,
    output_end: u64,
    patches: &Vec<Patch>,
) -> (r: (Vec<Extent>, u64))
    requires
        extents_ordered(views(extents@)),
        extents@.len() > 0 ==> extent_end_of(views(extents@).last()) == original_end,
        runs_disjoint(views(patches@)),
    ensures
        r.1 <= 2 * (extents@.len() + 1) + patches@.len(),
        ({
            let (made, examined) = extents_rewritten(
                views(extents@),
                original_end,
                output_end,
                views(patches@),
            );
            views(r.0@) == made && (2 * (extents@.len() + 1) + patches@.len() + 2 <= u64::MAX
                ==> r.1 == examined)
        }),
        extents_ordered(views(r.0@)),
        runs_joined(runs_of(views(r.0@))),
        r.0@.len() > 0 ==> extent_end_of(views(r.0@).last()) == output_end,
        extents@.len() > 0 && views(extents@)[0].offset < output_end ==> r.0@.len() > 0 && views(
            r.0@,
        )[0].offset == views(extents@)[0].offset,
        extents@.len() == 0 && original_end < output_end ==> r.0@.len() > 0 && views(r.0@)[0].offset
            == original_end,
        forall|x: int| #[trigger]
            byte_at(views(r.0@), x) == (match clipped_byte(
                views(extents@),
                original_end,
                output_end,
                x,
            ) {
                None => None,
                Some(byte) => match patched_at(views(patches@), x) {
                    Some(new) => Some(new),
                    None => Some(byte),
                },
            }),
{
    proof {
        reveal(extents_rewritten);
    }
    let clipped = clip_and_grow(extents, output_end, original_end);
    let ghost base = views(clipped@);
    let ghost all = views(patches@);
    let mut runs: Vec<Patch> = Vec::new();
    let mut next: usize = 0;
    let mut examined: u64 = 0;
    let mut i: usize = 0;
    let ghost first = if clipped@.len() > 0 {
        base[0].offset as int
    } else {
        0
    };
    assert(views(runs@) =~= Seq::<PatchView>::empty());
    let ghost small = 2 * (extents@.len() + 1) + patches@.len() + 2 <= u64::MAX;
    let ghost mut counted: int = 0;
    while i < clipped.len()
        invariant
            i <= clipped@.len(),
            base == views(clipped@),
            all == views(patches@),
            extents_ordered(base),
            runs_disjoint(all),
            clipped@.len() > 0 ==> first == base[0].offset,
            next <= patches@.len(),
            examined <= 2 * i + next,
            counted <= 2 * i + next,
            small == (2 * (extents@.len() + 1) + patches@.len() + 2 <= u64::MAX),
            small ==> examined == counted,
            extents_laid(Seq::empty(), base, 0, all, 0, 0) == extents_laid(
                views(runs@),
                base,
                i as int,
                all,
                next as int,
                counted,
            ),
            clipped@.len() <= extents@.len() + 1,
            i < clipped@.len() ==> forall|j: int|
                0 <= j < next ==> (#[trigger] all[j]).end <= base[i as int].offset,
            runs_disjoint(views(runs@)),
            runs_joined(views(runs@)),
            i == 0 ==> runs@.len() == 0,
            i > 0 ==> runs@.len() > 0 && views(runs@).last().end == extent_end_of(base[i - 1])
                && views(runs@)[0].offset == first && tells_overlay(
                views(runs@),
                base,
                all,
                first,
                extent_end_of(base[i - 1]),
            ),
        decreases clipped@.len() - i,
    {
        assert(base[i as int] == clipped@[i as int]@);
        proof {
            if i == 0 {
                assert(views(runs@) =~= Seq::<PatchView>::empty());
                assert(tells_overlay(views(runs@), base, all, first, base[0].offset as int));
            } else {
                assert(extent_adjoins(base, i as int));
                assert(extent_fits(base[i - 1]));
                lemma_extents_apart(base, 0, i as int);
                assert(extent_fits(base[0]));
            }
        }
        let ghost held = views(runs@);
        let (after, looked) = overlay_extent(
            &mut runs,
            &clipped[i],
            patches,
            next,
            Ghost(base),
            Ghost(i as int),
            Ghost(first),
        );
        proof {
            counted = counted + extent_laid(held, base[i as int], all, next as int).2;
        }
        next = after;
        examined = examined.saturating_add(looked);
        i = i + 1;
        proof {
            if i < clipped@.len() {
                assert(extent_adjoins(base, i as int));
            }
        }
    }
    let made = extents_of(&runs);
    proof {
        let out = views(made@);
        let laid = views(runs@);
        lemma_extents_disjoint(base);
        assert forall|x: int| #[trigger] byte_at(out, x) == (match clipped_byte(
            views(extents@),
            original_end,
            output_end,
            x,
        ) {
            None => None,
            Some(byte) => match patched_at(all, x) {
                Some(new) => Some(new),
                None => Some(byte),
            },
        }) by {
            assert(byte_at(base, x) == clipped_byte(
                views(extents@),
                original_end,
                output_end,
                x,
            ));
            if clipped@.len() > 0 {
                lemma_range(base, x);
                assert(patched_at(laid, x) == (if first <= x < extent_end_of(base.last()) {
                    overlaid(base, all, x)
                } else {
                    None
                }));
            }
        }
        assert forall|j: int| 0 < j < out.len() implies #[trigger] extent_adjoins(out, j) by {
            assert forall|x: int| first <= x < extent_end_of(base.last()) implies (
            #[trigger] patched_at(laid, x)) is Some by {
                lemma_range(base, x);
            }
            lemma_adjoining(laid, first, extent_end_of(base.last()), j);
            assert(run_of(out[j]) == laid[j]);
            assert(run_of(out[j - 1]) == laid[j - 1]);
            assert(extent_fits(out[j - 1]));
        }
        if out.len() > 0 {
            assert(run_of(out[0]) == laid[0]);
            assert(run_of(out.last()) == laid.last());
            assert(extent_fits(out.last()));
        }
    }
    (made, examined)
}

/// Ordered extents say something of exactly the bytes between their ends.
proof fn lemma_range(extents: Seq<ExtentView>, x: int)
    requires
        extents_ordered(extents),
        extents.len() > 0,
    ensures
        (byte_at(extents, x) is Some) == (extents[0].offset <= x < extent_end_of(extents.last())),
    decreases extents.len(),
{
    let runs = runs_of(extents);
    lemma_extents_disjoint(extents);
    assert(extent_fits(extents[0]));
    assert(extent_fits(extents.last()));
    if byte_at(extents, x) is Some {
        let at = lemma_run_found(runs, x, runs.len());
        assert(extent_fits(extents[at]));
        lemma_extents_last(extents, at);
        if at > 0 {
            lemma_extents_apart(extents, 0, at);
        }
    }
    if extents[0].offset <= x < extent_end_of(extents.last()) {
        if extents.len() == 1 {
            lemma_extent_byte(extents, 0, x);
        } else {
            let front = extents.drop_last();
            let n = extents.len() - 1;
            assert(extent_adjoins(extents, n));
            if x >= extents[n].offset {
                lemma_extent_byte(extents, n, x);
            } else {
                assert forall|i: int| 0 <= i < front.len() implies extent_fits(#[trigger] front[i]) by {
                    assert(extent_fits(extents[i]));
                }
                assert forall|i: int| 0 < i < front.len() implies #[trigger] extent_adjoins(
                    front,
                    i,
                ) by {
                    assert(extent_adjoins(extents, i));
                }
                lemma_range(front, x);
                let at = lemma_run_found(runs_of(front), x, front.len());
                assert(runs_of(front)[at] == runs[at]);
                assert(extent_fits(extents[at]));
                lemma_extent_byte(extents, at, x);
            }
        }
    }
}

} // verus!
