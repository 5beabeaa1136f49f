//! Authentication of directory trees.

use super::closure_outcome::{
    bindings_opened, bindings_opener, bindings_page, bindings_pages, bindings_pending, countable,
    lemma_walk_step, tree_walked, walked_on, PendingBindings,
};
use super::closure::{
    added_closed, follows, lemma_page_closed, lengths_true, resource_failure,
    ClosureError, ClosureErrorView, ContextView, ProofContext,
};
use super::codec::CanonicalDecodeError;
use super::name::{LogicalName, NameEncoding, NameView};
use super::namespace::{TreeEntry, TreeEntryView};
use super::object_table::ObjectTable;
use crate::foundation::Digest;
use crate::order::{bytes_lt, position, views, OrderKey, OrderedMap, Position, Replicate};
use crate::storage::{ObjectId, ObjectKind, ObjectStore, ObjectView, Objects};
use vstd::prelude::*;

verus! {

/// Reference to a page of a directory tree.
#[derive(Debug, PartialEq, Eq)]
pub struct TreeChild {
    /// First name below the page.
    pub first_name: LogicalName,
    /// Authenticated page.
    pub page: ObjectId,
}

/// Abstract value of [`TreeChild`].
#[verifier::ext_equal]
pub struct TreeChildView {
    /// First name below the page.
    pub first_name: NameView,
    /// Authenticated page.
    pub page: ObjectView,
}

impl View for TreeChild {
    type V = TreeChildView;

    open spec fn view(&self) -> TreeChildView {
        TreeChildView { first_name: self.first_name@, page: self.page@ }
    }
}

/// Decoded page of a directory tree.
#[derive(Debug, PartialEq, Eq)]
pub enum TreePage {
    /// Bindings in order.
    Leaf(Vec<TreeEntry>),
    /// References to pages below.
    Internal(Vec<TreeChild>),
}

/// Abstract value of [`TreePage`].
#[verifier::ext_equal]
pub enum TreePageView {
    /// Bindings in order.
    Leaf(Seq<TreeEntryView>),
    /// References to pages below.
    Internal(Seq<TreeChildView>),
}

impl View for TreePage {
    type V = TreePageView;

    open spec fn view(&self) -> TreePageView {
        match self {
            TreePage::Leaf(entries) => TreePageView::Leaf(views(entries@)),
            TreePage::Internal(children) => TreePageView::Internal(views(children@)),
        }
    }
}

/// Decoded pages of directory trees by digest.
pub type TreePages = Map<Digest, TreePageView>;

/// What is listed under the digest of an object.
pub open spec fn listed_under<V>(listed: Map<Digest, V>, object: ObjectView) -> Option<V> {
    if exists|digest: Digest| #[trigger]
        listed.dom().contains(digest) && digest.bytes@ == object.digest {
        Some(
            listed[choose|digest: Digest| #[trigger]
                listed.dom().contains(digest) && digest.bytes@ == object.digest],
        )
    } else {
        None
    }
}

/// What is listed under a digest is what is listed under its object.
pub proof fn lemma_listed_under<V>(listed: Map<Digest, V>, object: ObjectId)
    ensures
        listed_under(listed, object@) == if listed.dom().contains(object.digest) {
            Some(listed[object.digest])
        } else {
            None
        },
{
    assert forall|digest: Digest| #[trigger]
        listed.dom().contains(digest) && digest.bytes@ == object@.digest implies digest
        == object.digest by {
        Digest::order_bytes_injective(digest, object.digest);
    }
    if listed.dom().contains(object.digest) {
        assert(object.digest.bytes@ == object@.digest);
    }
}

/// Rank of an encoding.
pub open spec fn encoding_rank(encoding: NameEncoding) -> int {
    match encoding {
        NameEncoding::Utf8 => 0,
        NameEncoding::PosixBytes => 1,
        NameEncoding::WindowsUtf16Le => 2,
    }
}

/// Order of names: by encoding, then by bytes.
pub open spec fn logical_lt(a: NameView, b: NameView) -> bool {
    encoding_rank(a.encoding) < encoding_rank(b.encoding) || (a.encoding == b.encoding
        && bytes_lt(a.bytes, b.bytes))
}

/// Tells whether a name precedes another.
pub fn logical_before(a: &LogicalName, b: &LogicalName) -> (r: bool)
    ensures
        r == logical_lt(a@, b@),
{
    let first: u8 = match a.encoding {
        NameEncoding::Utf8 => 0,
        NameEncoding::PosixBytes => 1,
        NameEncoding::WindowsUtf16Le => 2,
    };
    let second: u8 = match b.encoding {
        NameEncoding::Utf8 => 0,
        NameEncoding::PosixBytes => 1,
        NameEncoding::WindowsUtf16Le => 2,
    };
    first < second || (first == second && match position(a.bytes.as_slice(), b.bytes.as_slice()) {
        Position::Before => true,
        _ => false,
    })
}

/// Tells whether two names are the same.
fn same_name(a: &LogicalName, b: &LogicalName) -> (r: bool)
    ensures
        r == (a@ == b@),
{
    a.encoding == b.encoding && match position(a.bytes.as_slice(), b.bytes.as_slice()) {
        Position::Same => true,
        _ => false,
    }
}

/// Whether names begin at a lower bound and stay below an upper one.
pub open spec fn names_within(
    first: Option<NameView>,
    last: Option<NameView>,
    lower: Option<NameView>,
    upper: Option<NameView>,
) -> bool {
    &&& lower matches Some(bound) ==> first == Some(bound)
    &&& upper matches Some(bound) ==> (last matches Some(name) ==> logical_lt(name, bound))
}

/// Whether the bindings of a leaf keep their bounds.
pub open spec fn entries_within(
    entries: Seq<TreeEntryView>,
    lower: Option<NameView>,
    upper: Option<NameView>,
) -> bool {
    names_within(
        if entries.len() > 0 {
            Some(entries[0].name)
        } else {
            None
        },
        if entries.len() > 0 {
            Some(entries.last().name)
        } else {
            None
        },
        lower,
        upper,
    )
}

/// Whether the children of a page keep their bounds.
pub open spec fn tree_children_within(
    children: Seq<TreeChildView>,
    lower: Option<NameView>,
    upper: Option<NameView>,
) -> bool {
    names_within(
        if children.len() > 0 {
            Some(children[0].first_name)
        } else {
            None
        },
        if children.len() > 0 {
            Some(children.last().first_name)
        } else {
            None
        },
        lower,
        upper,
    )
}

/// An optional name.
pub open spec fn bound_view(bound: Option<LogicalName>) -> Option<NameView> {
    match bound {
        Some(name) => Some(name@),
        None => None,
    }
}

/// Tells whether the bindings of a leaf keep their bounds.
pub fn validate_tree_bounds(
    entries: &Vec<TreeEntry>,
    lower: &Option<LogicalName>,
    upper: &Option<LogicalName>,
) -> (r: bool)
    ensures
        r == entries_within(views(entries@), bound_view(*lower), bound_view(*upper)),
{
    let size = entries.len();
    if size > 0 {
        assert(views(entries@)[0] == entries@[0]@);
        assert(views(entries@).last() == entries@[size - 1]@);
    }
    if let Some(bound) = lower {
        if size == 0 || !same_name(&entries[0].name, bound) {
            return false;
        }
    }
    if let Some(bound) = upper {
        if size > 0 && !logical_before(&entries[size - 1].name, bound) {
            return false;
        }
    }
    true
}

/// Tells whether the children of a page keep their bounds.
pub fn validate_tree_child_bounds(
    children: &Vec<TreeChild>,
    lower: &Option<LogicalName>,
    upper: &Option<LogicalName>,
) -> (r: bool)
    ensures
        r == tree_children_within(views(children@), bound_view(*lower), bound_view(*upper)),
{
    let size = children.len();
    if size > 0 {
        assert(views(children@)[0] == children@[0]@);
        assert(views(children@).last() == children@[size - 1]@);
    }
    if let Some(bound) = lower {
        if size == 0 || !same_name(&children[0].first_name, bound) {
            return false;
        }
    }
    if let Some(bound) = upper {
        if size > 0 && !logical_before(&children[size - 1].first_name, bound) {
            return false;
        }
    }
    true
}

/// One child of a page.
pub open spec fn tree_child_of(children: Seq<TreeChildView>, i: int) -> TreeChildView {
    children[i]
}

/// Name that the subtree of a child stays below.
pub open spec fn tree_upper(
    children: Seq<TreeChildView>,
    i: int,
    upper: Option<NameView>,
) -> Option<NameView> {
    if i + 1 < children.len() {
        Some(children[i + 1].first_name)
    } else {
        upper
    }
}

/// Whether a page is the root of a directory tree of at most a given height whose
/// pages are directory pages, are held, decode and keep their bounds.
pub open spec fn tree_sound_at(
    objects: Objects,
    pages: TreePages,
    page: ObjectView,
    lower: Option<NameView>,
    upper: Option<NameView>,
    height: nat,
) -> bool
    decreases height,
{
    &&& height > 0
    &&& page.kind == ObjectKind::TreePage
    &&& objects(page) is Some
    &&& match listed_under(pages, page) {
        None => false,
        Some(TreePageView::Leaf(entries)) => entries_within(entries, lower, upper),
        Some(TreePageView::Internal(children)) => tree_children_within(children, lower, upper)
            && forall|i: int|
            0 <= i < children.len() ==> tree_sound_at(
                objects,
                pages,
                (#[trigger] tree_child_of(children, i)).page,
                Some(children[i].first_name),
                tree_upper(children, i, upper),
                (height - 1) as nat,
            ),
    }
}

/// Bindings below a page of a tree of at most a given height, in order.
pub open spec fn entries_at(pages: TreePages, page: ObjectView, height: nat) -> Seq<TreeEntryView>
    decreases height, 0int,
{
    if height == 0 {
        Seq::empty()
    } else {
        match listed_under(pages, page) {
            None => Seq::empty(),
            Some(TreePageView::Leaf(entries)) => entries,
            Some(TreePageView::Internal(children)) => entries_below(
                pages,
                children,
                (height - 1) as nat,
                0,
            ),
        }
    }
}

/// Bindings below the children of a page from a position on, in order.
pub open spec fn entries_below(
    pages: TreePages,
    children: Seq<TreeChildView>,
    height: nat,
    from: int,
) -> Seq<TreeEntryView>
    decreases height, children.len() - from + 1,
{
    if from < 0 || from >= children.len() {
        Seq::empty()
    } else {
        entries_at(pages, children[from].page, height) + entries_below(
            pages,
            children,
            height,
            from + 1,
        )
    }
}

/// Largest height of a directory tree whose pages can be counted.
pub open spec fn tree_height() -> nat {
    u64::MAX as nat
}

/// Whether a page is the root of a sound directory tree.
pub open spec fn tree_proved(objects: Objects, pages: TreePages, page: ObjectView) -> bool {
    tree_sound_at(objects, pages, page, None, None, tree_height())
}

/// Bindings of a directory tree, in order.
pub open spec fn tree_entries(pages: TreePages, page: ObjectView) -> Seq<TreeEntryView> {
    entries_at(pages, page, tree_height())
}

/// Whether a page of a directory tree refers to another.
pub open spec fn tree_refers(pages: TreePages, page: ObjectView, target: ObjectView) -> bool {
    page.kind == ObjectKind::TreePage && (listed_under(pages, page) matches Some(
        TreePageView::Internal(children),
    ) && exists|i: int|
        0 <= i < children.len() && (#[trigger] tree_child_of(children, i)).page == target)
}

/// Whether every directory page that a proof has newly asked for refers only to pages
/// that it has asked for too, or that wait.
pub open spec fn trees_closed(
    pages: TreePages,
    before: Set<ObjectView>,
    after: Set<ObjectView>,
    waiting: Seq<ObjectView>,
) -> bool {
    forall|page: ObjectView, target: ObjectView|
        after.contains(page) && !before.contains(page) && #[trigger] tree_refers(
            pages,
            page,
            target,
        ) ==> after.contains(target) || waiting.contains(target)
}

/// Whether one state of a proof has newly asked for directory pages only.
pub open spec fn only_trees(before: ContextView, after: ContextView) -> bool {
    forall|object: ObjectView| #[trigger]
        after.objects.contains(object) && object.kind != ObjectKind::TreePage
            ==> before.objects.contains(object)
}

/// A page to prove.
struct PendingTree {
    page: ObjectId,
    lower: Option<LogicalName>,
    upper: Option<LogicalName>,
    height: Ghost<nat>,
}

/// A page that waits.
spec fn binding_waiting(pending: PendingTree) -> PendingBindings {
    PendingBindings {
        page: pending.page@,
        lower: bound_view(pending.lower),
        upper: bound_view(pending.upper),
    }
}

/// Pages that wait, with their bounds.
spec fn bindings_waiting(pending: Seq<PendingTree>) -> Seq<PendingBindings> {
    Seq::new(pending.len(), |i: int| binding_waiting(pending[i]))
}

spec fn tree_waits(objects: Objects, pages: TreePages, pending: PendingTree) -> bool {
    tree_sound_at(
        objects,
        pages,
        pending.page@,
        bound_view(pending.lower),
        bound_view(pending.upper),
        pending.height@,
    )
}

spec fn all_wait(objects: Objects, pages: TreePages, pending: Seq<PendingTree>) -> bool {
    forall|i: int| 0 <= i < pending.len() ==> tree_waits(objects, pages, #[trigger] pending[i])
}

/// Bindings below pages that wait, the last page first.
spec fn waiting_entries(pages: TreePages, pending: Seq<PendingTree>) -> Seq<TreeEntryView>
    decreases pending.len(),
{
    if pending.len() == 0 {
        Seq::empty()
    } else {
        entries_at(pages, pending.last().page@, pending.last().height@) + waiting_entries(
            pages,
            pending.drop_last(),
        )
    }
}

/// Pages that wait.
spec fn waiting_pages(pending: Seq<PendingTree>) -> Seq<ObjectView> {
    Seq::new(pending.len(), |i: int| pending[i].page@)
}

/// Whether a page that waits was made of a child.
spec fn made_of(
    made: PendingTree,
    children: Seq<TreeChildView>,
    j: int,
    upper: Option<NameView>,
    height: nat,
) -> bool {
    &&& made.page@ == children[j].page
    &&& bound_view(made.lower) == Some(children[j].first_name)
    &&& bound_view(made.upper) == tree_upper(children, j, upper)
    &&& made.height@ == height
}

/// An index.
spec fn kept(j: int) -> int {
    j
}

fn copy_bound(name: &Option<LogicalName>) -> (r: Option<LogicalName>)
    ensures
        bound_view(r) == bound_view(*name),
{
    match name {
        Some(name) => Some(name.replicate()),
        None => None,
    }
}

/// Pages that wait once those of the children of a page do.
fn push_children(
    pending: &mut Vec<PendingTree>,
    children: &Vec<TreeChild>,
    upper: &Option<LogicalName>,
    Ghost(height): Ghost<nat>,
    Ghost(pages): Ghost<TreePages>,
)
    ensures
        final(pending)@.len() == old(pending)@.len() + children@.len(),
        forall|j: int| 0 <= j < old(pending)@.len() ==> final(pending)@[j] == old(pending)@[j],
        forall|j: int|
            0 <= j < children@.len() ==> made_of(
                final(pending)@[old(pending)@.len() + children@.len() - 1 - j],
                views(children@),
                #[trigger] kept(j),
                bound_view(*upper),
                height,
            ),
        waiting_entries(pages, final(pending)@) == entries_below(
            pages,
            views(children@),
            height,
            0,
        ) + waiting_entries(pages, old(pending)@),
{
    let ghost rest = pending@;
    let ghost own = views(children@);
    let ghost high = bound_view(*upper);
    let size: usize = children.len();
    let mut i: usize = size;
    assert(entries_below(pages, own, height, size as int) + waiting_entries(pages, rest)
        =~= waiting_entries(pages, rest));
    while i > 0
        invariant
            i <= size,
            size == children@.len(),
            own == views(children@),
            high == bound_view(*upper),
            rest == old(pending)@,
            pending@.len() == rest.len() + size - i,
            forall|j: int| 0 <= j < rest.len() ==> pending@[j] == rest[j],
            forall|j: int|
                i <= j < size ==> made_of(
                    pending@[rest.len() + size - 1 - j],
                    own,
                    #[trigger] kept(j),
                    high,
                    height,
                ),
            waiting_entries(pages, pending@) == entries_below(pages, own, height, i as int)
                + waiting_entries(pages, rest),
        decreases i,
    {
        i = i - 1;
        let child = &children[i];
        assert(own[i as int] == child@);
        let child_upper = if i + 1 < size {
            assert(own[i + 1] == children@[i + 1]@);
            Some(children[i + 1].first_name.replicate())
        } else {
            copy_bound(upper)
        };
        let ghost prior = pending@;
        pending.push(
            PendingTree {
                page: child.page,
                lower: Some(child.first_name.replicate()),
                upper: child_upper,
                height: Ghost(height),
            },
        );
        proof {
            assert(pending@.drop_last() =~= prior);
            let below = waiting_entries(pages, rest);
            let later = entries_below(pages, own, height, i + 1);
            let here = entries_at(pages, own[i as int].page, height);
            assert(here + (later + below) =~= (here + later) + below);
            assert forall|j: int| i <= j < size implies made_of(
                pending@[rest.len() + size - 1 - j],
                own,
                #[trigger] kept(j),
                high,
                height,
            ) by {
                if j > i {
                    assert(kept(j) == j);
                    assert(pending@[rest.len() + size - 1 - j] == prior[rest.len() + size - 1 - j]);
                }
            }
        }
    }
}

/// Copies bindings behind others.
fn append_entries(list: &mut Vec<TreeEntry>, more: &Vec<TreeEntry>)
    ensures
        views(final(list)@) == views(old(list)@) + views(more@),
{
    let ghost before = views(list@);
    let mut i: usize = 0;
    assert(views(list@) =~= before + views(more@).take(0));
    while i < more.len()
        invariant
            i <= more@.len(),
            views(list@) == before + views(more@).take(i as int),
        decreases more@.len() - i,
    {
        let ghost now = views(list@);
        let entry = &more[i];
        list.push(
            TreeEntry { name: entry.name.replicate(), file_id: entry.file_id, kind: entry.kind },
        );
        assert(views(more@)[i as int] == entry@);
        assert(views(list@) =~= now.push(entry@));
        assert(views(list@) =~= before + views(more@).take(i + 1));
        i = i + 1;
    }
    assert(views(more@).take(i as int) =~= views(more@));
}

/// A page that has been read and whose references wait keeps the others closed.
proof fn lemma_tree_taken(
    pages: TreePages,
    before: Set<ObjectView>,
    earlier: Set<ObjectView>,
    now: Set<ObjectView>,
    rest: Seq<PendingTree>,
    next: PendingTree,
    pending: Seq<PendingTree>,
)
    requires
        trees_closed(pages, before, earlier, waiting_pages(rest.push(next))),
        now == earlier.insert(next.page@),
        rest.len() <= pending.len(),
        forall|j: int| 0 <= j < rest.len() ==> pending[j] == #[trigger] rest[j],
        forall|target: ObjectView| #[trigger]
            tree_refers(pages, next.page@, target) ==> waiting_pages(pending).contains(target),
    ensures
        trees_closed(pages, before, now, waiting_pages(pending)),
{
    assert forall|page: ObjectView, target: ObjectView|
        now.contains(page) && !before.contains(page) && #[trigger] tree_refers(
            pages,
            page,
            target,
        ) implies now.contains(target) || waiting_pages(pending).contains(target) by {
        if page != next.page@ && !earlier.contains(target) {
            let waiting = waiting_pages(rest.push(next));
            assert(waiting.contains(target));
            let i = waiting.index_of(target);
            if i < rest.len() {
                assert(rest.push(next)[i] == rest[i]);
                assert(pending[i] == rest[i]);
                assert(waiting_pages(pending)[i] == target);
            }
        }
    }
}

impl ProofContext {
    /// Proves a directory tree, and returns its bindings in order.
    ///
    /// The decoded pages are given by digest; a page that is not among them did not
    /// decode.
    pub fn prove_tree<S: ObjectStore>(
        &mut self,
        store: &S,
        root: ObjectId,
        pages: &OrderedMap<Digest, TreePage>,
    ) -> (r: Result<Vec<TreeEntry>, ClosureError>)
        requires
            lengths_true(store.contents(), old(self)@),
        ensures
            follows(old(self)@, final(self)@),
            only_trees(old(self)@, final(self)@),
            lengths_true(store.contents(), final(self)@),
            final(self)@.blob_lengths == old(self)@.blob_lengths,
            root.kind != ObjectKind::TreePage ==> r == Err::<Vec<TreeEntry>, ClosureError>(
                ClosureError::WrongObjectKind,
            ) && final(self)@ == old(self)@,
            match r {
                Ok(entries) => {
                    &&& tree_proved(store.contents(), pages@, root@)
                    &&& views(entries@) == tree_entries(pages@, root@)
                    &&& final(self)@.objects.contains(root@)
                    &&& trees_closed(
                        pages@,
                        old(self)@.objects,
                        final(self)@.objects,
                        Seq::empty(),
                    )
                    &&& added_closed(
                        store.contents(),
                        old(self)@.limits.decode,
                        old(self)@.objects,
                        final(self)@.objects,
                        Seq::empty(),
                    )
                },
                Err(error) => resource_failure(error) || error is WrongObjectKind
                    || error is RoutingAlias || error is RoutingBoundsMismatch || error is Decode,
            },
            tree_proved(store.contents(), pages@, root@) ==> (r matches Err(error)
                ==> resource_failure(error) || error is RoutingAlias),
            countable(old(self)@) ==> tree_walked(store, old(self)@, pages@, root@) == (
                match r {
                    Ok(entries) => Ok(views(entries@)),
                    Err(error) => Err(error@),
                },
                final(self)@,
            ),
            countable(old(self)@) && r is Ok ==> countable(final(self)@),
    {
        proof {
            reveal(tree_walked);
        }
        let ghost can = countable(self@);
        let ghost first_line = seq![PendingBindings { page: root@, lower: None, upper: None }];
        let ghost whole = bindings_pages(
            store,
            self@,
            pages@,
            first_line,
            Set::empty(),
            Seq::empty(),
        );
        if root.kind != ObjectKind::TreePage {
            proof {
                lemma_walk_step(
                    store,
                    self@,
                    ObjectKind::TreePage,
                    bindings_page(),
                    bindings_opener(pages@),
                    first_line,
                    Set::empty(),
                    Seq::<TreeEntryView>::empty(),
                );
            }
            return Err(ClosureError::WrongObjectKind);
        }
        let ghost objects = store.contents();
        let ghost decode = self@.limits.decode;
        let ghost begun = self@;
        let ghost listed = pages@;
        let ghost sound = tree_proved(objects, listed, root@);
        let mut entries: Vec<TreeEntry> = Vec::new();
        let mut pending: Vec<PendingTree> = Vec::new();
        pending.push(
            PendingTree { page: root, lower: None, upper: None, height: Ghost(tree_height()) },
        );
        let mut seen = ObjectTable::new(16);
        proof {
            reveal_with_fuel(waiting_entries, 2);
            assert(pending@.drop_last().len() == 0);
            assert(tree_entries(listed, root@) =~= views(entries@) + waiting_entries(
                listed,
                pending@,
            ));
            if all_wait(objects, listed, pending@) {
                assert(tree_waits(objects, listed, pending@[0]));
            }
            assert(waiting_pages(pending@)[0] == root@);
        }
        assert(bindings_waiting(pending@) =~= first_line);
        assert(views(entries@) =~= Seq::<TreeEntryView>::empty());
        while pending.len() > 0
            invariant
                can == countable(begun),
                can ==> tree_walked(store, begun, listed, root@) == whole,
                can ==> countable(self@) && seen@.finite() && seen@.subset_of(self@.objects)
                    && whole == bindings_pages(
                    store,
                    self@,
                    listed,
                    bindings_waiting(pending@),
                    seen@,
                    views(entries@),
                ),
                objects == store.contents(),
                decode == self@.limits.decode,
                listed == pages@,
                begun == old(self)@,
                follows(begun, self@),
                only_trees(begun, self@),
                lengths_true(objects, self@),
                self@.blob_lengths == begun.blob_lengths,
                root.kind == ObjectKind::TreePage,
                sound == tree_proved(objects, listed, root@),
                sound ==> all_wait(objects, listed, pending@),
                all_wait(objects, listed, pending@) ==> sound,
                tree_entries(listed, root@) == views(entries@) + waiting_entries(listed, pending@),
                forall|i: int|
                    0 <= i < pending@.len() ==> (#[trigger] pending@[i]).height@
                        + self@.work.page_reads >= tree_height(),
                trees_closed(listed, begun.objects, self@.objects, waiting_pages(pending@)),
                added_closed(objects, decode, begun.objects, self@.objects, Seq::empty()),
                self@.objects.contains(root@) || waiting_pages(pending@).contains(root@),
            decreases u64::MAX - self@.work.page_reads,
        {
            let ghost waiting = pending@;
            let next = match pending.pop() {
                Some(next) => next,
                None => {
                    return Err(ClosureError::RoutingBoundsMismatch);
                },
            };
            let ghost rest = pending@;
            let ghost height = next.height@;
            let ghost earlier = self@;
            proof {
                assert(waiting =~= rest.push(next));
                assert(waiting.last() == next);
                assert(waiting.drop_last() =~= rest);
                assert(waiting[rest.len() as int] == next);
                assert forall|j: int| 0 <= j < rest.len() implies waiting[j] == rest[j] by {}
                if sound {
                    assert(tree_waits(objects, listed, waiting[rest.len() as int]));
                    assert forall|j: int| 0 <= j < rest.len() implies tree_waits(
                        objects,
                        listed,
                        #[trigger] rest[j],
                    ) by {
                        assert(waiting[j] == rest[j]);
                    }
                }
            }
            let ghost met = seen@;
            let ghost line = bindings_waiting(rest);
            let ghost own_line = binding_waiting(next);
            proof {
                assert(bindings_waiting(waiting) =~= line.push(own_line));
                assert(bindings_waiting(waiting).drop_last() =~= line);
                if can {
                    vstd::set_lib::lemma_len_subset(met, self@.objects);
                    lemma_walk_step(
                        store,
                        self@,
                        ObjectKind::TreePage,
                        bindings_page(),
                        bindings_opener(listed),
                        bindings_waiting(waiting),
                        met,
                        views(entries@),
                    );
                }
            }
            match seen.insert(next.page) {
                Some(true) => {},
                _ => {
                    return Err(ClosureError::RoutingAlias);
                },
            }
            if next.page.kind != ObjectKind::TreePage {
                return Err(ClosureError::WrongObjectKind);
            }
            let bytes = match self.read_object(store, next.page, true) {
                Ok(bytes) => bytes,
                Err(error) => {
                    return Err(error);
                },
            };
            assert(self@.objects =~= earlier.objects.insert(next.page@));
            let ghost opened_at = self@;
            let ghost step = bindings_opened(listed, opened_at, views(entries@), own_line);
            assert(can ==> whole == walked_on(
                store,
                earlier,
                ObjectKind::TreePage,
                bindings_page(),
                bindings_opener(listed),
                line,
                seen@,
                step,
            ));
            proof {
                lemma_listed_under(listed, next.page);
            }
            proof {
                reveal(bindings_opened);
            }
            let page = match pages.get(&next.page.digest) {
                Some(page) => page,
                None => {
                    return Err(
                        ClosureError::Decode(
                            CanonicalDecodeError::Invariant("directory page".to_owned()),
                        ),
                    );
                },
            };
            let ghost view = page@;
            assert(listed_under(listed, next.page@) == Some(view));
            match page {
                TreePage::Leaf(values) => {
                    if !validate_tree_bounds(values, &next.lower, &next.upper) {
                        return Err(ClosureError::RoutingBoundsMismatch);
                    }
                    let ghost gathered = views(entries@);
                    append_entries(&mut entries, values);
                    proof {
                        let own = views(values@);
                        assert(bindings_waiting(pending@) =~= line
                            + Seq::<PendingBindings>::empty());
                        assert(views(entries@) =~= gathered + own);
                        assert(can ==> step == (
                            Ok::<(Seq<PendingBindings>, Seq<TreeEntryView>), ClosureErrorView>((Seq::empty(), views(entries@))),
                            self@,
                        ));
                        let below = waiting_entries(listed, rest);
                        assert(gathered + (own + below) =~= (gathered + own) + below);
                        assert(tree_waits(objects, listed, next));
                        if all_wait(objects, listed, pending@) {
                            assert(all_wait(objects, listed, waiting));
                        }
                    }
                },
                TreePage::Internal(children) => {
                    if !validate_tree_child_bounds(children, &next.lower, &next.upper) {
                        return Err(ClosureError::RoutingBoundsMismatch);
                    }
                    let ghost lower_height = (height - 1) as nat;
                    push_children(
                        &mut pending,
                        children,
                        &next.upper,
                        Ghost(lower_height),
                        Ghost(listed),
                    );
                    proof {
                        let own = views(children@);
                        let high = bound_view(next.upper);
                        let below = bindings_pending(own, high);
                        assert(bindings_waiting(pending@) =~= line + below) by {
                            assert forall|j: int| 0 <= j < pending@.len() implies bindings_waiting(
                                pending@,
                            )[j] == (line + below)[j] by {
                                if j < rest.len() {
                                    assert(pending@[j] == rest[j]);
                                } else {
                                    let k = rest.len() + own.len() - 1 - j;
                                    assert(made_of(pending@[j], own, kept(k), high, lower_height));
                                }
                            }
                        }
                        assert(can ==> step == (
                            Ok::<(Seq<PendingBindings>, Seq<TreeEntryView>), ClosureErrorView>((below, views(entries@))),
                            self@,
                        ));
                        assert forall|j: int| 0 <= j < pending@.len() implies (
                        #[trigger] pending@[j]).height@ + self@.work.page_reads >= tree_height() by {
                            if j < rest.len() {
                                assert(pending@[j] == rest[j]);
                            } else {
                                let k = rest.len() + own.len() - 1 - j;
                                assert(made_of(pending@[j], own, kept(k), high, lower_height));
                            }
                        }
                        if sound {
                            assert forall|j: int| 0 <= j < pending@.len() implies tree_waits(
                                objects,
                                listed,
                                #[trigger] pending@[j],
                            ) by {
                                if j < rest.len() {
                                    assert(pending@[j] == rest[j]);
                                } else {
                                    let k = rest.len() + own.len() - 1 - j;
                                    assert(made_of(pending@[j], own, kept(k), high, lower_height));
                                    assert(tree_child_of(own, k) == own[k]);
                                }
                            }
                        }
                        if all_wait(objects, listed, pending@) {
                            assert forall|k: int| 0 <= k < own.len() implies tree_sound_at(
                                objects,
                                listed,
                                (#[trigger] tree_child_of(own, k)).page,
                                Some(own[k].first_name),
                                tree_upper(own, k, high),
                                lower_height,
                            ) by {
                                let at = rest.len() + own.len() - 1 - k;
                                assert(made_of(pending@[at], own, kept(k), high, lower_height));
                                assert(tree_waits(objects, listed, pending@[at]));
                            }
                            assert(tree_waits(objects, listed, next));
                            assert forall|j: int| 0 <= j < waiting.len() implies tree_waits(
                                objects,
                                listed,
                                #[trigger] waiting[j],
                            ) by {
                                if j < rest.len() {
                                    assert(pending@[j] == rest[j]);
                                }
                            }
                        }
                    }
                },
            }
            proof {
                assert forall|target: ObjectView| #[trigger]
                    tree_refers(listed, next.page@, target) implies waiting_pages(
                    pending@,
                ).contains(target) by {
                    let own = view->Internal_0;
                    let k = choose|k: int|
                        0 <= k < own.len() && (#[trigger] tree_child_of(own, k)).page == target;
                    let at = rest.len() + own.len() - 1 - k;
                    assert(made_of(
                        pending@[at],
                        own,
                        kept(k),
                        bound_view(next.upper),
                        (height - 1) as nat,
                    ));
                    assert(waiting_pages(pending@)[at] == target);
                }
                lemma_tree_taken(
                    listed,
                    begun.objects,
                    earlier.objects,
                    self@.objects,
                    rest,
                    next,
                    pending@,
                );
                if !self@.objects.contains(root@) {
                    let i = waiting_pages(waiting).index_of(root@);
                    assert(waiting[i] == rest[i]);
                    assert(pending@[i] == rest[i]);
                    assert(waiting_pages(pending@)[i] == root@);
                }
                lemma_page_closed(
                    objects,
                    decode,
                    begun.objects,
                    earlier.objects,
                    self@.objects,
                    Seq::empty(),
                    next.page@,
                    Seq::empty(),
                );
            }
        }
        proof {
            assert(bindings_waiting(pending@) =~= Seq::<PendingBindings>::empty());
            lemma_walk_step(
                store,
                self@,
                ObjectKind::TreePage,
                bindings_page(),
                bindings_opener(listed),
                bindings_waiting(pending@),
                seen@,
                views(entries@),
            );
            assert(all_wait(objects, listed, pending@));
            assert(waiting_pages(pending@) =~= Seq::<ObjectView>::empty());
            assert(views(entries@) + waiting_entries(listed, pending@) =~= views(entries@));
        }
        Ok(entries)
    }
}

} // verus!
