//! Authentication of a whole file table.

use super::closure_outcome::{
    countable, ids_opened, ids_opener, ids_page, ids_pages, ids_pending, lemma_walk_step,
    table_walked, walked_on, PendingIds,
};
use super::closure::{
    added_closed, common_height, follows, lemma_page_closed, refers,
    resource_failure, same_metadata, some_height, ClosureError, ClosureErrorView, ProofContext,
};
use super::codec::{DecodeLimits, PageView};
use super::file_lookup::{
    child_of, children_within, id_bytes, records_within, table_holds, table_sound, upper_of,
    validate_child_bounds, validate_record_bounds,
};
use super::file_table::{
    decode_file_table_page, records_ascend, table_decoded, FileRecord, FileTablePage, RecordView,
    TableChildView,
};
use super::object_table::ObjectTable;
use crate::foundation::FileId;
use crate::order::{
    bytes_lt, lemma_bytes_lt_irreflexive, lemma_bytes_lt_transitive, views, OrderKey, OrderedMap,
};
use crate::storage::{ObjectId, ObjectKind, ObjectStore, ObjectView, Objects};
use vstd::prelude::*;

verus! {

/// Whether a page is the root of a sound file table of some height.
pub open spec fn table_proved(
    objects: Objects,
    limits: DecodeLimits,
    page: ObjectView,
    lower: Option<Seq<u8>>,
    upper: Option<Seq<u8>>,
) -> bool {
    exists|height: nat| #[trigger] table_sound(objects, limits, page, lower, upper, height)
}

/// Whether a file table of some height holds a record.
pub open spec fn in_table(
    objects: Objects,
    limits: DecodeLimits,
    page: ObjectView,
    record: RecordView,
) -> bool {
    exists|height: nat| #[trigger] table_holds(objects, limits, page, height, record)
}

proof fn lemma_sound_higher(
    objects: Objects,
    limits: DecodeLimits,
    page: ObjectView,
    lower: Option<Seq<u8>>,
    upper: Option<Seq<u8>>,
    low: nat,
    high: nat,
)
    requires
        table_sound(objects, limits, page, lower, upper, low),
        low <= high,
    ensures
        table_sound(objects, limits, page, lower, upper, high),
    decreases low,
{
    if let Ok(PageView::Internal(children)) = table_decoded(objects(page)->0, limits) {
        assert forall|i: int| 0 <= i < children.len() implies table_sound(
            objects,
            limits,
            (#[trigger] child_of(children, i)).page,
            Some(children[i].first_file_id),
            upper_of(children, i, upper),
            (high - 1) as nat,
        ) by {
            lemma_sound_higher(
                objects,
                limits,
                child_of(children, i).page,
                Some(children[i].first_file_id),
                upper_of(children, i, upper),
                (low - 1) as nat,
                (high - 1) as nat,
            );
        }
    }
}

/// An internal page over sound tables is sound.
proof fn lemma_internal_proved(
    objects: Objects,
    limits: DecodeLimits,
    page: ObjectView,
    lower: Option<Seq<u8>>,
    upper: Option<Seq<u8>>,
    children: Seq<TableChildView>,
)
    requires
        objects(page) is Some,
        table_decoded(objects(page)->0, limits) == Ok::<
            PageView<RecordView, TableChildView>,
            super::codec::DecodeErrorView,
        >(PageView::Internal(children)),
        children_within(children, lower, upper),
        forall|i: int|
            0 <= i < children.len() ==> table_proved(
                objects,
                limits,
                (#[trigger] child_of(children, i)).page,
                Some(children[i].first_file_id),
                upper_of(children, i, upper),
            ),
    ensures
        table_proved(objects, limits, page, lower, upper),
{
    let holds_at = |i: int, height: nat|
        table_sound(
            objects,
            limits,
            child_of(children, i).page,
            Some(children[i].first_file_id),
            upper_of(children, i, upper),
            height,
        );
    assert forall|i: int, low: nat, high: nat|
        #![trigger holds_at(i, low), holds_at(i, high)]
        holds_at(i, low) && low <= high implies holds_at(i, high) by {
        lemma_sound_higher(
            objects,
            limits,
            child_of(children, i).page,
            Some(children[i].first_file_id),
            upper_of(children, i, upper),
            low,
            high,
        );
    }
    assert forall|i: int| 0 <= i < children.len() implies #[trigger] some_height(holds_at, i) by {
        let page = child_of(children, i).page;
        let height = choose|height: nat| #[trigger]
            table_sound(
                objects,
                limits,
                page,
                Some(children[i].first_file_id),
                upper_of(children, i, upper),
                height,
            );
        assert(holds_at(i, height));
    }
    let height = common_height(holds_at, children.len());
    assert(table_sound(objects, limits, page, lower, upper, height + 1)) by {
        assert forall|i: int| 0 <= i < children.len() implies table_sound(
            objects,
            limits,
            (#[trigger] child_of(children, i)).page,
            Some(children[i].first_file_id),
            upper_of(children, i, upper),
            height,
        ) by {
            assert(holds_at(i, height));
        }
    }
}

/// An internal page holds what its children hold.
proof fn lemma_internal_holds(
    objects: Objects,
    limits: DecodeLimits,
    page: ObjectView,
    children: Seq<TableChildView>,
    record: RecordView,
)
    requires
        objects(page) is Some,
        table_decoded(objects(page)->0, limits) == Ok::<
            PageView<RecordView, TableChildView>,
            super::codec::DecodeErrorView,
        >(PageView::Internal(children)),
    ensures
        in_table(objects, limits, page, record) == exists|i: int|
            0 <= i < children.len() && in_table(
                objects,
                limits,
                (#[trigger] child_of(children, i)).page,
                record,
            ),
{
    if in_table(objects, limits, page, record) {
        let height = choose|height: nat| #[trigger]
            table_holds(objects, limits, page, height, record);
        let i = choose|i: int|
            0 <= i < children.len() && table_holds(
                objects,
                limits,
                (#[trigger] child_of(children, i)).page,
                (height - 1) as nat,
                record,
            );
        assert(in_table(objects, limits, child_of(children, i).page, record));
    }
    if exists|i: int|
        0 <= i < children.len() && in_table(
            objects,
            limits,
            (#[trigger] child_of(children, i)).page,
            record,
        ) {
        let i = choose|i: int|
            0 <= i < children.len() && in_table(
                objects,
                limits,
                (#[trigger] child_of(children, i)).page,
                record,
            );
        let below = child_of(children, i).page;
        let height = choose|height: nat| #[trigger]
            table_holds(objects, limits, below, height, record);
        assert(table_holds(objects, limits, page, height + 1, record)) by {
            assert(table_holds(
                objects,
                limits,
                child_of(children, i).page,
                ((height + 1) - 1) as nat,
                record,
            ));
        }
    }
}

/// A leaf holds its own records.
proof fn lemma_leaf_holds(
    objects: Objects,
    limits: DecodeLimits,
    page: ObjectView,
    records: Seq<RecordView>,
    record: RecordView,
)
    requires
        objects(page) is Some,
        table_decoded(objects(page)->0, limits) == Ok::<
            PageView<RecordView, TableChildView>,
            super::codec::DecodeErrorView,
        >(PageView::Leaf(records)),
    ensures
        in_table(objects, limits, page, record) == records.contains(record),
{
    if records.contains(record) {
        assert(table_holds(objects, limits, page, 1, record));
    }
}

/// A page of a sound table decodes, keeps its bounds and leads to what is sound.
proof fn lemma_table_opens(
    objects: Objects,
    limits: DecodeLimits,
    page: ObjectView,
    lower: Option<Seq<u8>>,
    upper: Option<Seq<u8>>,
)
    requires
        table_proved(objects, limits, page, lower, upper),
    ensures
        objects(page) is Some,
        match table_decoded(objects(page)->0, limits) {
            Err(_) => false,
            Ok(PageView::Leaf(records)) => records_within(records, lower, upper),
            Ok(PageView::Internal(children)) => children_within(children, lower, upper) && forall|
                i: int,
            |
                0 <= i < children.len() ==> table_proved(
                    objects,
                    limits,
                    (#[trigger] child_of(children, i)).page,
                    Some(children[i].first_file_id),
                    upper_of(children, i, upper),
                ),
        },
{
    let height = choose|height: nat| #[trigger]
        table_sound(objects, limits, page, lower, upper, height);
    if let Ok(PageView::Internal(children)) = table_decoded(objects(page)->0, limits) {
        assert forall|i: int| 0 <= i < children.len() implies table_proved(
            objects,
            limits,
            (#[trigger] child_of(children, i)).page,
            Some(children[i].first_file_id),
            upper_of(children, i, upper),
        ) by {
            assert(table_sound(
                objects,
                limits,
                child_of(children, i).page,
                Some(children[i].first_file_id),
                upper_of(children, i, upper),
                (height - 1) as nat,
            ));
        }
    }
}

/// Records before a leaf and those of the leaf lie before what follows it.
proof fn lemma_records_before(
    before: Map<FileId, RecordView>,
    own: Seq<RecordView>,
    after: Map<FileId, RecordView>,
    low: Option<Seq<u8>>,
    high: Seq<u8>,
)
    requires
        filed(before),
        filed(after),
        records_before(before, low),
        records_ascend(own),
        records_within(own, low, Some(high)),
        forall|record: RecordView| #[trigger]
            recorded(after, record) == (recorded(before, record) || own.contains(record)),
    ensures
        records_before(after, Some(high)),
{
    assert forall|id: FileId| #[trigger] after.dom().contains(id) implies bytes_lt(
        id.bytes@,
        high,
    ) by {
        let record = after[id];
        assert(recorded(after, record));
        if own.contains(record) {
            let i = own.index_of(record);
            if i < own.len() - 1 {
                assert(bytes_lt(own[i].file_id, own.last().file_id));
                lemma_bytes_lt_transitive(own[i].file_id, own.last().file_id, high);
            }
        } else {
            let other = choose|other: FileId| #[trigger]
                before.dom().contains(other) && before[other] == record;
            assert(bytes_lt(other.bytes@, low->0));
            assert(own[0].file_id == low->0);
            if own.len() > 1 {
                assert(bytes_lt(own[0].file_id, own.last().file_id));
                lemma_bytes_lt_transitive(own[0].file_id, own.last().file_id, high);
            }
            lemma_bytes_lt_transitive(other.bytes@, low->0, high);
        }
    }
}

/// One table page that is still to be proved.
struct PendingTable {
    page: ObjectId,
    lower: Option<FileId>,
    upper: Option<FileId>,
}

/// A page that waits.
spec fn id_waiting(pending: PendingTable) -> PendingIds {
    PendingIds {
        page: pending.page@,
        lower: id_bytes(pending.lower),
        upper: id_bytes(pending.upper),
    }
}

/// Pages that wait, with their bounds.
spec fn ids_waiting(pending: Seq<PendingTable>) -> Seq<PendingIds> {
    Seq::new(pending.len(), |i: int| id_waiting(pending[i]))
}

/// Whether a map holds exactly the records of a list, each under its identity.
pub open spec fn tabled_by(list: Seq<RecordView>, records: Map<FileId, RecordView>) -> bool {
    &&& filed(records)
    &&& forall|record: RecordView| #[trigger]
        recorded(records, record) == list.contains(record)
}

/// The records of a list, by their identities.
pub open spec fn records_of(list: Seq<RecordView>) -> Map<FileId, RecordView> {
    choose|records: Map<FileId, RecordView>| tabled_by(list, records)
}

/// Only one map holds exactly the records of a list.
pub proof fn lemma_records_of(list: Seq<RecordView>, records: Map<FileId, RecordView>)
    requires
        tabled_by(list, records),
    ensures
        records_of(list) == records,
{
    let made = records_of(list);
    lemma_records_part(list, made, records);
    lemma_records_part(list, records, made);
    assert(made =~= records);
}

proof fn lemma_records_part(
    list: Seq<RecordView>,
    a: Map<FileId, RecordView>,
    b: Map<FileId, RecordView>,
)
    requires
        tabled_by(list, a),
        tabled_by(list, b),
    ensures
        forall|id: FileId| #[trigger]
            a.dom().contains(id) ==> b.dom().contains(id) && b[id] == a[id],
{
    assert forall|id: FileId| #[trigger] a.dom().contains(id) implies b.dom().contains(id) && b[id]
        == a[id] by {
        let record = a[id];
        assert(recorded(a, record));
        assert(recorded(b, record));
        let other = choose|other: FileId| #[trigger]
            b.dom().contains(other) && b[other] == record;
        assert(other.bytes@ == id.bytes@);
        FileId::order_bytes_injective(other, id);
    }
}

/// Pages that wait.
spec fn pages_waiting(pending: Seq<PendingTable>) -> Seq<ObjectView> {
    Seq::new(pending.len(), |i: int| pending[i].page@)
}

spec fn table_waits(objects: Objects, limits: DecodeLimits, pending: PendingTable) -> bool {
    table_proved(objects, limits, pending.page@, id_bytes(pending.lower), id_bytes(pending.upper))
}

spec fn all_tables(objects: Objects, limits: DecodeLimits, pending: Seq<PendingTable>) -> bool {
    forall|i: int| 0 <= i < pending.len() ==> table_waits(objects, limits, #[trigger] pending[i])
}

/// Whether a map holds a record.
pub open spec fn recorded(records: Map<FileId, RecordView>, record: RecordView) -> bool {
    exists|id: FileId| #[trigger] records.dom().contains(id) && records[id] == record
}

/// Whether some page that waits holds a record.
spec fn waits_with(
    objects: Objects,
    limits: DecodeLimits,
    pending: Seq<PendingTable>,
    record: RecordView,
) -> bool {
    exists|i: int|
        0 <= i < pending.len() && in_table(
            objects,
            limits,
            (#[trigger] pending[i]).page@,
            record,
        )
}

/// Whether a table holds exactly what has been recorded and what pages that wait hold.
spec fn accounted(
    objects: Objects,
    limits: DecodeLimits,
    root: ObjectView,
    records: Map<FileId, RecordView>,
    pending: Seq<PendingTable>,
) -> bool {
    forall|record: RecordView| #[trigger]
        in_table(objects, limits, root, record) == (recorded(records, record) || waits_with(
            objects,
            limits,
            pending,
            record,
        ))
}

/// Whether records are filed under their own identities.
pub open spec fn filed(records: Map<FileId, RecordView>) -> bool {
    forall|id: FileId| #[trigger]
        records.dom().contains(id) ==> records[id].file_id == id.bytes@
}

/// Whether all records lie before a bound; without a bound there are none.
spec fn records_before(records: Map<FileId, RecordView>, bound: Option<Seq<u8>>) -> bool {
    forall|id: FileId| #[trigger]
        records.dom().contains(id) ==> bound is Some && bytes_lt(id.bytes@, bound->0)
}

/// Whether a page that waits ends where the next one begins.
spec fn adjoins(pending: Seq<PendingTable>, k: int) -> bool {
    pending[k - 1].lower is Some && id_bytes(pending[k].upper) == id_bytes(pending[k - 1].lower)
}

/// Whether pages that wait adjoin one another, the last one first.
spec fn chained(pending: Seq<PendingTable>) -> bool {
    forall|k: int| 0 < k < pending.len() ==> #[trigger] adjoins(pending, k)
}

/// Adds the records of a leaf, which lie behind those that are there.
fn gather(records: &mut OrderedMap<FileId, FileRecord>, entries: &Vec<FileRecord>) -> (r: Result<
    (),
    ClosureError,
>)
    requires
        filed(old(records)@),
        records_ascend(views(entries@)),
        entries@.len() > 0 ==> records_before(old(records)@, Some(views(entries@)[0].file_id)),
    ensures
        r is Ok,
        filed(final(records)@),
        forall|record: RecordView| #[trigger]
            recorded(final(records)@, record) == (recorded(old(records)@, record) || views(
                entries@,
            ).contains(record)),
{
    let ghost all = views(entries@);
    let ghost start = records@;
    proof {
        assert forall|id: FileId, j: int| #[trigger]
            start.dom().contains(id) && 0 <= j < all.len() implies bytes_lt(
            id.bytes@,
            (#[trigger] all[j]).file_id,
        ) by {
            if j > 0 {
                assert(bytes_lt(all[0].file_id, all[j].file_id));
                lemma_bytes_lt_transitive(id.bytes@, all[0].file_id, all[j].file_id);
            }
        }
    }
    let mut i: usize = 0;
    assert(all.take(0) =~= Seq::<RecordView>::empty());
    while i < entries.len()
        invariant
            i <= entries@.len(),
            all == views(entries@),
            start == old(records)@,
            filed(records@),
            records_ascend(all),
            forall|id: FileId, j: int| #[trigger]
                records@.dom().contains(id) && i <= j < all.len() ==> bytes_lt(
                    id.bytes@,
                    (#[trigger] all[j]).file_id,
                ),
            forall|record: RecordView| #[trigger]
                recorded(records@, record) == (recorded(start, record) || all.take(
                    i as int,
                ).contains(record)),
        decreases entries@.len() - i,
    {
        let entry = entries[i];
        assert(all[i as int] == entry@);
        proof {
            lemma_bytes_lt_irreflexive(entry.file_id.bytes@);
            if records@.dom().contains(entry.file_id) {
                assert(bytes_lt(entry.file_id.bytes@, all[i as int].file_id));
            }
        }
        if records.contains_key(&entry.file_id) {
            return Err(ClosureError::DuplicateFileRecord(entry.file_id));
        }
        let ghost before = records@;
        records.insert(entry.file_id, entry);
        proof {
            let after = records@;
            let longer = all.take(i + 1);
            let shorter = all.take(i as int);
            assert(longer =~= shorter.push(entry@));
            assert forall|record: RecordView| #[trigger] recorded(after, record) == (recorded(
                start,
                record,
            ) || longer.contains(record)) by {
                if recorded(after, record) {
                    let id = choose|id: FileId| #[trigger]
                        after.dom().contains(id) && after[id] == record;
                    if id == entry.file_id {
                        assert(longer[i as int] == record);
                    } else {
                        assert(before.dom().contains(id) && before[id] == record);
                        assert(recorded(before, record));
                        if shorter.contains(record) {
                            let k = shorter.index_of(record);
                            assert(longer[k] == record);
                        }
                    }
                }
                if recorded(start, record) || shorter.contains(record) {
                    assert(recorded(before, record));
                    let id = choose|id: FileId| #[trigger]
                        before.dom().contains(id) && before[id] == record;
                    assert(after.dom().contains(id) && after[id] == record);
                }
                if longer.contains(record) && !shorter.contains(record) {
                    let k = longer.index_of(record);
                    if k < i {
                        assert(shorter[k] == record);
                    }
                    assert(after.dom().contains(entry.file_id));
                    assert(after[entry.file_id] == record);
                }
            }
        }
        i = i + 1;
    }
    assert(all.take(i as int) =~= all);
    Ok(())
}

impl ProofContext {
    /// Proves a file table, and returns every record in it.
    #[verifier::rlimit(80)]
    pub fn prove_file_table<S: ObjectStore>(&mut self, store: &S, root: ObjectId) -> (r: Result<
        OrderedMap<FileId, FileRecord>,
        ClosureError,
    >)
        ensures
            follows(old(self)@, final(self)@),
            same_metadata(old(self)@, final(self)@),
            final(self)@.blob_lengths == old(self)@.blob_lengths,
            root.kind != ObjectKind::FileTablePage ==> r is Err && r->Err_0 is WrongObjectKind
                && final(self)@ == old(self)@,
            r is Ok ==> final(self)@.objects.contains(root@) && added_closed(
                store.contents(),
                old(self)@.limits.decode,
                old(self)@.objects,
                final(self)@.objects,
                Seq::empty(),
            ),
            match r {
                Ok(records) => {
                    &&& table_proved(store.contents(), old(self)@.limits.decode, root@, None, None)
                    &&& filed(records@)
                    &&& forall|record: RecordView| #[trigger]
                        recorded(records@, record) == in_table(
                            store.contents(),
                            old(self)@.limits.decode,
                            root@,
                            record,
                        )
                },
                Err(error) => resource_failure(error) || error is WrongObjectKind
                    || error is RoutingAlias || error is RoutingBoundsMismatch || error is Decode,
            },
            root.kind == ObjectKind::FileTablePage && table_proved(
                store.contents(),
                old(self)@.limits.decode,
                root@,
                None,
                None,
            ) ==> (r matches Err(error) ==> resource_failure(error) || error is RoutingAlias),
            countable(old(self)@) ==> ({
                let (outcome, after) = table_walked(store, old(self)@, root@);
                after == final(self)@ && match r {
                    Ok(records) => outcome matches Ok(list) && tabled_by(list, records@),
                    Err(error) => outcome == Err::<Seq<RecordView>, ClosureErrorView>(error@),
                }
            }),
            countable(old(self)@) && r is Ok ==> countable(final(self)@),
    {
        proof {
            reveal(table_walked);
        }
        let ghost can = countable(self@);
        let ghost first_line = seq![PendingIds { page: root@, lower: None, upper: None }];
        let ghost whole = ids_pages(store, self@, first_line, Set::empty(), Seq::empty());
        if root.kind != ObjectKind::FileTablePage {
            proof {
                lemma_walk_step(
                    store,
                    self@,
                    ObjectKind::FileTablePage,
                    ids_page(),
                    ids_opener(),
                    first_line,
                    Set::empty(),
                    Seq::<RecordView>::empty(),
                );
            }
            return Err(ClosureError::WrongObjectKind);
        }
        let ghost objects = store.contents();
        let ghost limits = self@.limits.decode;
        let ghost begun = self@;
        let mut records: OrderedMap<FileId, FileRecord> = OrderedMap::new();
        let mut pending: Vec<PendingTable> = Vec::new();
        pending.push(PendingTable { page: root, lower: None, upper: None });
        let mut pages = ObjectTable::new(16);
        proof {
            assert forall|record: RecordView| #[trigger]
                in_table(objects, limits, root@, record) == (recorded(records@, record)
                    || waits_with(objects, limits, pending@, record)) by {
                if in_table(objects, limits, root@, record) {
                    assert(in_table(objects, limits, pending@[0].page@, record));
                }
            }
            if all_tables(objects, limits, pending@) {
                assert(table_waits(objects, limits, pending@[0]));
            }
        }
        let ghost sound = table_proved(objects, limits, root@, None, None);
        assert(pages_waiting(pending@)[0] == root@);
        assert(ids_waiting(pending@) =~= first_line);
        let ghost mut list = Seq::<RecordView>::empty();
        while pending.len() > 0
            invariant
                can == countable(begun),
                can ==> table_walked(store, begun, root@) == whole,
                can ==> countable(self@) && pages@.finite() && pages@.subset_of(self@.objects)
                    && whole == ids_pages(store, self@, ids_waiting(pending@), pages@, list),
                tabled_by(list, records@),
                objects == store.contents(),
                limits == self@.limits.decode,
                begun == old(self)@,
                follows(begun, self@),
                same_metadata(begun, self@),
                self@.blob_lengths == begun.blob_lengths,
                root.kind == ObjectKind::FileTablePage,
                forall|i: int|
                    0 <= i < pending@.len() ==> (#[trigger] pending@[i]).page.kind
                        == ObjectKind::FileTablePage,
                filed(records@),
                all_tables(objects, limits, pending@) ==> table_proved(
                    objects,
                    limits,
                    root@,
                    None,
                    None,
                ),
                accounted(objects, limits, root@, records@, pending@),
                sound == table_proved(objects, limits, root@, None, None),
                sound ==> all_tables(objects, limits, pending@),
                chained(pending@),
                pending@.len() > 0 ==> records_before(records@, id_bytes(pending@.last().lower)),
                added_closed(
                    objects,
                    limits,
                    begun.objects,
                    self@.objects,
                    pages_waiting(pending@),
                ),
                self@.objects.contains(root@) || pages_waiting(pending@).contains(root@),
            decreases u64::MAX - self@.work.page_reads,
        {
            let ghost waiting = pending@;
            let ghost earlier = self@;
            let next = match pending.pop() {
                Some(next) => next,
                None => {
                    return Err(ClosureError::RoutingBoundsMismatch);
                },
            };
            let ghost rest = pending@;
            assert(waiting =~= rest.push(next));
            proof {
                assert(waiting[rest.len() as int] == next);
                assert forall|j: int| 0 <= j < rest.len() implies (#[trigger] rest[j]).page.kind
                    == ObjectKind::FileTablePage by {
                    assert(waiting[j] == rest[j]);
                }
                assert(waiting.last() == next);
                assert forall|k: int| 0 < k < rest.len() implies #[trigger] adjoins(rest, k) by {
                    assert(adjoins(waiting, k));
                }
                if rest.len() > 0 {
                    assert(adjoins(waiting, rest.len() as int));
                    assert(waiting[rest.len() - 1] == rest.last());
                }
                if sound {
                    assert(table_waits(objects, limits, waiting[rest.len() as int]));
                    lemma_table_opens(
                        objects,
                        limits,
                        next.page@,
                        id_bytes(next.lower),
                        id_bytes(next.upper),
                    );
                    assert forall|j: int| 0 <= j < rest.len() implies table_waits(
                        objects,
                        limits,
                        #[trigger] rest[j],
                    ) by {
                        assert(waiting[j] == rest[j]);
                    }
                }
            }
            let ghost met = pages@;
            let ghost line = ids_waiting(rest);
            let ghost own_line = id_waiting(next);
            proof {
                assert(ids_waiting(waiting) =~= line.push(own_line));
                assert(ids_waiting(waiting).drop_last() =~= line);
                if can {
                    vstd::set_lib::lemma_len_subset(met, self@.objects);
                    lemma_walk_step(
                        store,
                        self@,
                        ObjectKind::FileTablePage,
                        ids_page(),
                        ids_opener(),
                        ids_waiting(waiting),
                        met,
                        list,
                    );
                }
            }
            match pages.insert(next.page) {
                Some(true) => {},
                _ => {
                    return Err(ClosureError::RoutingAlias);
                },
            }
            let bytes = match self.read_object(store, next.page, true) {
                Ok(bytes) => bytes,
                Err(error) => {
                    return Err(error);
                },
            };
            let ghost low = id_bytes(next.lower);
            let ghost high = id_bytes(next.upper);
            assert(self@.objects =~= earlier.objects.insert(next.page@));
            let ghost opened_at = self@;
            let ghost step = ids_opened(opened_at, list, own_line, bytes@);
            assert(can ==> whole == walked_on(
                store,
                earlier,
                ObjectKind::FileTablePage,
                ids_page(),
                ids_opener(),
                line,
                pages@,
                step,
            ));
            proof {
                reveal(ids_opened);
            }
            match decode_file_table_page(bytes.as_slice(), self.limits().decode) {
                Err(error) => {
                    return Err(ClosureError::Decode(error));
                },
                Ok(FileTablePage::Leaf(entries)) => {
                    if !validate_record_bounds(&entries, &next.lower, &next.upper) {
                        return Err(ClosureError::RoutingBoundsMismatch);
                    }
                    let ghost before = records@;
                    if let Err(error) = gather(&mut records, &entries) {
                        return Err(error);
                    }
                    proof {
                        let own = views(entries@);
                        assert(ids_waiting(pending@) =~= line + Seq::<PendingIds>::empty());
                        let joined = list + own;
                        assert(can ==> step == (
                            Ok::<(Seq<PendingIds>, Seq<RecordView>), ClosureErrorView>((Seq::empty(), joined)),
                            self@,
                        ));
                        assert forall|record: RecordView| #[trigger]
                            recorded(records@, record) == joined.contains(record) by {
                            assert(recorded(before, record) == list.contains(record));
                            if list.contains(record) {
                                let k = list.index_of(record);
                                assert(joined[k] == record);
                            }
                            if own.contains(record) {
                                let k = own.index_of(record);
                                assert(joined[list.len() + k] == record);
                            }
                        }
                        list = joined;
                        if rest.len() > 0 {
                            lemma_records_before(before, own, records@, low, high->0);
                        }
                        assert(table_sound(objects, limits, next.page@, low, high, 1));
                        assert(table_waits(objects, limits, next));
                        if all_tables(objects, limits, pending@) {
                            assert(all_tables(objects, limits, waiting));
                        }
                        assert forall|record: RecordView| #[trigger]
                            in_table(objects, limits, root@, record) == (recorded(
                                records@,
                                record,
                            ) || waits_with(objects, limits, pending@, record)) by {
                            lemma_leaf_holds(objects, limits, next.page@, own, record);
                            lemma_waits_push(objects, limits, rest, next, record);
                            assert(recorded(records@, record) == (recorded(before, record)
                                || own.contains(record)));
                        }
                    }
                },
                Ok(FileTablePage::Internal(children)) => {
                    if !validate_child_bounds(&children, &next.lower, &next.upper) {
                        return Err(ClosureError::RoutingBoundsMismatch);
                    }
                    let ghost own = views(children@);
                    let size: usize = children.len();
                    let mut i: usize = size;
                    while i > 0
                        invariant
                            i <= size,
                            size == children@.len(),
                            own == views(children@),
                            high == id_bytes(next.upper),
                            pending@.len() == rest.len() + size - i,
                            forall|j: int| 0 <= j < rest.len() ==> pending@[j] == rest[j],
                            forall|j: int|
                                i <= j < size ==> made_of(
                                    pending@[rest.len() + size - 1 - j],
                                    own,
                                    #[trigger] kept(j),
                                    high,
                                ),
                        decreases i,
                    {
                        i = i - 1;
                        let child = children[i];
                        let upper = if i + 1 < size {
                            assert(own[i + 1] == children@[i + 1]@);
                            Some(children[i + 1].first_file_id)
                        } else {
                            next.upper
                        };
                        assert(own[i as int] == child@);
                        let ghost prior = pending@;
                        pending.push(
                            PendingTable {
                                page: child.page,
                                lower: Some(child.first_file_id),
                                upper,
                            },
                        );
                        assert forall|j: int| i <= j < size implies made_of(
                            pending@[rest.len() + size - 1 - j],
                            own,
                            #[trigger] kept(j),
                            high,
                        ) by {
                            if j > i {
                                assert(kept(j) == j);
                                assert(pending@[rest.len() + size - 1 - j] == prior[rest.len()
                                    + size - 1 - j]);
                            }
                        }
                    }
                    proof {
                        let below = ids_pending(own, high);
                        assert(ids_waiting(pending@) =~= line + below) by {
                            assert forall|j: int| 0 <= j < pending@.len() implies ids_waiting(
                                pending@,
                            )[j] == (line + below)[j] by {
                                if j < rest.len() {
                                    assert(pending@[j] == rest[j]);
                                } else {
                                    let k = rest.len() + own.len() - 1 - j;
                                    assert(made_of(pending@[j], own, kept(k), high));
                                }
                            }
                        }
                        assert(can ==> step == (
                            Ok::<(Seq<PendingIds>, Seq<RecordView>), ClosureErrorView>((below, list)),
                            self@,
                        ));
                        assert forall|k: int| 0 < k < pending@.len() implies #[trigger] adjoins(
                            pending@,
                            k,
                        ) by {
                            if k < rest.len() {
                                assert(adjoins(rest, k));
                                assert(pending@[k] == rest[k] && pending@[k - 1] == rest[k - 1]);
                            } else {
                                let j = rest.len() + size - 1 - k;
                                assert(made_of(pending@[k], own, kept(j), high));
                                if k > rest.len() {
                                    assert(made_of(pending@[k - 1], own, kept(j + 1), high));
                                } else {
                                    assert(pending@[k - 1] == rest.last());
                                }
                            }
                        }
                        assert(made_of(pending@[rest.len() + size - 1], own, kept(0), high));
                        assert forall|k: int| 0 <= k < pending@.len() implies (
                        #[trigger] pending@[k]).page.kind == ObjectKind::FileTablePage by {
                            if k < rest.len() {
                                assert(pending@[k] == rest[k]);
                            } else {
                                let j = rest.len() + size - 1 - k;
                                assert(made_of(pending@[k], own, kept(j), high));
                                assert(own[j].page.kind == ObjectKind::FileTablePage);
                            }
                        }
                        if sound {
                            assert forall|k: int| 0 <= k < pending@.len() implies table_waits(
                                objects,
                                limits,
                                #[trigger] pending@[k],
                            ) by {
                                if k < rest.len() {
                                    assert(pending@[k] == rest[k]);
                                } else {
                                    let j = rest.len() + size - 1 - k;
                                    assert(made_of(pending@[k], own, kept(j), high));
                                    assert(child_of(own, j) == own[j]);
                                }
                            }
                        }
                        lemma_children_wait(objects, limits, rest, next, own, pending@);
                        assert forall|record: RecordView| #[trigger]
                            in_table(objects, limits, root@, record) == (recorded(
                                records@,
                                record,
                            ) || waits_with(objects, limits, pending@, record)) by {
                            assert(waits_with(objects, limits, pending@, record) == waits_with(
                                objects,
                                limits,
                                waiting,
                                record,
                            ));
                        }
                        assert forall|target: ObjectView| #[trigger]
                            refers(objects, limits, next.page@, target) implies pages_waiting(
                            pending@,
                        ).contains(target) by {
                            let k = choose|k: int|
                                0 <= k < own.len() && (#[trigger] own[k]).page == target;
                            let at = rest.len() + own.len() - 1 - k;
                            assert(made_of(pending@[at], own, kept(k), high));
                            assert(pages_waiting(pending@)[at] == target);
                        }
                    }
                },
            }
            proof {
                let line = pages_waiting(pending@);
                assert(pages_waiting(waiting) =~= pages_waiting(rest).push(next.page@));
                assert forall|j: int| 0 <= j < rest.len() implies line.contains(
                    #[trigger] pages_waiting(rest)[j],
                ) by {
                    assert(pending@[j] == rest[j]);
                    assert(line[j] == rest[j].page@);
                }
                lemma_page_closed(
                    objects,
                    limits,
                    begun.objects,
                    earlier.objects,
                    self@.objects,
                    pages_waiting(rest),
                    next.page@,
                    line,
                );
                if !self@.objects.contains(root@) {
                    let k = pages_waiting(waiting).index_of(root@);
                    assert(pages_waiting(rest)[k] == root@);
                }
            }
        }
        proof {
            assert(ids_waiting(pending@) =~= Seq::<PendingIds>::empty());
            lemma_walk_step(
                store,
                self@,
                ObjectKind::FileTablePage,
                ids_page(),
                ids_opener(),
                ids_waiting(pending@),
                pages@,
                list,
            );
            assert(pages_waiting(pending@) =~= Seq::<ObjectView>::empty());
            assert(all_tables(objects, limits, pending@));
            assert forall|record: RecordView| #[trigger] recorded(records@, record) == in_table(
                objects,
                limits,
                root@,
                record,
            ) by {
                assert(in_table(objects, limits, root@, record) == (recorded(records@, record)
                    || waits_with(objects, limits, pending@, record)));
                assert(!waits_with(objects, limits, pending@, record));
            }
        }
        Ok(records)
    }
}

/// An index.
spec fn kept(j: int) -> int {
    j
}

/// Whether a page that waits was made of a child.
spec fn made_of(
    made: PendingTable,
    children: Seq<TableChildView>,
    j: int,
    upper: Option<Seq<u8>>,
) -> bool {
    &&& made.page@ == children[j].page
    &&& id_bytes(made.lower) == Some(children[j].first_file_id)
    &&& id_bytes(made.upper) == upper_of(children, j, upper)
}

/// Waiting for the children of a page is waiting for the page.
proof fn lemma_children_wait(
    objects: Objects,
    limits: DecodeLimits,
    rest: Seq<PendingTable>,
    next: PendingTable,
    own: Seq<TableChildView>,
    pending: Seq<PendingTable>,
)
    requires
        objects(next.page@) is Some,
        table_decoded(objects(next.page@)->0, limits) == Ok::<
            PageView<RecordView, TableChildView>,
            super::codec::DecodeErrorView,
        >(PageView::Internal(own)),
        children_within(own, id_bytes(next.lower), id_bytes(next.upper)),
        pending.len() == rest.len() + own.len(),
        forall|j: int| 0 <= j < rest.len() ==> pending[j] == rest[j],
        forall|j: int|
            0 <= j < own.len() ==> made_of(
                pending[rest.len() + own.len() - 1 - j],
                own,
                #[trigger] kept(j),
                id_bytes(next.upper),
            ),
    ensures
        all_tables(objects, limits, pending) ==> all_tables(objects, limits, rest.push(next)),
        forall|record: RecordView| #[trigger]
            waits_with(objects, limits, pending, record) == waits_with(
                objects,
                limits,
                rest.push(next),
                record,
            ),
{
    let high = id_bytes(next.upper);
    let waiting = rest.push(next);
    if all_tables(objects, limits, pending) {
        assert forall|j: int| 0 <= j < own.len() implies table_proved(
            objects,
            limits,
            (#[trigger] child_of(own, j)).page,
            Some(own[j].first_file_id),
            upper_of(own, j, high),
        ) by {
            let at = rest.len() + own.len() - 1 - j;
            assert(made_of(pending[at], own, kept(j), high));
            assert(table_waits(objects, limits, pending[at]));
        }
        lemma_internal_proved(
            objects,
            limits,
            next.page@,
            id_bytes(next.lower),
            high,
            own,
        );
        assert(table_waits(objects, limits, next));
        assert forall|j: int| 0 <= j < waiting.len() implies table_waits(
            objects,
            limits,
            #[trigger] waiting[j],
        ) by {
            if j < rest.len() {
                assert(pending[j] == rest[j]);
            }
        }
    }
    assert forall|record: RecordView| #[trigger]
        waits_with(objects, limits, pending, record) == waits_with(
            objects,
            limits,
            waiting,
            record,
        ) by {
        lemma_internal_holds(objects, limits, next.page@, own, record);
        lemma_waits_push(objects, limits, rest, next, record);
        if waits_with(objects, limits, pending, record) {
            let k = choose|k: int|
                0 <= k < pending.len() && in_table(
                    objects,
                    limits,
                    (#[trigger] pending[k]).page@,
                    record,
                );
            if k < rest.len() {
                assert(pending[k] == rest[k]);
                assert(waits_with(objects, limits, rest, record));
            } else {
                let j = rest.len() + own.len() - 1 - k;
                assert(made_of(pending[k], own, kept(j), high));
                assert(in_table(objects, limits, child_of(own, j).page, record));
            }
        }
        if waits_with(objects, limits, rest, record) {
            let k = choose|k: int|
                0 <= k < rest.len() && in_table(
                    objects,
                    limits,
                    (#[trigger] rest[k]).page@,
                    record,
                );
            assert(pending[k] == rest[k]);
        }
        if in_table(objects, limits, next.page@, record) {
            let j = choose|j: int|
                0 <= j < own.len() && in_table(
                    objects,
                    limits,
                    (#[trigger] child_of(own, j)).page,
                    record,
                );
            let at = rest.len() + own.len() - 1 - j;
            assert(made_of(pending[at], own, kept(j), high));
            assert(in_table(objects, limits, pending[at].page@, record));
        }
    }
}

proof fn lemma_waits_push(
    objects: Objects,
    limits: DecodeLimits,
    rest: Seq<PendingTable>,
    next: PendingTable,
    record: RecordView,
)
    ensures
        waits_with(objects, limits, rest.push(next), record) == (waits_with(
            objects,
            limits,
            rest,
            record,
        ) || in_table(objects, limits, next.page@, record)),
{
    let all = rest.push(next);
    if waits_with(objects, limits, all, record) {
        let i = choose|i: int|
            0 <= i < all.len() && in_table(objects, limits, (#[trigger] all[i]).page@, record);
        if i < rest.len() {
            assert(rest[i] == all[i]);
        }
    }
    if waits_with(objects, limits, rest, record) {
        let i = choose|i: int|
            0 <= i < rest.len() && in_table(objects, limits, (#[trigger] rest[i]).page@, record);
        assert(all[i] == rest[i]);
    }
    if in_table(objects, limits, next.page@, record) {
        assert(all[rest.len() as int] == next);
    }
}

} // verus!
