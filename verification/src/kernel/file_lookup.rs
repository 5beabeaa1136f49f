//! Lookup of file records through an authenticated file table.

use super::batch::{
    batch_begun, batch_outcome, child_at, child_upper, found_view, key_models, lookup_batch,
    tree_search, tree_sound, BatchCause, BatchError, TreeFormat,
};
use super::codec::{CanonicalDecodeError, DecodeErrorView, DecodeLimits, Page, PageView};
use super::file_table::{
    decode_file_table_page, id_before, records_ascend, table_children_ordered, table_decoded,
    FileRecord, FileTableChild, FileTablePage, RecordView, TableChildView,
};
use crate::foundation::FileId;
use crate::order::{
    bytes_lt, lemma_bytes_lt_irreflexive, lemma_bytes_lt_transitive, position, same_bytes, views,
    Position,
};
use crate::performance::{
    left_over, no_work, total, within, OperationFailure, WorkBudget, WorkCounters, WorkError,
};
use crate::storage::{
    ImmediateObjectStore, ObjectFailure, ObjectId, ObjectKind, ObjectRead, ObjectStoreError,
    ObjectView, Objects, ReadRequest, ReadView, RequestView,
};
use vstd::prelude::*;

verus! {

/// Authenticated file-table frontier failures.
#[derive(Debug, PartialEq, Eq)]
pub enum FileRecordReadError {
    /// Cooperative cancellation occurred before the next storage boundary.
    Cancelled,
    /// Batch lookup requires at least one identity.
    EmptyBatch,
    /// Batch lookup exceeds its explicit query limit.
    TooManyQueries,
    /// Root is not a file-table page.
    WrongRootKind,
    /// Page-height limit must be non-zero.
    InvalidHeightLimit,
    /// Child graph references an ancestor.
    Cycle,
    /// Traversal did not reach a leaf within the admitted height.
    HeightExceeded,
    /// Internal routing could not select a child.
    InvalidRouting,
    /// Parent lower or upper routing bounds disagree with the selected child.
    ChildBoundsMismatch,
    /// A bounded batch scratch allocation failed.
    AllocationFailed,
    /// Immutable-object backend failed.
    Storage(ObjectStoreError),
    /// Canonical page failed decoding or validation.
    Decode(CanonicalDecodeError),
    /// Exact work exceeded or overflowed its budget.
    Work(WorkError),
}

/// Abstract value of [`FileRecordReadError`].
#[verifier::ext_equal]
pub enum FileReadErrorView {
    /// Cooperative cancellation occurred before the next storage boundary.
    Cancelled,
    /// Batch lookup requires at least one identity.
    EmptyBatch,
    /// Batch lookup exceeds its explicit query limit.
    TooManyQueries,
    /// Root is not a file-table page.
    WrongRootKind,
    /// Page-height limit must be non-zero.
    InvalidHeightLimit,
    /// Child graph references an ancestor.
    Cycle,
    /// Traversal did not reach a leaf within the admitted height.
    HeightExceeded,
    /// Internal routing could not select a child.
    InvalidRouting,
    /// Parent lower or upper routing bounds disagree with the selected child.
    ChildBoundsMismatch,
    /// A bounded batch scratch allocation failed.
    AllocationFailed,
    /// Immutable-object backend failed.
    Storage(ObjectStoreError),
    /// Canonical page failed decoding or validation.
    Decode(DecodeErrorView),
    /// Exact work exceeded or overflowed its budget.
    Work(WorkError),
}

impl View for FileRecordReadError {
    type V = FileReadErrorView;

    open spec fn view(&self) -> FileReadErrorView {
        match *self {
            FileRecordReadError::Cancelled => FileReadErrorView::Cancelled,
            FileRecordReadError::EmptyBatch => FileReadErrorView::EmptyBatch,
            FileRecordReadError::TooManyQueries => FileReadErrorView::TooManyQueries,
            FileRecordReadError::WrongRootKind => FileReadErrorView::WrongRootKind,
            FileRecordReadError::InvalidHeightLimit => FileReadErrorView::InvalidHeightLimit,
            FileRecordReadError::Cycle => FileReadErrorView::Cycle,
            FileRecordReadError::HeightExceeded => FileReadErrorView::HeightExceeded,
            FileRecordReadError::InvalidRouting => FileReadErrorView::InvalidRouting,
            FileRecordReadError::ChildBoundsMismatch => FileReadErrorView::ChildBoundsMismatch,
            FileRecordReadError::AllocationFailed => FileReadErrorView::AllocationFailed,
            FileRecordReadError::Storage(error) => FileReadErrorView::Storage(error),
            FileRecordReadError::Decode(error) => FileReadErrorView::Decode(error@),
            FileRecordReadError::Work(error) => FileReadErrorView::Work(error),
        }
    }
}

/// Lookup failure retaining exact spent work.
pub type FileRecordReadFailure = OperationFailure<FileRecordReadError>;

/// A failure as an abstract one.
pub open spec fn failure_is(
    failure: FileRecordReadFailure,
    error: FileReadErrorView,
    work: WorkCounters,
) -> bool {
    failure.error@ == error && failure.work == work
}

/// Exact path-independent record lookup and measured authenticated work.
#[derive(Clone, Copy, Debug, PartialEq, Eq)]
pub struct FileRecordLookup {
    /// Matching record, or authenticated absence.
    pub record: Option<FileRecord>,
    /// Exact page and backend work.
    pub work: WorkCounters,
}

/// The record of an identity.
pub open spec fn record_of(records: Seq<RecordView>, id: Seq<u8>) -> Option<RecordView> {
    if exists|i: int| 0 <= i < records.len() && (#[trigger] records[i]).file_id == id {
        Some(
            records[choose|i: int|
                0 <= i < records.len() && (#[trigger] records[i]).file_id == id],
        )
    } else {
        None
    }
}

/// Whether the records of a leaf agree with the bounds under which it was reached.
pub open spec fn records_within(
    records: Seq<RecordView>,
    lower: Option<Seq<u8>>,
    upper: Option<Seq<u8>>,
) -> bool {
    &&& lower matches Some(low) ==> records.len() > 0 && records[0].file_id == low
    &&& upper matches Some(high) ==> records.len() > 0 ==> bytes_lt(records.last().file_id, high)
}

/// Whether the children of a page agree with the bounds under which it was reached.
pub open spec fn children_within(
    children: Seq<TableChildView>,
    lower: Option<Seq<u8>>,
    upper: Option<Seq<u8>>,
) -> bool {
    &&& lower matches Some(low) ==> children.len() > 0 && children[0].first_file_id == low
    &&& upper matches Some(high) ==> children.len() > 0 ==> bytes_lt(
        children.last().first_file_id,
        high,
    )
}

/// The last of the first `count` children that does not begin behind an
/// identity, or the first child.
pub open spec fn routed(children: Seq<TableChildView>, id: Seq<u8>, count: nat) -> int
    decreases count,
{
    if count <= 1 {
        0
    } else if !bytes_lt(id, children[count - 1].first_file_id) {
        count - 1
    } else {
        routed(children, id, (count - 1) as nat)
    }
}

/// A lookup between two reads.
#[derive(Debug)]
pub struct FileLookupMachine {
    file_id: FileId,
    limits: DecodeLimits,
    budget: WorkBudget,
    page: ObjectId,
    lower: Option<FileId>,
    upper: Option<FileId>,
    visited: Vec<ObjectId>,
    work: WorkCounters,
}

/// Abstract value of [`FileLookupMachine`].
#[verifier::ext_equal]
pub struct FileLookupView {
    /// Identity looked up.
    pub file_id: Seq<u8>,
    /// Decoding bounds.
    pub limits: DecodeLimits,
    /// Work admitted.
    pub budget: WorkBudget,
    /// Page to read next.
    pub page: ObjectView,
    /// First identity that the page must begin with.
    pub lower: Option<Seq<u8>>,
    /// Identity that the page must stay below.
    pub upper: Option<Seq<u8>>,
    /// Pages read.
    pub visited: Seq<ObjectView>,
    /// Work spent.
    pub work: WorkCounters,
}

/// Bytes of an optional identity.
pub open spec fn id_bytes(id: Option<FileId>) -> Option<Seq<u8>> {
    match id {
        Some(id) => Some(id.bytes@),
        None => None,
    }
}

impl View for FileLookupMachine {
    type V = FileLookupView;

    closed spec fn view(&self) -> FileLookupView {
        FileLookupView {
            file_id: self.file_id.bytes@,
            limits: self.limits,
            budget: self.budget,
            page: self.page@,
            lower: id_bytes(self.lower),
            upper: id_bytes(self.upper),
            visited: views(self.visited@),
            work: self.work,
        }
    }
}

/// One page read.
pub open spec fn one_page_read() -> WorkCounters {
    WorkCounters { page_reads: 1, ..no_work() }
}

/// A failure with the work spent until then.
pub type Failing = (FileReadErrorView, WorkCounters);

/// What a lookup asks for next, with the work that the read is counted into.
pub open spec fn lookup_request(lookup: FileLookupView) -> Result<
    (RequestView, WorkCounters),
    Failing,
> {
    if lookup.visited.len() >= lookup.limits.maximum_page_height {
        Err((FileReadErrorView::HeightExceeded, lookup.work))
    } else if lookup.visited.contains(lookup.page) {
        Err((FileReadErrorView::Cycle, lookup.work))
    } else {
        match total(lookup.work, one_page_read()) {
            Err(error) => Err((FileReadErrorView::Work(error), lookup.work)),
            Ok(prospective) => if !within(prospective, lookup.budget) {
                Err((FileReadErrorView::Work(WorkError::Exceeded), lookup.work))
            } else {
                Ok(
                    (
                        RequestView {
                            object: lookup.page,
                            maximum_bytes: lookup.limits.page_object_bytes(),
                            remaining: left_over(prospective, lookup.budget),
                        },
                        prospective,
                    ),
                )
            },
        }
    }
}

/// A lookup whose page has been asked for.
pub open spec fn lookup_waiting(lookup: FileLookupView) -> FileLookupView {
    FileLookupView { visited: lookup.visited.push(lookup.page), ..lookup }
}

/// What a page tells a lookup.
pub enum LookupStep {
    /// The answer.
    Found(Option<RecordView>, WorkCounters),
    /// The next page.
    Descend(FileLookupView),
}

/// What a lookup makes of the page it asked for.
pub open spec fn lookup_accepts(
    lookup: FileLookupView,
    prospective: WorkCounters,
    read: ReadView,
) -> Result<LookupStep, Failing> {
    match total(prospective, read.work) {
        Err(error) => Err((FileReadErrorView::Work(error), prospective)),
        Ok(work) => if !within(work, lookup.budget) {
            Err((FileReadErrorView::Work(WorkError::Exceeded), work))
        } else {
            match table_decoded(read.bytes, lookup.limits) {
                Err(error) => Err((FileReadErrorView::Decode(error), work)),
                Ok(PageView::Leaf(records)) => if !records_within(
                    records,
                    lookup.lower,
                    lookup.upper,
                ) {
                    Err((FileReadErrorView::ChildBoundsMismatch, work))
                } else {
                    Ok(LookupStep::Found(record_of(records, lookup.file_id), work))
                },
                Ok(PageView::Internal(children)) => if !children_within(
                    children,
                    lookup.lower,
                    lookup.upper,
                ) {
                    Err((FileReadErrorView::ChildBoundsMismatch, work))
                } else {
                    let at = routed(children, lookup.file_id, children.len());
                    Ok(
                        LookupStep::Descend(
                            FileLookupView {
                                page: children[at].page,
                                lower: Some(children[at].first_file_id),
                                upper: if at + 1 < children.len() {
                                    Some(children[at + 1].first_file_id)
                                } else {
                                    lookup.upper
                                },
                                work,
                                ..lookup
                            },
                        ),
                    )
                },
            }
        },
    }
}

/// Position of the first child that begins behind an identity.
fn first_behind(children: &Vec<FileTableChild>, id: &FileId) -> (r: usize)
    requires
        table_children_ordered(views(children@)),
    ensures
        r <= children@.len(),
        forall|i: int|
            0 <= i < r ==> !bytes_lt(id.bytes@, (#[trigger] views(children@)[i]).first_file_id),
        forall|i: int|
            r <= i < children@.len() ==> bytes_lt(
                id.bytes@,
                (#[trigger] views(children@)[i]).first_file_id,
            ),
{
    let ghost all = views(children@);
    let ghost wanted = id.bytes@;
    let mut low: usize = 0;
    let mut high: usize = children.len();
    while low < high
        invariant
            low <= high <= children@.len(),
            all == views(children@),
            wanted == id.bytes@,
            table_children_ordered(all),
            forall|i: int| 0 <= i < low ==> !bytes_lt(wanted, (#[trigger] all[i]).first_file_id),
            forall|i: int|
                high <= i < all.len() ==> bytes_lt(wanted, (#[trigger] all[i]).first_file_id),
        decreases high - low,
    {
        let middle: usize = low + (high - low) / 2;
        let ghost m = middle as int;
        assert(all[m] == children@[m]@);
        if id_before(id, &children[middle].first_file_id) {
            assert forall|i: int| m <= i < all.len() implies bytes_lt(
                wanted,
                (#[trigger] all[i]).first_file_id,
            ) by {
                if i > m {
                    lemma_bytes_lt_transitive(wanted, all[m].first_file_id, all[i].first_file_id);
                }
            }
            high = middle;
        } else {
            assert forall|i: int| 0 <= i < m + 1 implies !bytes_lt(
                wanted,
                (#[trigger] all[i]).first_file_id,
            ) by {
                if i < m && bytes_lt(wanted, all[i].first_file_id) {
                    lemma_bytes_lt_transitive(wanted, all[i].first_file_id, all[m].first_file_id);
                }
            }
            low = middle + 1;
        }
    }
    low
}

proof fn lemma_routed(children: Seq<TableChildView>, id: Seq<u8>, behind: nat, count: nat)
    requires
        behind <= count <= children.len(),
        forall|i: int| 0 <= i < behind ==> !bytes_lt(id, (#[trigger] children[i]).first_file_id),
        forall|i: int| behind <= i < count ==> bytes_lt(id, (#[trigger] children[i]).first_file_id),
    ensures
        routed(children, id, count) == (if behind == 0 {
            0
        } else {
            behind - 1
        }),
    decreases count,
{
    if count > 1 && bytes_lt(id, children[count - 1].first_file_id) {
        lemma_routed(children, id, behind, (count - 1) as nat);
    }
}

/// Finds the record of an identity.
fn find_record(records: &Vec<FileRecord>, id: &FileId) -> (r: Option<FileRecord>)
    requires
        records_ascend(views(records@)),
    ensures
        match r {
            Some(record) => record_of(views(records@), id.bytes@) == Some(record@),
            None => record_of(views(records@), id.bytes@) is None,
        },
{
    let ghost all = views(records@);
    let ghost wanted = id.bytes@;
    let mut low: usize = 0;
    let mut high: usize = records.len();
    while low < high
        invariant
            low <= high <= records@.len(),
            all == views(records@),
            wanted == id.bytes@,
            records_ascend(all),
            forall|i: int| 0 <= i < low ==> bytes_lt((#[trigger] all[i]).file_id, wanted),
            forall|i: int| high <= i < all.len() ==> bytes_lt(wanted, (#[trigger] all[i]).file_id),
        decreases high - low,
    {
        let middle: usize = low + (high - low) / 2;
        let ghost m = middle as int;
        assert(all[m] == records@[m]@);
        match position(records[middle].file_id.bytes.as_slice(), id.bytes.as_slice()) {
            Position::Same => {
                proof {
                    lemma_record_of(all, wanted, m);
                }
                return Some(records[middle]);
            },
            Position::Before => {
                assert forall|i: int| 0 <= i < m + 1 implies bytes_lt(
                    (#[trigger] all[i]).file_id,
                    wanted,
                ) by {
                    if i < m {
                        lemma_bytes_lt_transitive(all[i].file_id, all[m].file_id, wanted);
                    }
                }
                low = middle + 1;
            },
            Position::After => {
                assert forall|i: int| m <= i < all.len() implies bytes_lt(
                    wanted,
                    (#[trigger] all[i]).file_id,
                ) by {
                    if i > m {
                        lemma_bytes_lt_transitive(wanted, all[m].file_id, all[i].file_id);
                    }
                }
                high = middle;
            },
        }
    }
    assert forall|i: int| 0 <= i < all.len() implies (#[trigger] all[i]).file_id != wanted by {
        lemma_bytes_lt_irreflexive(wanted);
    }
    None
}

/// Ascending records hold at most one record of an identity.
pub proof fn lemma_record_of(records: Seq<RecordView>, id: Seq<u8>, at: int)
    requires
        records_ascend(records),
        0 <= at < records.len(),
        records[at].file_id == id,
    ensures
        record_of(records, id) == Some(records[at]),
{
    let k = choose|i: int| 0 <= i < records.len() && (#[trigger] records[i]).file_id == id;
    lemma_bytes_lt_irreflexive(id);
    if k < at {
        assert(bytes_lt(records[k].file_id, records[at].file_id));
    } else if k > at {
        assert(bytes_lt(records[at].file_id, records[k].file_id));
    }
}

fn same_id(a: &FileId, b: &FileId) -> (r: bool)
    ensures
        r == (a.bytes@ == b.bytes@),
{
    same_bytes(a.bytes.as_slice(), b.bytes.as_slice())
}

/// Tells whether leaf records agree with the bounds under which they were reached.
pub fn validate_record_bounds(
    records: &Vec<FileRecord>,
    lower: &Option<FileId>,
    upper: &Option<FileId>,
) -> (r: bool)
    ensures
        r == records_within(views(records@), id_bytes(*lower), id_bytes(*upper)),
{
    let ghost all = views(records@);
    if records.len() > 0 {
        assert(all[0] == records@[0]@);
        assert(all.last() == records@[records@.len() - 1]@);
    }
    if let Some(low) = lower {
        if records.len() == 0 || !same_id(&records[0].file_id, low) {
            return false;
        }
    }
    if let Some(high) = upper {
        if records.len() > 0 && !id_before(&records[records.len() - 1].file_id, high) {
            return false;
        }
    }
    true
}

/// Tells whether children agree with the bounds under which they were reached.
pub fn validate_child_bounds(
    children: &Vec<FileTableChild>,
    lower: &Option<FileId>,
    upper: &Option<FileId>,
) -> (r: bool)
    ensures
        r == children_within(views(children@), id_bytes(*lower), id_bytes(*upper)),
{
    let ghost all = views(children@);
    if children.len() > 0 {
        assert(all[0] == children@[0]@);
        assert(all.last() == children@[children@.len() - 1]@);
    }
    if let Some(low) = lower {
        if children.len() == 0 || !same_id(&children[0].first_file_id, low) {
            return false;
        }
    }
    if let Some(high) = upper {
        if children.len() > 0 && !id_before(&children[children.len() - 1].first_file_id, high) {
            return false;
        }
    }
    true
}

/// Tells whether an object is among those read.
pub(crate) fn was_visited(visited: &Vec<ObjectId>, object: &ObjectId) -> (r: bool)
    ensures
        r == views(visited@).contains(object@),
{
    let ghost all = views(visited@);
    let mut i: usize = 0;
    while i < visited.len()
        invariant
            i <= visited@.len(),
            all == views(visited@),
            forall|j: int| 0 <= j < i ==> all[j] != object@,
        decreases visited@.len() - i,
    {
        assert(all[i as int] == visited@[i as int]@);
        if visited[i].same(object) {
            return true;
        }
        i = i + 1;
    }
    false
}

/// What a fresh lookup is.
pub open spec fn lookup_begun(
    root: ObjectView,
    file_id: Seq<u8>,
    limits: DecodeLimits,
    budget: WorkBudget,
) -> FileLookupView {
    FileLookupView {
        file_id,
        limits,
        budget,
        page: root,
        lower: None,
        upper: None,
        visited: Seq::empty(),
        work: no_work(),
    }
}

impl FileLookupMachine {
    /// Begins a lookup.
    pub fn new(root: ObjectId, file_id: FileId, limits: DecodeLimits, budget: WorkBudget) -> (r: Result<
        Self,
        FileRecordReadFailure,
    >)
        ensures
            root.kind != ObjectKind::FileTablePage ==> (r matches Err(failure) && failure_is(
                failure,
                FileReadErrorView::WrongRootKind,
                no_work(),
            )),
            root.kind == ObjectKind::FileTablePage && !limits.admits_pages(1) ==> (r matches Err(
                failure,
            ) && failure_is(failure, FileReadErrorView::InvalidHeightLimit, no_work())),
            root.kind == ObjectKind::FileTablePage && limits.admits_pages(1) ==> (r matches Ok(
                machine,
            ) && machine@ == lookup_begun(root@, file_id.bytes@, limits, budget)),
    {
        if root.kind != ObjectKind::FileTablePage {
            return Err(OperationFailure::before_work(FileRecordReadError::WrongRootKind));
        }
        if !limits.page_limits_valid(1) {
            return Err(OperationFailure::before_work(FileRecordReadError::InvalidHeightLimit));
        }
        let machine = FileLookupMachine {
            file_id,
            limits,
            budget,
            page: root,
            lower: None,
            upper: None,
            visited: Vec::new(),
            work: WorkCounters::default(),
        };
        assert(views(machine.visited@) =~= Seq::<ObjectView>::empty());
        Ok(machine)
    }

    /// Asks for the next page.
    pub fn prepare_read(&mut self) -> (r: Result<(ReadRequest, WorkCounters), FileRecordReadFailure>)
        ensures
            match lookup_request(old(self)@) {
                Ok((request, prospective)) => r matches Ok(made) && made.0@ == request && made.1
                    == prospective && final(self)@ == lookup_waiting(old(self)@),
                Err((error, work)) => r matches Err(failure) && failure_is(failure, error, work),
            },
    {
        if self.visited.len() >= self.limits.maximum_page_height as usize {
            return Err(OperationFailure::new(FileRecordReadError::HeightExceeded, self.work));
        }
        if was_visited(&self.visited, &self.page) {
            return Err(OperationFailure::new(FileRecordReadError::Cycle, self.work));
        }
        let ghost before = self@;
        let prospective = match self.work.checked_add(WorkCounters::of_page_reads(1)) {
            Ok(sum) => sum,
            Err(error) => {
                return Err(OperationFailure::new(FileRecordReadError::Work(error), self.work));
            },
        };
        let remaining = match prospective.remaining(self.budget) {
            Ok(remaining) => remaining,
            Err(error) => {
                return Err(OperationFailure::new(FileRecordReadError::Work(error), self.work));
            },
        };
        self.visited.push(self.page);
        assert(self@.visited =~= before.visited.push(before.page));
        Ok(
            (
                ReadRequest {
                    object: self.page,
                    maximum_bytes: self.limits.maximum_page_object_bytes(),
                    remaining,
                },
                prospective,
            ),
        )
    }

    /// Takes the page asked for.
    pub fn accept(&mut self, prospective: WorkCounters, read: &ObjectRead) -> (r: Result<
        Option<FileRecordLookup>,
        FileRecordReadFailure,
    >)
        ensures
            match lookup_accepts(old(self)@, prospective, read@) {
                Err((error, work)) => r matches Err(failure) && failure_is(failure, error, work),
                Ok(LookupStep::Found(record, work)) => r matches Ok(Some(found)) && found.work
                    == work && (match found.record {
                    Some(x) => record == Some(x@),
                    None => record is None,
                }),
                Ok(LookupStep::Descend(next)) => r matches Ok(None) && final(self)@ == next,
            },
    {
        let work = match prospective.checked_add(read.work) {
            Ok(work) => work,
            Err(error) => {
                return Err(OperationFailure::new(FileRecordReadError::Work(error), prospective));
            },
        };
        if let Err(error) = work.verify(self.budget) {
            return Err(OperationFailure::new(FileRecordReadError::Work(error), work));
        }
        match decode_file_table_page(read.bytes.as_slice(), self.limits) {
            Err(error) => Err(OperationFailure::new(FileRecordReadError::Decode(error), work)),
            Ok(FileTablePage::Leaf(records)) => {
                if !validate_record_bounds(&records, &self.lower, &self.upper) {
                    return Err(
                        OperationFailure::new(FileRecordReadError::ChildBoundsMismatch, work),
                    );
                }
                let record = find_record(&records, &self.file_id);
                Ok(Some(FileRecordLookup { record, work }))
            },
            Ok(FileTablePage::Internal(children)) => {
                let ghost all = views(children@);
                if !validate_child_bounds(&children, &self.lower, &self.upper) {
                    return Err(
                        OperationFailure::new(FileRecordReadError::ChildBoundsMismatch, work),
                    );
                }
                let behind = first_behind(&children, &self.file_id);
                proof {
                    lemma_routed(all, self.file_id.bytes@, behind as nat, all.len());
                }
                let at: usize = if behind == 0 {
                    0
                } else {
                    behind - 1
                };
                assert(all[at as int] == children@[at as int]@);
                self.lower = Some(children[at].first_file_id);
                if at + 1 < children.len() {
                    assert(all[at + 1] == children@[at + 1]@);
                    self.upper = Some(children[at + 1].first_file_id);
                }
                self.page = children[at].page;
                self.work = work;
                Ok(None)
            },
        }
    }

    /// Turns a failed read into a failed lookup.
    pub fn storage_failure(&self, prospective: WorkCounters, failure: ObjectFailure) -> (r:
        FileRecordReadFailure)
        ensures
            match total(prospective, failure.work) {
                Ok(work) => failure_is(r, FileReadErrorView::Storage(failure.error), work),
                Err(error) => failure_is(r, FileReadErrorView::Work(error), prospective),
            },
    {
        match prospective.checked_add(failure.work) {
            Ok(work) => OperationFailure::new(FileRecordReadError::Storage(failure.error), work),
            Err(error) => OperationFailure::new(FileRecordReadError::Work(error), prospective),
        }
    }

    /// The failure of a cancelled lookup.
    pub fn cancelled(&self) -> (r: FileRecordReadFailure)
        ensures
            failure_is(r, FileReadErrorView::Cancelled, self@.work),
    {
        OperationFailure::new(FileRecordReadError::Cancelled, self.work)
    }
}

/// The outcome of a lookup that may still read `fuel` pages.
pub open spec fn lookup_outcome<S: ImmediateObjectStore>(
    store: &S,
    lookup: FileLookupView,
    fuel: nat,
) -> Result<(Option<RecordView>, WorkCounters), Failing>
    decreases fuel,
{
    match lookup_request(lookup) {
        Err(failure) => Err(failure),
        Ok((request, prospective)) => match store.answers(request) {
            Err(failure) => match total(prospective, failure.work) {
                Ok(work) => Err((FileReadErrorView::Storage(failure.error), work)),
                Err(error) => Err((FileReadErrorView::Work(error), prospective)),
            },
            Ok(read) => match lookup_accepts(lookup_waiting(lookup), prospective, read) {
                Err(failure) => Err(failure),
                Ok(LookupStep::Found(record, work)) => Ok((record, work)),
                Ok(LookupStep::Descend(next)) => if fuel == 0 {
                    Err((FileReadErrorView::HeightExceeded, next.work))
                } else {
                    lookup_outcome(store, next, (fuel - 1) as nat)
                },
            },
        },
    }
}

/// Looks up one stable file identity through an authenticated file-table frontier.
pub fn lookup_file_record<S: ImmediateObjectStore>(
    store: &S,
    root: ObjectId,
    file_id: FileId,
    limits: DecodeLimits,
    budget: WorkBudget,
) -> (r: Result<FileRecordLookup, FileRecordReadFailure>)
    ensures
        root.kind != ObjectKind::FileTablePage ==> (r matches Err(failure) && failure_is(
            failure,
            FileReadErrorView::WrongRootKind,
            no_work(),
        )),
        root.kind == ObjectKind::FileTablePage && !limits.admits_pages(1) ==> (r matches Err(failure)
            && failure_is(failure, FileReadErrorView::InvalidHeightLimit, no_work())),
        root.kind == ObjectKind::FileTablePage && limits.admits_pages(1) ==> match lookup_outcome(
            store,
            lookup_begun(root@, file_id.bytes@, limits, budget),
            limits.maximum_page_height as nat,
        ) {
            Ok((record, work)) => r matches Ok(found) && found.work == work && (match found.record {
                Some(x) => record == Some(x@),
                None => record is None,
            }),
            Err((error, work)) => r matches Err(failure) && failure_is(failure, error, work),
        },
{
    let mut machine = match FileLookupMachine::new(root, file_id, limits, budget) {
        Ok(machine) => machine,
        Err(failure) => {
            return Err(failure);
        },
    };
    let ghost begun = machine@;
    let mut fuel: u16 = limits.maximum_page_height;
    loop
        invariant
            root.kind == ObjectKind::FileTablePage,
            limits.admits_pages(1),
            begun == lookup_begun(root@, file_id.bytes@, limits, budget),
            machine@.limits == limits,
            machine@.visited.len() + fuel == limits.maximum_page_height,
            lookup_outcome(store, begun, limits.maximum_page_height as nat) == lookup_outcome(
                store,
                machine@,
                fuel as nat,
            ),
        decreases fuel,
    {
        let ghost before = machine@;
        let (request, prospective) = match machine.prepare_read() {
            Ok(made) => made,
            Err(failure) => {
                return Err(failure);
            },
        };
        let read = match store.read(&request) {
            Ok(read) => read,
            Err(failure) => {
                return Err(machine.storage_failure(prospective, failure));
            },
        };
        match machine.accept(prospective, &read) {
            Err(failure) => {
                return Err(failure);
            },
            Ok(Some(found)) => {
                return Ok(found);
            },
            Ok(None) => {},
        }
        fuel = fuel - 1;
    }
}

/// One child of a page.
pub open spec fn child_of(children: Seq<TableChildView>, i: int) -> TableChildView {
    children[i]
}

/// Identity that the subtree of a child stays below.
pub open spec fn upper_of(
    children: Seq<TableChildView>,
    i: int,
    upper: Option<Seq<u8>>,
) -> Option<Seq<u8>> {
    if i + 1 < children.len() {
        Some(children[i + 1].first_file_id)
    } else {
        upper
    }
}

/// Whether a page is the root of a file table of at most a given height whose
/// pages decode and keep their bounds.
pub open spec fn table_sound(
    objects: Objects,
    limits: DecodeLimits,
    page: ObjectView,
    lower: Option<Seq<u8>>,
    upper: Option<Seq<u8>>,
    height: nat,
) -> bool
    decreases height,
{
    &&& height > 0
    &&& objects(page) is Some
    &&& match table_decoded(objects(page)->0, limits) {
        Err(_) => false,
        Ok(PageView::Leaf(records)) => records_within(records, lower, upper),
        Ok(PageView::Internal(children)) => children_within(children, lower, upper) && forall|i: int|
            0 <= i < children.len() ==> table_sound(
                objects,
                limits,
                (#[trigger] child_of(children, i)).page,
                Some(children[i].first_file_id),
                upper_of(children, i, upper),
                (height - 1) as nat,
            ),
    }
}

/// Whether a file table holds a record.
pub open spec fn table_holds(
    objects: Objects,
    limits: DecodeLimits,
    page: ObjectView,
    height: nat,
    record: RecordView,
) -> bool
    decreases height,
{
    &&& height > 0
    &&& objects(page) is Some
    &&& match table_decoded(objects(page)->0, limits) {
        Err(_) => false,
        Ok(PageView::Leaf(records)) => records.contains(record),
        Ok(PageView::Internal(children)) => exists|i: int|
            0 <= i < children.len() && table_holds(
                        objects,
                        limits,
                        (#[trigger] child_of(children, i)).page,
                (height - 1) as nat,
                record,
            ),
    }
}

/// The record that descending through routed children finds.
pub open spec fn table_search(
    objects: Objects,
    limits: DecodeLimits,
    page: ObjectView,
    height: nat,
    id: Seq<u8>,
) -> Option<RecordView>
    decreases height,
{
    if height == 0 || objects(page) is None {
        None
    } else {
        match table_decoded(objects(page)->0, limits) {
            Err(_) => None,
            Ok(PageView::Leaf(records)) => record_of(records, id),
            Ok(PageView::Internal(children)) => table_search(
                objects,
                limits,
                children[routed(children, id, children.len())].page,
                (height - 1) as nat,
                id,
            ),
        }
    }
}

proof fn lemma_decoded_ordered(bytes: Seq<u8>, limits: DecodeLimits)
    ensures
        table_decoded(bytes, limits) matches Ok(PageView::Leaf(records)) ==> records_ascend(records),
        table_decoded(bytes, limits) matches Ok(PageView::Internal(children))
            ==> table_children_ordered(children),
{
}

proof fn lemma_routed_range(children: Seq<TableChildView>, id: Seq<u8>, count: nat)
    requires
        0 < count <= children.len(),
        table_children_ordered(children),
    ensures
        0 <= routed(children, id, count) < count,
        routed(children, id, count) > 0 ==> !bytes_lt(
            id,
            children[routed(children, id, count)].first_file_id,
        ),
        forall|i: int|
            routed(children, id, count) < i < count ==> bytes_lt(
                id,
                (#[trigger] children[i]).first_file_id,
            ),
    decreases count,
{
    if count > 1 && bytes_lt(id, children[count - 1].first_file_id) {
        lemma_routed_range(children, id, (count - 1) as nat);
    }
}

/// Every record of a sound table lies within its bounds.
proof fn lemma_holds_within(
    objects: Objects,
    limits: DecodeLimits,
    page: ObjectView,
    lower: Option<Seq<u8>>,
    upper: Option<Seq<u8>>,
    height: nat,
    record: RecordView,
)
    requires
        table_sound(objects, limits, page, lower, upper, height),
        table_holds(objects, limits, page, height, record),
    ensures
        lower matches Some(low) ==> !bytes_lt(record.file_id, low),
        upper matches Some(high) ==> bytes_lt(record.file_id, high),
    decreases height,
{
    let bytes = objects(page)->0;
    lemma_decoded_ordered(bytes, limits);
    match table_decoded(bytes, limits) {
        Err(_) => {},
        Ok(PageView::Leaf(records)) => {
            let i = records.index_of(record);
            assert(records[i] == record);
            let n = records.len() - 1;
            lemma_bytes_lt_irreflexive(record.file_id);
            if i > 0 {
                assert(bytes_lt(records[0].file_id, records[i].file_id));
                if bytes_lt(records[i].file_id, records[0].file_id) {
                    lemma_bytes_lt_transitive(
                        records[i].file_id,
                        records[0].file_id,
                        records[i].file_id,
                    );
                }
            }
            if let Some(high) = upper {
                if i < n {
                    assert(bytes_lt(records[i].file_id, records[n].file_id));
                    lemma_bytes_lt_transitive(records[i].file_id, records[n].file_id, high);
                }
            }
        },
        Ok(PageView::Internal(children)) => {
            let i = choose|i: int|
                0 <= i < children.len() && table_holds(
                        objects,
                        limits,
                        (#[trigger] child_of(children, i)).page,
                    (height - 1) as nat,
                    record,
                );
            let below = Some(children[i].first_file_id);
            let above = upper_of(children, i, upper);
            assert(table_sound(
                objects,
                limits,
                child_of(children, i).page,
                below,
                above,
                (height - 1) as nat,
            ));
            lemma_holds_within(
                objects,
                limits,
                children[i].page,
                below,
                above,
                (height - 1) as nat,
                record,
            );
            let first = children[0].first_file_id;
            let own = children[i].first_file_id;
            if i > 0 {
                assert(bytes_lt(first, own));
                if bytes_lt(record.file_id, first) {
                    lemma_bytes_lt_transitive(record.file_id, first, own);
                }
            }
            if let Some(high) = upper {
                if i + 1 < children.len() {
                    let n = children.len() - 1;
                    let next = children[i + 1].first_file_id;
                    let last = children[n].first_file_id;
                    if i + 1 < n {
                        assert(bytes_lt(next, last));
                        lemma_bytes_lt_transitive(record.file_id, next, last);
                    }
                    lemma_bytes_lt_transitive(record.file_id, last, high);
                }
            }
        },
    }
}

/// Descending through a sound file table finds exactly the record that the
/// table holds for an identity, or that it holds none.
pub proof fn table_search_is_exact(
    objects: Objects,
    limits: DecodeLimits,
    page: ObjectView,
    lower: Option<Seq<u8>>,
    upper: Option<Seq<u8>>,
    height: nat,
    id: Seq<u8>,
)
    requires
        table_sound(objects, limits, page, lower, upper, height),
    ensures
        table_search(objects, limits, page, height, id) matches Some(record) ==> record.file_id == id
            && table_holds(objects, limits, page, height, record),
        forall|record: RecordView| #[trigger]
            table_holds(objects, limits, page, height, record) && record.file_id == id
                ==> table_search(objects, limits, page, height, id) == Some(record),
    decreases height,
{
    let bytes = objects(page)->0;
    lemma_decoded_ordered(bytes, limits);
    match table_decoded(bytes, limits) {
        Err(_) => {},
        Ok(PageView::Leaf(records)) => {
            assert forall|record: RecordView| #[trigger]
                table_holds(objects, limits, page, height, record) && record.file_id
                    == id implies table_search(objects, limits, page, height, id) == Some(record) by {
                let i = records.index_of(record);
                assert(records[i] == record);
                lemma_record_of(records, id, i);
            }
        },
        Ok(PageView::Internal(children)) => {
            let at = routed(children, id, children.len());
            lemma_routed_range(children, id, children.len());
            let below = Some(children[at].first_file_id);
            let above = upper_of(children, at, upper);
            assert(table_sound(
                objects,
                limits,
                child_of(children, at).page,
                below,
                above,
                (height - 1) as nat,
            ));
            table_search_is_exact(
                objects,
                limits,
                children[at].page,
                below,
                above,
                (height - 1) as nat,
                id,
            );
            assert forall|record: RecordView| #[trigger]
                table_holds(objects, limits, page, height, record) && record.file_id
                    == id implies table_search(objects, limits, page, height, id) == Some(record) by {
                let i = choose|i: int|
                    0 <= i < children.len() && table_holds(
                        objects,
                        limits,
                        (#[trigger] child_of(children, i)).page,
                        (height - 1) as nat,
                        record,
                    );
                let low = Some(children[i].first_file_id);
                let high = upper_of(children, i, upper);
                assert(table_sound(
                    objects,
                    limits,
                    child_of(children, i).page,
                    low,
                    high,
                    (height - 1) as nat,
                ));
                lemma_holds_within(
                    objects,
                    limits,
                    children[i].page,
                    low,
                    high,
                    (height - 1) as nat,
                    record,
                );
                if i < at {
                    let next = children[i + 1].first_file_id;
                    let own = children[at].first_file_id;
                    if i + 1 < at {
                        assert(bytes_lt(next, own));
                        lemma_bytes_lt_transitive(id, next, own);
                    }
                } else if i > at {
                    assert(bytes_lt(id, children[i].first_file_id));
                }
                assert(i == at);
            }
        },
    }
}

/// Whether a store answers from given contents.
pub open spec fn serves<S: ImmediateObjectStore>(store: &S, objects: Objects) -> bool {
    forall|request: RequestView|
        (#[trigger] store.answers(request)) matches Ok(read) ==> objects(request.object) == Some(
            read.bytes,
        )
}

/// A lookup that succeeds returns what descending through the table finds.
pub proof fn lookup_follows_the_table<S: ImmediateObjectStore>(
    store: &S,
    objects: Objects,
    lookup: FileLookupView,
    fuel: nat,
)
    requires
        serves(store, objects),
        lookup_outcome(store, lookup, fuel) is Ok,
    ensures
        lookup_outcome(store, lookup, fuel)->Ok_0.0 == table_search(
            objects,
            lookup.limits,
            lookup.page,
            fuel + 1,
            lookup.file_id,
        ),
    decreases fuel,
{
    let (request, prospective) = lookup_request(lookup)->Ok_0;
    let read = store.answers(request)->Ok_0;
    assert(objects(request.object) == Some(read.bytes));
    match lookup_accepts(lookup_waiting(lookup), prospective, read) {
        Ok(LookupStep::Descend(next)) => {
            lookup_follows_the_table(store, objects, next, (fuel - 1) as nat);
        },
        _ => {},
    }
}

/// A lookup that succeeds finds its record within the pages that it may still read.
proof fn lemma_lookup_height<S: ImmediateObjectStore>(
    store: &S,
    objects: Objects,
    lookup: FileLookupView,
    fuel: nat,
    height: nat,
)
    requires
        serves(store, objects),
        lookup_outcome(store, lookup, fuel) is Ok,
        lookup.visited.len() + height >= lookup.limits.maximum_page_height,
    ensures
        lookup_outcome(store, lookup, fuel)->Ok_0.0 == table_search(
            objects,
            lookup.limits,
            lookup.page,
            height,
            lookup.file_id,
        ),
    decreases fuel,
{
    let (request, prospective) = lookup_request(lookup)->Ok_0;
    let read = store.answers(request)->Ok_0;
    assert(objects(request.object) == Some(read.bytes));
    match lookup_accepts(lookup_waiting(lookup), prospective, read) {
        Ok(LookupStep::Descend(next)) => {
            lemma_lookup_height(store, objects, next, (fuel - 1) as nat, (height - 1) as nat);
        },
        _ => {},
    }
}

/// A lookup of one identity that succeeds finds what a batch answers to that identity.
pub proof fn batches_agree_with_lookups<S: ImmediateObjectStore>(
    store: &S,
    objects: Objects,
    root: ObjectView,
    file_id: Seq<u8>,
    limits: DecodeLimits,
    budget: WorkBudget,
)
    requires
        serves(store, objects),
        lookup_outcome(
            store,
            lookup_begun(root, file_id, limits, budget),
            limits.maximum_page_height as nat,
        ) is Ok,
    ensures
        lookup_outcome(
            store,
            lookup_begun(root, file_id, limits, budget),
            limits.maximum_page_height as nat,
        )->Ok_0.0 == table_search(
            objects,
            limits,
            root,
            limits.maximum_page_height as nat,
            file_id,
        ),
{
    lemma_lookup_height(
        store,
        objects,
        lookup_begun(root, file_id, limits, budget),
        limits.maximum_page_height as nat,
        limits.maximum_page_height as nat,
    );
}

/// The tree of file records.
pub struct FileTableFormat;

impl TreeFormat for FileTableFormat {
    type Key = FileId;

    type Model = Seq<u8>;

    type Entry = FileRecord;

    type Child = FileTableChild;

    open spec fn model(key: FileId) -> Seq<u8> {
        key.bytes@
    }

    open spec fn page_kind() -> ObjectKind {
        ObjectKind::FileTablePage
    }

    open spec fn page_decoded(bytes: Seq<u8>, limits: DecodeLimits) -> Result<
        PageView<RecordView, TableChildView>,
        DecodeErrorView,
    > {
        table_decoded(bytes, limits)
    }

    open spec fn entries_ordered(entries: Seq<RecordView>) -> bool {
        records_ascend(entries)
    }

    open spec fn children_ordered(children: Seq<TableChildView>) -> bool {
        table_children_ordered(children)
    }

    open spec fn entries_fit(
        entries: Seq<RecordView>,
        lower: Option<Seq<u8>>,
        upper: Option<Seq<u8>>,
    ) -> bool {
        records_within(entries, lower, upper)
    }

    open spec fn children_fit(
        children: Seq<TableChildView>,
        lower: Option<Seq<u8>>,
        upper: Option<Seq<u8>>,
    ) -> bool {
        children_within(children, lower, upper)
    }

    open spec fn entry_for(entries: Seq<RecordView>, key: Seq<u8>) -> Option<
        RecordView,
    > {
        record_of(entries, key)
    }

    open spec fn child_for(children: Seq<TableChildView>, key: Seq<u8>) -> int {
        routed(children, key, children.len())
    }

    open spec fn child_page(child: TableChildView) -> ObjectView {
        child.page
    }

    open spec fn child_first(child: TableChildView) -> Seq<u8> {
        child.first_file_id
    }

    proof fn decoded_in_order(bytes: Seq<u8>, limits: DecodeLimits, key: Seq<u8>) {
        lemma_decoded_ordered(bytes, limits);
        if let Ok(PageView::Internal(children)) = table_decoded(bytes, limits) {
            lemma_routed_range(children, key, children.len());
        }
    }

    fn kind() -> (r: ObjectKind) {
        ObjectKind::FileTablePage
    }

    fn decode(bytes: &[u8], limits: DecodeLimits) -> (r: Result<
        Page<FileRecord, FileTableChild>,
        CanonicalDecodeError,
    >) {
        match decode_file_table_page(bytes, limits) {
            Err(error) => Err(error),
            Ok(FileTablePage::Leaf(entries)) => Ok(Page::Leaf(entries)),
            Ok(FileTablePage::Internal(children)) => Ok(Page::Internal(children)),
        }
    }

    fn entries_within(
        entries: &Vec<FileRecord>,
        lower: &Option<FileId>,
        upper: &Option<FileId>,
    ) -> (r: bool) {
        validate_record_bounds(entries, lower, upper)
    }

    fn children_within(
        children: &Vec<FileTableChild>,
        lower: &Option<FileId>,
        upper: &Option<FileId>,
    ) -> (r: bool) {
        validate_child_bounds(children, lower, upper)
    }

    fn find(entries: &Vec<FileRecord>, key: &FileId) -> (r: Option<FileRecord>) {
        find_record(entries, key)
    }

    fn route(children: &Vec<FileTableChild>, key: &FileId) -> (r: usize) {
        let behind = first_behind(children, key);
        proof {
            lemma_routed(views(children@), key.bytes@, behind as nat, children@.len());
        }
        if behind == 0 {
            0
        } else {
            behind - 1
        }
    }

    fn page_of(child: &FileTableChild) -> (r: ObjectId) {
        child.page
    }

    fn first_of(child: &FileTableChild) -> (r: FileId) {
        child.first_file_id
    }

    fn copy_key(key: &FileId) -> (r: FileId) {
        *key
    }
}

proof fn lemma_table_tree(
    objects: Objects,
    limits: DecodeLimits,
    page: ObjectView,
    lower: Option<Seq<u8>>,
    upper: Option<Seq<u8>>,
    height: nat,
    id: Seq<u8>,
)
    ensures
        tree_search::<FileTableFormat>(objects, limits, page, height, id) == table_search(
            objects,
            limits,
            page,
            height,
            id,
        ),
        table_sound(objects, limits, page, lower, upper, height) ==> tree_sound::<
            FileTableFormat,
        >(objects, limits, page, lower, upper, height),
    decreases height,
{
    if height > 0 && objects(page) is Some {
        if let Ok(PageView::Internal(children)) = table_decoded(objects(page)->0, limits) {
            lemma_table_tree(
                objects,
                limits,
                children[routed(children, id, children.len())].page,
                lower,
                upper,
                (height - 1) as nat,
                id,
            );
            if table_sound(objects, limits, page, lower, upper, height) {
                assert forall|i: int| 0 <= i < children.len() implies tree_sound::<FileTableFormat>(
                    objects,
                    limits,
                    (#[trigger] child_at(children, i)).page,
                    Some(children[i].first_file_id),
                    child_upper::<FileTableFormat>(children, i, upper),
                    (height - 1) as nat,
                ) by {
                    assert(child_of(children, i) == children[i]);
                    lemma_table_tree(
                        objects,
                        limits,
                        children[i].page,
                        Some(children[i].first_file_id),
                        upper_of(children, i, upper),
                        (height - 1) as nat,
                        id,
                    );
                }
            }
        }
    }
}

/// Original-order file records from one shared authenticated frontier batch.
#[derive(Debug, PartialEq, Eq)]
pub struct FileRecordBatchLookup {
    /// One explicit present or absent result per requested file identity.
    pub records: Vec<Option<FileRecord>>,
    /// Work of the traversal and the backend.
    pub work: WorkCounters,
}

/// A batch failure as a lookup failure.
pub open spec fn batch_cause(error: BatchError) -> FileReadErrorView {
    match error {
        BatchError::Cancelled => FileReadErrorView::Cancelled,
        BatchError::Empty => FileReadErrorView::EmptyBatch,
        BatchError::TooManyQueries => FileReadErrorView::TooManyQueries,
        BatchError::WrongRootKind => FileReadErrorView::WrongRootKind,
        BatchError::InvalidLimits => FileReadErrorView::InvalidHeightLimit,
        BatchError::HeightExceeded => FileReadErrorView::HeightExceeded,
        BatchError::CycleOrAlias => FileReadErrorView::Cycle,
        BatchError::ChildBoundsMismatch => FileReadErrorView::ChildBoundsMismatch,
        BatchError::InvalidRouting => FileReadErrorView::InvalidRouting,
        BatchError::AllocationFailed => FileReadErrorView::AllocationFailed,
        BatchError::Storage(error) => FileReadErrorView::Storage(error),
        BatchError::Decode(error) => FileReadErrorView::Decode(error@),
        BatchError::Work(error) => FileReadErrorView::Work(error),
    }
}

/// Turns a batch failure into a lookup failure.
pub fn map_batch_error(error: BatchError) -> (r: FileRecordReadError)
    ensures
        r@ == batch_cause(error),
{
    match error {
        BatchError::Cancelled => FileRecordReadError::Cancelled,
        BatchError::Empty => FileRecordReadError::EmptyBatch,
        BatchError::TooManyQueries => FileRecordReadError::TooManyQueries,
        BatchError::WrongRootKind => FileRecordReadError::WrongRootKind,
        BatchError::InvalidLimits => FileRecordReadError::InvalidHeightLimit,
        BatchError::HeightExceeded => FileRecordReadError::HeightExceeded,
        BatchError::CycleOrAlias => FileRecordReadError::Cycle,
        BatchError::ChildBoundsMismatch => FileRecordReadError::ChildBoundsMismatch,
        BatchError::InvalidRouting => FileRecordReadError::InvalidRouting,
        BatchError::AllocationFailed => FileRecordReadError::AllocationFailed,
        BatchError::Storage(error) => FileRecordReadError::Storage(error),
        BatchError::Decode(error) => FileRecordReadError::Decode(error),
        BatchError::Work(error) => FileRecordReadError::Work(error),
    }
}

/// Why a batch of identities is refused before any work.
pub open spec fn ids_problem(
    root: ObjectId,
    queries: nat,
    maximum_queries: u32,
    limits: DecodeLimits,
) -> Option<FileReadErrorView> {
    if queries == 0 {
        Some(FileReadErrorView::EmptyBatch)
    } else if queries > maximum_queries {
        Some(FileReadErrorView::TooManyQueries)
    } else if root.kind != ObjectKind::FileTablePage {
        Some(FileReadErrorView::WrongRootKind)
    } else if !limits.admits_pages(1) {
        Some(FileReadErrorView::InvalidHeightLimit)
    } else {
        None
    }
}

/// Whether a failure is one that a sound table leaves possible: of the store, of the
/// bounds, or of a page reached twice.
pub open spec fn outside_the_table(error: FileReadErrorView) -> bool {
    error is Cancelled || error is Cycle || error is AllocationFailed || error is Storage
        || error is Work
}

/// The cause of a batch failure as a lookup failure.
pub open spec fn cause_view(cause: BatchCause) -> FileReadErrorView {
    match cause {
        BatchCause::Undecodable(decoding) => FileReadErrorView::Decode(decoding),
        BatchCause::Refused(refusal) => batch_cause(refusal),
    }
}

/// Whether a batch of identities is settled as its outcome says. More pages than a
/// table of them can hold are an allocation failure.
pub open spec fn ids_settled<S: ImmediateObjectStore>(
    store: &S,
    root: ObjectView,
    file_ids: Seq<FileId>,
    limits: DecodeLimits,
    budget: WorkBudget,
    r: Result<FileRecordBatchLookup, FileRecordReadFailure>,
) -> bool {
    ||| match batch_outcome::<S, FileTableFormat>(
        store,
        key_models::<FileTableFormat>(file_ids),
        limits,
        budget,
        batch_begun::<FileTableFormat>(root, file_ids.len(), limits),
    ) {
        Ok((values, work)) => r matches Ok(found) && found.work == work && found.records@.len()
            == values.len() && forall|q: int|
            0 <= q < values.len() ==> found_view(#[trigger] found.records@[q]) == values[q],
        Err(failing) => r matches Err(failure) && failure_is(
            failure,
            cause_view(failing.0),
            failing.1,
        ),
    }
    ||| limits.maximum_visited_pages > usize::MAX / 4 && (r matches Err(failure)
        && failure.error@ is AllocationFailed)
}

/// Looks up file records while reading every distinct file-table frontier once.
pub fn lookup_file_records<S: ImmediateObjectStore>(
    store: &S,
    root: ObjectId,
    file_ids: &Vec<FileId>,
    maximum_queries: u32,
    limits: DecodeLimits,
    budget: WorkBudget,
) -> (r: Result<FileRecordBatchLookup, FileRecordReadFailure>)
    ensures
        match ids_problem(root, file_ids@.len(), maximum_queries, limits) {
            Some(problem) => r matches Err(failure) && failure_is(failure, problem, no_work()),
            None => ids_settled(store, root@, file_ids@, limits, budget, r),
        },
        ids_problem(root, file_ids@.len(), maximum_queries, limits) is None ==> {
            match r {
                Ok(found) => found.records@.len() == file_ids@.len() && within(found.work, budget)
                    && forall|objects: Objects, q: int|
                    #![trigger serves(store, objects), found.records@[q]]
                    serves(store, objects) && 0 <= q < file_ids@.len() ==> found_view(
                        found.records@[q],
                    ) == table_search(
                        objects,
                        limits,
                        root@,
                        limits.maximum_page_height as nat,
                        file_ids@[q].bytes@,
                    ),
                Err(failure) => !(failure.error@ is EmptyBatch) && !(
                failure.error@ is TooManyQueries) && !(failure.error@ is WrongRootKind) && !(
                failure.error@ is InvalidHeightLimit) && forall|objects: Objects| #[trigger]
                    serves(store, objects) && table_sound(
                        objects,
                        limits,
                        root@,
                        None,
                        None,
                        limits.maximum_page_height as nat,
                    ) ==> outside_the_table(failure.error@),
            }
        },
{
    match lookup_batch::<S, FileTableFormat>(store, root, file_ids, maximum_queries, limits, budget) {
        Ok(receipt) => {
            proof {
                let height = limits.maximum_page_height as nat;
                assert forall|objects: Objects, q: int|
                    #![trigger serves(store, objects), receipt.values@[q]]
                    serves(store, objects) && 0 <= q < file_ids@.len() implies found_view(
                    receipt.values@[q],
                ) == table_search(objects, limits, root@, height, file_ids@[q].bytes@) by {
                    lemma_table_tree(objects, limits, root@, None, None, height, file_ids@[q].bytes@);
                }
            }
            Ok(FileRecordBatchLookup { records: receipt.values, work: receipt.work })
        },
        Err(failure) => {
            proof {
                let height = limits.maximum_page_height as nat;
                assert forall|objects: Objects| #[trigger]
                    serves(store, objects) && table_sound(
                        objects,
                        limits,
                        root@,
                        None,
                        None,
                        height,
                    ) implies tree_sound::<FileTableFormat>(
                    objects,
                    limits,
                    root@,
                    None,
                    None,
                    height,
                ) by {
                    lemma_table_tree(
                        objects,
                        limits,
                        root@,
                        None,
                        None,
                        height,
                        arbitrary(),
                    );
                }
            }
            Err(OperationFailure::new(map_batch_error(failure.error), failure.work))
        },
    }
}

} // verus!
