//! Consistency of a namespace with its file records.

use super::file_table::{FilePayload, FileRecord, RecordView};
use super::name::{FileKind, LogicalName, NameView};
use crate::foundation::FileId;
use crate::order::{ascending, enumerates, views, OrderedMap, OrderedSet, Replicate};
use vstd::prelude::*;

verus! {

/// One binding of a directory.
#[derive(Debug, PartialEq, Eq)]
pub struct TreeEntry {
    /// Name within the directory.
    pub name: LogicalName,
    /// File that the name is bound to.
    pub file_id: FileId,
    /// Kind of that file.
    pub kind: FileKind,
}

/// Abstract value of [`TreeEntry`].
#[verifier::ext_equal]
pub struct TreeEntryView {
    /// Name within the directory.
    pub name: NameView,
    /// File that the name is bound to.
    pub file_id: FileId,
    /// Kind of that file.
    pub kind: FileKind,
}

impl View for TreeEntry {
    type V = TreeEntryView;

    open spec fn view(&self) -> TreeEntryView {
        TreeEntryView { name: self.name@, file_id: self.file_id, kind: self.kind }
    }
}

/// Bindings of one directory.
#[derive(Debug, PartialEq, Eq)]
pub struct DirectoryEntries {
    /// Bindings in order.
    pub entries: Vec<TreeEntry>,
}

impl View for DirectoryEntries {
    type V = Seq<TreeEntryView>;

    open spec fn view(&self) -> Seq<TreeEntryView> {
        views(self.entries@)
    }
}

/// A number of links.
#[derive(Clone, Copy, Debug, PartialEq, Eq)]
pub struct Links {
    /// The number.
    pub count: u64,
}

impl View for Links {
    type V = u64;

    open spec fn view(&self) -> u64 {
        self.count
    }
}

/// Ways in which a namespace and its file records can disagree.
#[derive(Clone, Copy, Debug, PartialEq, Eq)]
pub enum NamespaceError {
    /// Namespace references an absent file record.
    MissingFileRecord(FileId),
    /// Namespace entry kind differs from its file record.
    NamespaceKindMismatch(FileId),
    /// Recorded hard-link count differs from exact namespace references.
    LinkCountMismatch(FileId),
    /// Directories cannot have hard links.
    DirectoryHardLink(FileId),
    /// Directory record has no proven namespace tree.
    MissingDirectoryTree(FileId),
    /// File table contains records unreachable from the root.
    UnreachableFileRecords,
    /// Count arithmetic overflowed.
    RangeOverflow,
}

/// File records by identity.
pub type Records = Map<FileId, RecordView>;

/// Bindings by directory.
pub type Directories = Map<FileId, Seq<TreeEntryView>>;

/// Bindings of some directories, one directory after the other.
pub open spec fn bindings(directories: Directories, keys: Seq<FileId>) -> Seq<TreeEntryView>
    decreases keys.len(),
{
    if keys.len() == 0 {
        Seq::empty()
    } else {
        bindings(directories, keys.drop_last()) + directories[keys.last()]
    }
}

/// Number of bindings of a file.
pub open spec fn references(entries: Seq<TreeEntryView>, id: FileId) -> nat
    decreases entries.len(),
{
    if entries.len() == 0 {
        0
    } else {
        references(entries.drop_last(), id) + (if entries.last().file_id == id {
            1nat
        } else {
            0nat
        })
    }
}

/// Number of links of a file: its bindings, and one for the root.
pub open spec fn links(entries: Seq<TreeEntryView>, root: FileId, id: FileId) -> nat {
    references(entries, id) + (if id == root {
        1nat
    } else {
        0nat
    })
}

/// The first binding that does not fit its record, among the first `count`.
pub open spec fn binding_problem(
    records: Records,
    root: FileId,
    entries: Seq<TreeEntryView>,
    count: nat,
) -> Option<NamespaceError>
    decreases count,
{
    if count == 0 {
        None
    } else {
        match binding_problem(records, root, entries, (count - 1) as nat) {
            Some(error) => Some(error),
            None => {
                let entry = entries[count - 1];
                if !records.dom().contains(entry.file_id) {
                    Some(NamespaceError::MissingFileRecord(entry.file_id))
                } else if records[entry.file_id].kind != entry.kind {
                    Some(NamespaceError::NamespaceKindMismatch(entry.file_id))
                } else if links(entries.take(count - 1), root, entry.file_id) == u64::MAX {
                    Some(NamespaceError::RangeOverflow)
                } else {
                    None
                }
            },
        }
    }
}

/// The first record that does not fit the bindings, among the first `count`.
pub open spec fn record_problem(
    records: Records,
    keys: Seq<FileId>,
    root: FileId,
    entries: Seq<TreeEntryView>,
    count: nat,
) -> Option<NamespaceError>
    decreases count,
{
    if count == 0 {
        None
    } else {
        match record_problem(records, keys, root, entries, (count - 1) as nat) {
            Some(error) => Some(error),
            None => {
                let id = keys[count - 1];
                if links(entries, root, id) != records[id].link_count {
                    Some(NamespaceError::LinkCountMismatch(id))
                } else if records[id].payload is Directory && records[id].link_count != 1 {
                    Some(NamespaceError::DirectoryHardLink(id))
                } else {
                    None
                }
            },
        }
    }
}

/// Directories among the files of bindings, in order.
pub open spec fn subdirectories(directories: Directories, entries: Seq<TreeEntryView>) -> Seq<FileId>
    decreases entries.len(),
{
    if entries.len() == 0 {
        Seq::empty()
    } else if directories.dom().contains(entries.last().file_id) {
        subdirectories(directories, entries.drop_last()).push(entries.last().file_id)
    } else {
        subdirectories(directories, entries.drop_last())
    }
}

/// Files of bindings.
pub open spec fn files_of(entries: Seq<TreeEntryView>) -> Set<FileId> {
    Set::new(|id: FileId| exists|i: int| 0 <= i < entries.len() && (#[trigger] entries[i]).file_id == id)
}

/// Files that a walk through directories comes to, or why it stops: from the last
/// directory that waits, through its bindings.
pub open spec fn walked(
    directories: Directories,
    pending: Seq<FileId>,
    seen: Set<FileId>,
    reachable: Set<FileId>,
) -> Result<Set<FileId>, NamespaceError>
    decreases directories.dom().difference(seen).len(),
    when directories.dom().finite()
{
    if pending.len() == 0 {
        Ok(reachable)
    } else {
        let id = pending.last();
        if seen.contains(id) {
            Err(NamespaceError::DirectoryHardLink(id))
        } else if !directories.dom().contains(id) {
            Err(NamespaceError::MissingDirectoryTree(id))
        } else {
            proof {
                lemma_one_less(directories.dom(), seen, id);
            }
            walked(
                directories,
                pending.drop_last() + subdirectories(directories, directories[id]),
                seen.insert(id),
                reachable.insert(id).union(files_of(directories[id])),
            )
        }
    }
}

/// Seeing one more member leaves one fewer to see.
pub proof fn lemma_one_less(all: Set<FileId>, seen: Set<FileId>, id: FileId)
    requires
        all.finite(),
        all.contains(id),
        !seen.contains(id),
    ensures
        all.difference(seen.insert(id)).len() < all.difference(seen).len(),
        all.difference(seen).finite(),
{
    let left = all.difference(seen);
    assert(left.subset_of(all));
    vstd::set_lib::lemma_len_subset(left, all);
    assert(all.difference(seen.insert(id)) =~= left.remove(id));
    assert(left.contains(id));
}

/// How a namespace and its file records disagree.
pub open spec fn namespace_problem(
    root: FileId,
    records: Records,
    directories: Directories,
) -> Option<NamespaceError> {
    let entries = bindings(directories, ascending::<FileId>(directories.dom()));
    let keys = ascending::<FileId>(records.dom());
    match binding_problem(records, root, entries, entries.len()) {
        Some(error) => Some(error),
        None => match record_problem(records, keys, root, entries, keys.len()) {
            Some(error) => Some(error),
            None => match walked(directories, seq![root], Set::empty(), Set::empty()) {
                Err(error) => Some(error),
                Ok(reachable) => if reachable.len() != records.dom().len() {
                    Some(NamespaceError::UnreachableFileRecords)
                } else {
                    None
                },
            },
        },
    }
}

proof fn lemma_references_push(entries: Seq<TreeEntryView>, entry: TreeEntryView, id: FileId)
    ensures
        references(entries.push(entry), id) == references(entries, id) + (if entry.file_id == id {
            1nat
        } else {
            0nat
        }),
{
    assert(entries.push(entry).drop_last() =~= entries);
}

/// The number of links that a count of links stands for.
spec fn counted(counts: Map<FileId, u64>, id: FileId) -> nat {
    if counts.dom().contains(id) {
        counts[id] as nat
    } else {
        0
    }
}

proof fn lemma_binding_problem_prefix(
    records: Records,
    root: FileId,
    entries: Seq<TreeEntryView>,
    more: Seq<TreeEntryView>,
    count: nat,
)
    requires
        count <= entries.len(),
    ensures
        binding_problem(records, root, entries + more, count) == binding_problem(
            records,
            root,
            entries,
            count,
        ),
    decreases count,
{
    if count > 0 {
        lemma_binding_problem_prefix(records, root, entries, more, (count - 1) as nat);
        assert((entries + more).take(count - 1) =~= entries.take(count - 1));
    }
}

/// A problem among the first bindings is the problem of all.
proof fn lemma_binding_problem_stays(
    records: Records,
    root: FileId,
    entries: Seq<TreeEntryView>,
    count: nat,
    upto: nat,
)
    requires
        count <= upto,
        binding_problem(records, root, entries, count) is Some,
    ensures
        binding_problem(records, root, entries, upto) == binding_problem(
            records,
            root,
            entries,
            count,
        ),
    decreases upto,
{
    if count < upto {
        lemma_binding_problem_stays(records, root, entries, count, (upto - 1) as nat);
    }
}

proof fn lemma_bindings_prefix(directories: Directories, keys: Seq<FileId>, count: nat)
    requires
        count <= keys.len(),
    ensures
        bindings(directories, keys.take(count as int)).len() <= bindings(directories, keys).len(),
        bindings(directories, keys).take(
            bindings(directories, keys.take(count as int)).len() as int,
        ) == bindings(directories, keys.take(count as int)),
    decreases keys.len(),
{
    if count == keys.len() {
        assert(keys.take(count as int) =~= keys);
        let all = bindings(directories, keys);
        assert(all.take(all.len() as int) =~= all);
    } else {
        let shorter = keys.drop_last();
        lemma_bindings_prefix(directories, shorter, count);
        assert(shorter.take(count as int) =~= keys.take(count as int));
        let part = bindings(directories, keys.take(count as int));
        let all = bindings(directories, keys);
        assert(all.take(part.len() as int) =~= bindings(directories, shorter).take(
            part.len() as int,
        ));
    }
}

proof fn lemma_record_problem_stays(
    records: Records,
    keys: Seq<FileId>,
    root: FileId,
    entries: Seq<TreeEntryView>,
    count: nat,
    upto: nat,
)
    requires
        count <= upto,
        record_problem(records, keys, root, entries, count) is Some,
    ensures
        record_problem(records, keys, root, entries, upto) == record_problem(
            records,
            keys,
            root,
            entries,
            count,
        ),
    decreases upto,
{
    if count < upto {
        lemma_record_problem_stays(records, keys, root, entries, count, (upto - 1) as nat);
    }
}

/// Checks every binding, and counts the links.
fn count_links(
    root: FileId,
    records: &OrderedMap<FileId, FileRecord>,
    directories: &OrderedMap<FileId, DirectoryEntries>,
) -> (r: Result<OrderedMap<FileId, Links>, NamespaceError>)
    ensures
        ({
            let entries = bindings(directories@, ascending::<FileId>(directories@.dom()));
            match binding_problem(records@, root, entries, entries.len()) {
                Some(error) => r matches Err(found) && found == error,
                None => r matches Ok(counts) && forall|id: FileId| #[trigger]
                    counted(counts@, id) == links(entries, root, id),
            }
        }),
{
    let mut counts: OrderedMap<FileId, Links> = OrderedMap::new();
    counts.insert(root, Links { count: 1 });
    let ghost keys = ascending::<FileId>(directories@.dom());
    let ghost all = bindings(directories@, keys);
    let ghost mut done = Seq::<TreeEntryView>::empty();
    let size = directories.len();
    let mut i: usize = 0;
    assert(keys.take(0) =~= Seq::<FileId>::empty());
    while i < size
        invariant
            size == keys.len(),
            i <= size,
            keys == ascending::<FileId>(directories@.dom()),
            all == bindings(directories@, keys),
            done == bindings(directories@, keys.take(i as int)),
            binding_problem(records@, root, done, done.len()) is None,
            forall|id: FileId| #[trigger] counted(counts@, id) == links(done, root, id),
        decreases size - i,
    {
        let directory = directories.value_at(i);
        let ghost own = directory@;
        let ghost start = done;
        proof {
            assert(keys.take(i + 1).drop_last() =~= keys.take(i as int));
            lemma_bindings_prefix(directories@, keys, (i + 1) as nat);
            assert(start + own.take(0) =~= start);
        }
        let mut j: usize = 0;
        while j < directory.entries.len()
            invariant
                j <= directory.entries@.len(),
                own == directory@,
                i < size,
                size == keys.len(),
                all == bindings(directories@, keys),
                start + own == bindings(directories@, keys.take(i + 1)),
                (start + own).len() <= all.len(),
                all.take((start + own).len() as int) == start + own,
                done == start + own.take(j as int),
                binding_problem(records@, root, done, done.len()) is None,
                forall|id: FileId| #[trigger] counted(counts@, id) == links(done, root, id),
                keys == ascending::<FileId>(directories@.dom()),
            decreases directory.entries@.len() - j,
        {
            let entry = &directory.entries[j];
            let ghost one = entry@;
            let ghost longer = done.push(one);
            proof {
                assert(own[j as int] == one);
                assert(start + own.take(j + 1) =~= longer);
                let rest = all.skip(longer.len() as int);
                assert(all =~= longer + rest) by {
                    assert(all.take(longer.len() as int) =~= (start + own).take(
                        longer.len() as int,
                    ));
                    assert((start + own).take(longer.len() as int) =~= longer);
                }
                lemma_binding_problem_prefix(records@, root, longer, rest, longer.len());
                lemma_binding_problem_prefix(records@, root, done, seq![one], done.len());
                assert(done + seq![one] =~= longer);
                assert(longer.take(longer.len() - 1) =~= done);
                if binding_problem(records@, root, longer, longer.len()) is Some {
                    lemma_binding_problem_stays(records@, root, all, longer.len(), all.len());
                }
            }
            let id = entry.file_id;
            let record = match records.get(&id) {
                Some(record) => record,
                None => {
                    return Err(NamespaceError::MissingFileRecord(id));
                },
            };
            if record.kind != entry.kind {
                return Err(NamespaceError::NamespaceKindMismatch(id));
            }
            let prior: u64 = match counts.get(&id) {
                Some(links) => links.count,
                None => 0,
            };
            assert(prior == counted(counts@, id));
            if prior == u64::MAX {
                return Err(NamespaceError::RangeOverflow);
            }
            let ghost before = counts@;
            counts.insert(id, Links { count: prior + 1 });
            proof {
                assert forall|other: FileId| #[trigger] counted(counts@, other) == links(
                    longer,
                    root,
                    other,
                ) by {
                    lemma_references_push(done, one, other);
                    assert(counted(before, other) == links(done, root, other));
                }
                done = longer;
            }
            j = j + 1;
        }
        proof {
            assert(own.take(j as int) =~= own);
        }
        i = i + 1;
    }
    proof {
        assert(keys.take(i as int) =~= keys);
    }
    Ok(counts)
}

/// Checks every record against the links counted.
fn check_records(
    root: FileId,
    records: &OrderedMap<FileId, FileRecord>,
    counts: &OrderedMap<FileId, Links>,
    Ghost(entries): Ghost<Seq<TreeEntryView>>,
) -> (r: Result<(), NamespaceError>)
    requires
        forall|id: FileId| #[trigger] counted(counts@, id) == links(entries, root, id),
    ensures
        ({
            let keys = ascending::<FileId>(records@.dom());
            match record_problem(records@, keys, root, entries, keys.len()) {
                Some(error) => r matches Err(found) && found == error,
                None => r is Ok,
            }
        }),
{
    let ghost keys = ascending::<FileId>(records@.dom());
    let size = records.len();
    let mut i: usize = 0;
    while i < size
        invariant
            size == keys.len(),
            i <= size,
            keys == ascending::<FileId>(records@.dom()),
            record_problem(records@, keys, root, entries, i as nat) is None,
            forall|id: FileId| #[trigger] counted(counts@, id) == links(entries, root, id),
        decreases size - i,
    {
        let id = *records.key_at(i);
        let record = records.value_at(i);
        let held: u64 = match counts.get(&id) {
            Some(links) => links.count,
            None => 0,
        };
        assert(held == counted(counts@, id));
        proof {
            if record_problem(records@, keys, root, entries, (i + 1) as nat) is Some {
                lemma_record_problem_stays(
                    records@,
                    keys,
                    root,
                    entries,
                    (i + 1) as nat,
                    keys.len(),
                );
            }
        }
        if held != record.link_count {
            return Err(NamespaceError::LinkCountMismatch(id));
        }
        let directory = match record.payload {
            FilePayload::Directory { .. } => true,
            _ => false,
        };
        if directory && record.link_count != 1 {
            return Err(NamespaceError::DirectoryHardLink(id));
        }
        i = i + 1;
    }
    Ok(())
}

/// Walks every directory from the root.
fn walk_directories(root: FileId, directories: &OrderedMap<FileId, DirectoryEntries>) -> (r: Result<
    OrderedSet<FileId>,
    NamespaceError,
>)
    ensures
        match walked(directories@, seq![root], Set::empty(), Set::empty()) {
            Ok(reachable) => r matches Ok(found) && found@ == reachable,
            Err(error) => r matches Err(found) && found == error,
        },
{
    let size = directories.len();
    let mut pending: Vec<FileId> = Vec::new();
    pending.push(root);
    let mut seen: OrderedSet<FileId> = OrderedSet::new();
    let mut reachable: OrderedSet<FileId> = OrderedSet::new();
    let ghost first = walked(directories@, seq![root], Set::empty(), Set::empty());
    assert(pending@ =~= seq![root]);
    while pending.len() > 0
        invariant
            directories@.dom().finite(),
            first == walked(directories@, seq![root], Set::empty(), Set::empty()),
            first == walked(directories@, pending@, seen@, reachable@),
        decreases directories@.dom().difference(seen@).len(),
    {
        let ghost waiting = pending@;
        let id = match pending.pop() {
            Some(id) => id,
            None => {
                return Ok(reachable);
            },
        };
        if seen.contains(&id) {
            return Err(NamespaceError::DirectoryHardLink(id));
        }
        let directory = match directories.get(&id) {
            Some(directory) => directory,
            None => {
                return Err(NamespaceError::MissingDirectoryTree(id));
            },
        };
        proof {
            lemma_one_less(directories@.dom(), seen@, id);
        }
        seen.insert(id);
        reachable.insert(id);
        let ghost base = pending@;
        let ghost own = directory@;
        let ghost reached = reachable@;
        let mut j: usize = 0;
        proof {
            assert(own.take(0) =~= Seq::<TreeEntryView>::empty());
            assert(base + Seq::<FileId>::empty() =~= base);
            assert(reached.union(files_of(own.take(0))) =~= reached);
        }
        while j < directory.entries.len()
            invariant
                j <= directory.entries@.len(),
                own == directory@,
                pending@ == base + subdirectories(directories@, own.take(j as int)),
                reachable@ == reached.union(files_of(own.take(j as int))),
            decreases directory.entries@.len() - j,
        {
            let file = directory.entries[j].file_id;
            proof {
                assert(own[j as int].file_id == file);
                assert(own.take(j + 1).drop_last() =~= own.take(j as int));
                assert(own.take(j + 1).last() == own[j as int]);
                assert(files_of(own.take(j + 1)) =~= files_of(own.take(j as int)).insert(file)) by {
                    let longer = own.take(j + 1);
                    let shorter = own.take(j as int);
                    assert forall|other: FileId| files_of(longer).contains(other) == files_of(
                        shorter,
                    ).insert(file).contains(other) by {
                        if files_of(shorter).contains(other) {
                            let i = choose|i: int|
                                0 <= i < shorter.len() && (#[trigger] shorter[i]).file_id == other;
                            assert(longer[i] == shorter[i]);
                        }
                        if files_of(longer).contains(other) && other != file {
                            let i = choose|i: int|
                                0 <= i < longer.len() && (#[trigger] longer[i]).file_id == other;
                            assert(shorter[i] == longer[i]);
                        }
                        assert(longer[j as int].file_id == file);
                    }
                }
            }
            let ghost earlier = pending@;
            let ghost before = reachable@;
            reachable.insert(file);
            if directories.contains_key(&file) {
                pending.push(file);
            }
            proof {
                assert(pending@ =~= base + subdirectories(directories@, own.take(j + 1)));
                assert(reachable@ =~= reached.union(files_of(own.take(j + 1))));
            }
            j = j + 1;
        }
        proof {
            assert(own.take(j as int) =~= own);
        }
    }
    Ok(reachable)
}

/// Checks that every binding leads to a record of its kind, that every record has
/// exactly its links, that no directory is bound twice, and that every record can
/// be reached from the root.
pub fn validate_namespace(
    root: FileId,
    records: &OrderedMap<FileId, FileRecord>,
    directories: &OrderedMap<FileId, DirectoryEntries>,
) -> (r: Result<(), NamespaceError>)
    ensures
        match namespace_problem(root, records@, directories@) {
            Some(error) => r matches Err(found) && found == error,
            None => r is Ok,
        },
{
    let ghost entries = bindings(directories@, ascending::<FileId>(directories@.dom()));
    let counts = match count_links(root, records, directories) {
        Ok(counts) => counts,
        Err(error) => {
            return Err(error);
        },
    };
    if let Err(error) = check_records(root, records, &counts, Ghost(entries)) {
        return Err(error);
    }
    let reachable = match walk_directories(root, directories) {
        Ok(reachable) => reachable,
        Err(error) => {
            return Err(error);
        },
    };
    if reachable.len() != records.len() {
        return Err(NamespaceError::UnreachableFileRecords);
    }
    Ok(())
}

/// Whether each file of a path is bound in the directory before it.
pub open spec fn is_path(directories: Directories, path: Seq<FileId>) -> bool {
    forall|k: int|
        0 < k < path.len() ==> directories.dom().contains(path[k - 1]) && files_of(
            directories[path[k - 1]],
        ).contains(#[trigger] path[k])
}

/// Whether a file can be reached from a directory by following bindings.
pub open spec fn reached(directories: Directories, root: FileId, id: FileId) -> bool {
    exists|path: Seq<FileId>| #[trigger]
        is_path(directories, path) && path.len() > 0 && path[0] == root && path.last() == id
}

proof fn lemma_reached_on(directories: Directories, root: FileId, id: FileId, next: FileId)
    requires
        reached(directories, root, id),
        directories.dom().contains(id),
        files_of(directories[id]).contains(next),
    ensures
        reached(directories, root, next),
{
    let path = choose|path: Seq<FileId>| #[trigger]
        is_path(directories, path) && path.len() > 0 && path[0] == root && path.last() == id;
    let longer = path.push(next);
    assert(is_path(directories, longer)) by {
        assert forall|k: int| 0 < k < longer.len() implies directories.dom().contains(longer[k - 1])
            && files_of(directories[longer[k - 1]]).contains(#[trigger] longer[k]) by {
            if k < path.len() {
                assert(longer[k] == path[k] && longer[k - 1] == path[k - 1]);
            } else {
                assert(longer[k - 1] == path.last());
            }
        }
    }
    assert(longer[0] == root && longer.last() == next);
}

proof fn lemma_subdirectories_bound(directories: Directories, entries: Seq<TreeEntryView>)
    ensures
        forall|i: int|
            0 <= i < subdirectories(directories, entries).len() ==> files_of(entries).contains(
                #[trigger] subdirectories(directories, entries)[i],
            ),
    decreases entries.len(),
{
    if entries.len() > 0 {
        let shorter = entries.drop_last();
        lemma_subdirectories_bound(directories, shorter);
        let found = subdirectories(directories, entries);
        assert forall|i: int| 0 <= i < found.len() implies files_of(entries).contains(
            #[trigger] found[i],
        ) by {
            let before = subdirectories(directories, shorter);
            if i < before.len() {
                assert(found[i] == before[i]);
                let j = choose|j: int|
                    0 <= j < shorter.len() && (#[trigger] shorter[j]).file_id == found[i];
                assert(entries[j] == shorter[j]);
            } else {
                assert(entries[entries.len() - 1].file_id == found[i]);
            }
        }
    }
}

proof fn lemma_walk_reaches(
    directories: Directories,
    root: FileId,
    pending: Seq<FileId>,
    seen: Set<FileId>,
    reachable: Set<FileId>,
)
    requires
        directories.dom().finite(),
        forall|i: int| 0 <= i < pending.len() ==> reached(directories, root, #[trigger] pending[i]),
        forall|id: FileId| #[trigger] reachable.contains(id) ==> reached(directories, root, id),
    ensures
        walked(directories, pending, seen, reachable) matches Ok(all) ==> forall|id: FileId|
            #[trigger] all.contains(id) ==> reached(directories, root, id),
    decreases directories.dom().difference(seen).len(),
{
    if pending.len() > 0 {
        let id = pending.last();
        if !seen.contains(id) && directories.dom().contains(id) {
            lemma_one_less(directories.dom(), seen, id);
            let entries = directories[id];
            let next = pending.drop_last() + subdirectories(directories, entries);
            let more = reachable.insert(id).union(files_of(entries));
            assert(pending[pending.len() - 1] == id);
            lemma_subdirectories_bound(directories, entries);
            assert forall|i: int| 0 <= i < next.len() implies reached(
                directories,
                root,
                #[trigger] next[i],
            ) by {
                if i < pending.len() - 1 {
                    assert(next[i] == pending[i]);
                } else {
                    let file = subdirectories(directories, entries)[i - (pending.len() - 1)];
                    lemma_reached_on(directories, root, id, file);
                }
            }
            assert forall|file: FileId| #[trigger] more.contains(file) implies reached(
                directories,
                root,
                file,
            ) by {
                if files_of(entries).contains(file) {
                    lemma_reached_on(directories, root, id, file);
                }
            }
            lemma_walk_reaches(directories, root, next, seen.insert(id), more);
        }
    }
}

proof fn lemma_bound_files_have_records(
    records: Records,
    root: FileId,
    entries: Seq<TreeEntryView>,
    count: nat,
)
    requires
        count <= entries.len(),
        binding_problem(records, root, entries, count) is None,
    ensures
        forall|i: int|
            0 <= i < count ==> records.dom().contains((#[trigger] entries[i]).file_id)
                && records[entries[i].file_id].kind == entries[i].kind,
    decreases count,
{
    if count > 0 {
        lemma_bound_files_have_records(records, root, entries, (count - 1) as nat);
    }
}

proof fn lemma_bindings_complete(directories: Directories, keys: Seq<FileId>, key: FileId)
    requires
        keys.contains(key),
    ensures
        forall|i: int|
            0 <= i < directories[key].len() ==> bindings(directories, keys).contains(
                #[trigger] directories[key][i],
            ),
    decreases keys.len(),
{
    let shorter = bindings(directories, keys.drop_last());
    let own = directories[keys.last()];
    let all = bindings(directories, keys);
    assert forall|i: int| 0 <= i < directories[key].len() implies all.contains(
        #[trigger] directories[key][i],
    ) by {
        if keys.last() == key {
            assert(all[shorter.len() + i] == own[i]);
        } else {
            let at = keys.index_of(key);
            assert(keys.drop_last()[at] == key);
            lemma_bindings_complete(directories, keys.drop_last(), key);
            let j = shorter.index_of(directories[key][i]);
            assert(all[j] == shorter[j]);
        }
    }
}

pub(crate) proof fn lemma_walk_stays(
    directories: Directories,
    pending: Seq<FileId>,
    seen: Set<FileId>,
    reachable: Set<FileId>,
    allowed: Set<FileId>,
)
    requires
        directories.dom().finite(),
        reachable.subset_of(allowed),
        forall|i: int| 0 <= i < pending.len() ==> allowed.contains(#[trigger] pending[i]),
        forall|key: FileId|
            directories.dom().contains(key) ==> #[trigger] files_of(directories[key]).subset_of(
                allowed,
            ),
    ensures
        walked(directories, pending, seen, reachable) matches Ok(all) ==> all.subset_of(allowed),
    decreases directories.dom().difference(seen).len(),
{
    if pending.len() > 0 {
        let id = pending.last();
        if !seen.contains(id) && directories.dom().contains(id) {
            lemma_one_less(directories.dom(), seen, id);
            let entries = directories[id];
            let next = pending.drop_last() + subdirectories(directories, entries);
            let more = reachable.insert(id).union(files_of(entries));
            assert(pending[pending.len() - 1] == id);
            lemma_subdirectories_bound(directories, entries);
            assert(files_of(entries).subset_of(allowed));
            assert forall|i: int| 0 <= i < next.len() implies allowed.contains(
                #[trigger] next[i],
            ) by {
                if i < pending.len() - 1 {
                    assert(next[i] == pending[i]);
                } else {
                    assert(files_of(entries).contains(
                        subdirectories(directories, entries)[i - (pending.len() - 1)],
                    ));
                }
            }
            assert(more.subset_of(allowed));
            lemma_walk_stays(directories, next, seen.insert(id), more, allowed);
        }
    }
}

/// In a namespace that agrees with its records, every record can be reached from
/// the root by following bindings, and every binding leads to a record of its kind.
pub proof fn every_record_is_reachable(
    root: FileId,
    records: Records,
    directories: Directories,
)
    requires
        namespace_problem(root, records, directories) is None,
        records.dom().contains(root),
        records.dom().finite(),
        directories.dom().finite(),
        enumerates::<FileId>(ascending::<FileId>(directories.dom()), directories.dom()),
    ensures
        forall|id: FileId| #[trigger] records.dom().contains(id) ==> reached(directories, root, id),
        forall|key: FileId, i: int|
            directories.dom().contains(key) && 0 <= i < directories[key].len()
                ==> records.dom().contains((#[trigger] directories[key][i]).file_id)
                && records[directories[key][i].file_id].kind == directories[key][i].kind,
{
    let keys = ascending::<FileId>(directories.dom());
    let entries = bindings(directories, keys);
    lemma_bound_files_have_records(records, root, entries, entries.len());
    assert forall|key: FileId, i: int|
        directories.dom().contains(key) && 0 <= i
            < directories[key].len() implies records.dom().contains(
        (#[trigger] directories[key][i]).file_id,
    ) && records[directories[key][i].file_id].kind == directories[key][i].kind by {
        assert(keys.contains(key));
        lemma_bindings_complete(directories, keys, key);
        let j = entries.index_of(directories[key][i]);
        assert(entries[j] == directories[key][i]);
    }
    let none = Set::<FileId>::empty();
    let path = seq![root];
    assert(is_path(directories, path));
    assert(path[0] == root && path.last() == root);
    assert forall|key: FileId| directories.dom().contains(key) implies #[trigger] files_of(
        directories[key],
    ).subset_of(records.dom()) by {
        assert forall|file: FileId| files_of(directories[key]).contains(
            file,
        ) implies records.dom().contains(file) by {
            let i = choose|i: int|
                0 <= i < directories[key].len() && (#[trigger] directories[key][i]).file_id == file;
            assert(records.dom().contains(directories[key][i].file_id));
        }
    }
    lemma_walk_reaches(directories, root, seq![root], none, none);
    lemma_walk_stays(directories, seq![root], none, none, records.dom());
    let all = walked(directories, seq![root], none, none)->Ok_0;
    vstd::set_lib::lemma_subset_equality(all, records.dom());
}

} // verus!
