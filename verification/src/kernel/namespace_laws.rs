//! What the consistency of a namespace means.

use super::namespace::{
    binding_problem, bindings, every_record_is_reachable, files_of, is_path, lemma_one_less,
    lemma_walk_stays, links, namespace_problem, reached, record_problem, references,
    subdirectories, walked, Directories, NamespaceError, Records, TreeEntryView,
};
use crate::foundation::FileId;
use crate::order::{ascending, enumerates};
use vstd::prelude::*;

verus! {

/// The places at which a file is bound: a directory, and an index among its bindings.
pub open spec fn places(directories: Directories, id: FileId) -> Set<(FileId, int)> {
    Set::new(
        |place: (FileId, int)|
            directories.dom().contains(place.0) && 0 <= place.1 < directories[place.0].len()
                && directories[place.0][place.1].file_id == id,
    )
}

/// The links that a file should have: one for each place at which it is bound, and one
/// more for the root.
pub open spec fn expected_links(root: FileId, directories: Directories, id: FileId) -> nat {
    places(directories, id).len() + (if id == root {
        1nat
    } else {
        0nat
    })
}

/// Whether a binding leads to a record of its kind.
pub open spec fn leads_to_record(records: Records, entry: TreeEntryView) -> bool {
    records.dom().contains(entry.file_id) && records[entry.file_id].kind == entry.kind
}

/// Whether the directories are those among the records.
pub open spec fn are_the_directories(records: Records, directories: Directories) -> bool {
    forall|id: FileId| #[trigger]
        directories.dom().contains(id) == (records.dom().contains(id)
            && records[id].payload is Directory)
}

/// Whether a namespace agrees with its records: every binding leads to a record of its
/// kind, every record has as many links as it is bound, every directory has one, and every
/// record is reached from the root.
pub open spec fn consistent(root: FileId, records: Records, directories: Directories) -> bool {
    &&& forall|key: FileId, i: int|
        directories.dom().contains(key) && 0 <= i < directories[key].len() ==> leads_to_record(
            records,
            #[trigger] directories[key][i],
        )
    &&& forall|id: FileId| #[trigger]
        records.dom().contains(id) ==> records[id].link_count == expected_links(
            root,
            directories,
            id,
        ) && (records[id].payload is Directory ==> records[id].link_count == 1) && reached(
            directories,
            root,
            id,
        )
}

/// The places of a file among the first bindings of one directory.
spec fn places_within(
    key: FileId,
    entries: Seq<TreeEntryView>,
    id: FileId,
    count: nat,
) -> Set<(FileId, int)> {
    Set::new(
        |place: (FileId, int)|
            place.0 == key && 0 <= place.1 < count && entries[place.1].file_id == id,
    )
}

proof fn lemma_places_within(key: FileId, entries: Seq<TreeEntryView>, id: FileId, count: nat)
    requires
        count <= entries.len(),
    ensures
        places_within(key, entries, id, count).finite(),
        places_within(key, entries, id, count).len() == references(
            entries.take(count as int),
            id,
        ),
    decreases count,
{
    let whole = places_within(key, entries, id, count);
    if count == 0 {
        assert(whole =~= Set::empty());
    } else {
        let front = places_within(key, entries, id, (count - 1) as nat);
        lemma_places_within(key, entries, id, (count - 1) as nat);
        assert(entries.take(count as int).drop_last() =~= entries.take(count - 1));
        assert(entries.take(count as int).last() == entries[count - 1]);
        if entries[count - 1].file_id == id {
            assert(whole =~= front.insert((key, count - 1)));
            assert(!front.contains((key, count - 1)));
        } else {
            assert(whole =~= front);
        }
    }
}

/// The places of a file among the bindings of some directories.
spec fn places_among(
    directories: Directories,
    keys: Seq<FileId>,
    id: FileId,
) -> Set<(FileId, int)> {
    Set::new(
        |place: (FileId, int)|
            keys.contains(place.0) && 0 <= place.1 < directories[place.0].len()
                && directories[place.0][place.1].file_id == id,
    )
}

proof fn lemma_references_join(a: Seq<TreeEntryView>, b: Seq<TreeEntryView>, id: FileId)
    ensures
        references(a + b, id) == references(a, id) + references(b, id),
    decreases b.len(),
{
    if b.len() == 0 {
        assert(a + b =~= a);
    } else {
        lemma_references_join(a, b.drop_last(), id);
        assert((a + b).drop_last() =~= a + b.drop_last());
    }
}

proof fn lemma_places_among(directories: Directories, keys: Seq<FileId>, id: FileId)
    requires
        keys.no_duplicates(),
    ensures
        places_among(directories, keys, id).finite(),
        places_among(directories, keys, id).len() == references(bindings(directories, keys), id),
    decreases keys.len(),
{
    let whole = places_among(directories, keys, id);
    if keys.len() == 0 {
        assert(whole =~= Set::empty());
    } else {
        let front = keys.drop_last();
        let key = keys.last();
        let entries = directories[key];
        lemma_places_among(directories, front, id);
        lemma_places_within(key, entries, id, entries.len());
        assert(entries.take(entries.len() as int) =~= entries);
        let earlier = places_among(directories, front, id);
        let own = places_within(key, entries, id, entries.len());
        assert(!front.contains(key)) by {
            if front.contains(key) {
                let i = front.index_of(key);
                assert(keys[i] == keys[keys.len() - 1]);
            }
        }
        assert(whole =~= earlier.union(own)) by {
            assert forall|place: (FileId, int)| whole.contains(place) == earlier.union(
                own,
            ).contains(place) by {
                if keys.contains(place.0) {
                    let i = keys.index_of(place.0);
                    if i < front.len() {
                        assert(front[i] == place.0);
                    }
                }
                if front.contains(place.0) {
                    let i = front.index_of(place.0);
                    assert(keys[i] == place.0);
                }
                assert(keys[keys.len() - 1] == key);
            }
        }
        assert(earlier.disjoint(own));
        vstd::set_lib::lemma_set_disjoint_lens(earlier, own);
        lemma_references_join(bindings(directories, front), entries, id);
    }
}

/// The links that are counted are those that a file should have.
proof fn lemma_links(root: FileId, directories: Directories, id: FileId)
    requires
        enumerates::<FileId>(ascending::<FileId>(directories.dom()), directories.dom()),
    ensures
        places(directories, id).finite(),
        links(bindings(directories, ascending::<FileId>(directories.dom())), root, id)
            == expected_links(root, directories, id),
{
    let keys = ascending::<FileId>(directories.dom());
    lemma_places_among(directories, keys, id);
    assert forall|key: FileId| keys.contains(key) == directories.dom().contains(key) by {
        assert(keys.to_set().contains(key) == keys.contains(key));
    }
    assert(places_among(directories, keys, id) =~= places(directories, id));
}

proof fn lemma_binding_found(directories: Directories, keys: Seq<FileId>, at: int) -> (place: (
    FileId,
    int,
))
    requires
        0 <= at < bindings(directories, keys).len(),
    ensures
        keys.contains(place.0),
        0 <= place.1 < directories[place.0].len(),
        directories[place.0][place.1] == bindings(directories, keys)[at],
    decreases keys.len(),
{
    let front = keys.drop_last();
    let before = bindings(directories, front);
    if at < before.len() {
        let place = lemma_binding_found(directories, front, at);
        let i = front.index_of(place.0);
        assert(keys[i] == place.0);
        place
    } else {
        assert(keys[keys.len() - 1] == keys.last());
        (keys.last(), at - before.len())
    }
}

proof fn lemma_references_part(entries: Seq<TreeEntryView>, count: nat, id: FileId)
    requires
        count < entries.len(),
        entries[count as int].file_id == id,
    ensures
        references(entries.take(count as int), id) + 1 <= references(entries, id),
{
    let front = entries.take(count as int);
    let rest = entries.skip(count as int);
    assert(entries =~= front + rest);
    lemma_references_join(front, rest, id);
    let one = rest.take(1);
    let more = rest.skip(1);
    assert(rest =~= one + more);
    lemma_references_join(one, more, id);
    assert(one.drop_last() =~= Seq::<TreeEntryView>::empty());
    assert(references(one, id) == references(one.drop_last(), id) + 1);
}

proof fn lemma_no_binding_problem(
    records: Records,
    root: FileId,
    entries: Seq<TreeEntryView>,
    count: nat,
)
    requires
        count <= entries.len(),
        forall|i: int| 0 <= i < entries.len() ==> leads_to_record(records, #[trigger] entries[i]),
        forall|i: int|
            0 <= i < entries.len() ==> links(entries, root, (#[trigger] entries[i]).file_id)
                <= u64::MAX,
    ensures
        binding_problem(records, root, entries, count) is None,
    decreases count,
{
    if count > 0 {
        lemma_no_binding_problem(records, root, entries, (count - 1) as nat);
        let entry = entries[count - 1];
        assert(leads_to_record(records, entries[count - 1]));
        lemma_references_part(entries, (count - 1) as nat, entry.file_id);
        assert(links(entries, root, entries[count - 1].file_id) <= u64::MAX);
    }
}

proof fn lemma_no_record_problem(
    records: Records,
    keys: Seq<FileId>,
    root: FileId,
    entries: Seq<TreeEntryView>,
    count: nat,
)
    requires
        count <= keys.len(),
        forall|i: int|
            0 <= i < keys.len() ==> links(entries, root, #[trigger] keys[i])
                == records[keys[i]].link_count && (records[keys[i]].payload is Directory
                ==> records[keys[i]].link_count == 1),
    ensures
        record_problem(records, keys, root, entries, count) is None,
    decreases count,
{
    if count > 0 {
        lemma_no_record_problem(records, keys, root, entries, (count - 1) as nat);
        assert(links(entries, root, keys[count - 1]) == records[keys[count - 1]].link_count);
    }
}

/// Where the subdirectories of a directory stand among its bindings.
proof fn lemma_subdirectories(directories: Directories, entries: Seq<TreeEntryView>) -> (at: Seq<
    int,
>)
    ensures
        at.len() == subdirectories(directories, entries).len(),
        forall|k: int|
            0 <= k < at.len() ==> 0 <= #[trigger] at[k] < entries.len() && entries[at[k]].file_id
                == subdirectories(directories, entries)[k] && directories.dom().contains(
                entries[at[k]].file_id,
            ),
        forall|j: int, k: int| 0 <= j < k < at.len() ==> #[trigger] at[j] < #[trigger] at[k],
        forall|i: int|
            0 <= i < entries.len() && directories.dom().contains((#[trigger] entries[i]).file_id)
                ==> subdirectories(directories, entries).contains(entries[i].file_id),
    decreases entries.len(),
{
    if entries.len() == 0 {
        Seq::empty()
    } else {
        let front = entries.drop_last();
        let before = lemma_subdirectories(directories, front);
        let found = subdirectories(directories, entries);
        let earlier = subdirectories(directories, front);
        let last = entries.last().file_id;
        let at = if directories.dom().contains(last) {
            before.push(entries.len() - 1)
        } else {
            before
        };
        assert forall|k: int| 0 <= k < at.len() implies 0 <= #[trigger] at[k] < entries.len()
            && entries[at[k]].file_id == found[k] && directories.dom().contains(
            entries[at[k]].file_id,
        ) by {
            if k < before.len() {
                assert(at[k] == before[k]);
                assert(front[before[k]] == entries[before[k]]);
            }
        }
        assert forall|j: int, k: int| 0 <= j < k < at.len() implies #[trigger] at[j]
            < #[trigger] at[k] by {
            assert(at[j] == before[j]);
            if k < before.len() {
                assert(at[k] == before[k]);
            }
        }
        assert forall|i: int|
            0 <= i < entries.len() && directories.dom().contains(
                (#[trigger] entries[i]).file_id,
            ) implies found.contains(entries[i].file_id) by {
            if i < front.len() {
                assert(front[i] == entries[i]);
                let k = earlier.index_of(front[i].file_id);
                assert(found[k] == earlier[k]);
            } else {
                assert(found[earlier.len() as int] == last);
            }
        }
        at
    }
}

/// Whether every directory is bound at most once, and the root nowhere.
spec fn bound_once(root: FileId, directories: Directories) -> bool {
    &&& forall|place: (FileId, int)| !#[trigger] places(directories, root).contains(place)
    &&& forall|id: FileId, a: (FileId, int), b: (FileId, int)|
        directories.dom().contains(id) && #[trigger] places(directories, id).contains(a)
            && #[trigger] places(directories, id).contains(b) ==> a == b
}

/// Whether a directory is the root or bound in one that was seen.
spec fn bound_in(
    root: FileId,
    directories: Directories,
    seen: Set<FileId>,
    id: FileId,
) -> bool {
    id == root || exists|place: (FileId, int)| #[trigger]
        places(directories, id).contains(place) && seen.contains(place.0)
}

/// Whether a walk is on its way: what waits was not seen and waits once, everything waits
/// or was seen for a binding in what was seen, and what was seen is complete.
spec fn underway(
    root: FileId,
    directories: Directories,
    pending: Seq<FileId>,
    seen: Set<FileId>,
    reachable: Set<FileId>,
) -> bool {
    &&& pending.no_duplicates()
    &&& forall|i: int|
        0 <= i < pending.len() ==> directories.dom().contains(#[trigger] pending[i])
            && !seen.contains(pending[i]) && bound_in(root, directories, seen, pending[i])
    &&& forall|id: FileId| #[trigger]
        seen.contains(id) ==> directories.dom().contains(id) && reachable.contains(id) && bound_in(
            root,
            directories,
            seen,
            id,
        )
    &&& forall|id: FileId, i: int|
        seen.contains(id) && 0 <= i < directories[id].len() ==> ({
            let file = (#[trigger] directories[id][i]).file_id;
            reachable.contains(file) && (directories.dom().contains(file) ==> seen.contains(file)
                || pending.contains(file))
        })
    &&& seen.contains(root) || pending.contains(root)
}

proof fn lemma_path_walked(
    root: FileId,
    directories: Directories,
    seen: Set<FileId>,
    reachable: Set<FileId>,
    path: Seq<FileId>,
    k: int,
)
    requires
        underway(root, directories, Seq::empty(), seen, reachable),
        is_path(directories, path),
        0 <= k < path.len(),
        path[0] == root,
    ensures
        reachable.contains(path[k]),
        directories.dom().contains(path[k]) ==> seen.contains(path[k]),
    decreases k,
{
    if k > 0 {
        lemma_path_walked(root, directories, seen, reachable, path, k - 1);
        let id = path[k - 1];
        assert(files_of(directories[path[k - 1]]).contains(path[k]));
        let i = choose|i: int|
            0 <= i < directories[id].len() && (#[trigger] directories[id][i]).file_id == path[k];
        assert(directories[id][i].file_id == path[k]);
    }
}

/// A walk on its way comes to everything that is reached.
proof fn lemma_walk_completes(
    root: FileId,
    directories: Directories,
    pending: Seq<FileId>,
    seen: Set<FileId>,
    reachable: Set<FileId>,
)
    requires
        directories.dom().finite(),
        bound_once(root, directories),
        underway(root, directories, pending, seen, reachable),
    ensures
        walked(directories, pending, seen, reachable) matches Ok(all) && forall|id: FileId|
            #[trigger] reached(directories, root, id) ==> all.contains(id),
    decreases directories.dom().difference(seen).len(),
{
    if pending.len() == 0 {
        assert(pending =~= Seq::empty());
        assert forall|id: FileId| #[trigger] reached(
            directories,
            root,
            id,
        ) implies reachable.contains(id) by {
            let path = choose|path: Seq<FileId>| #[trigger]
                is_path(directories, path) && path.len() > 0 && path[0] == root && path.last()
                    == id;
            lemma_path_walked(root, directories, seen, reachable, path, path.len() - 1);
        }
    } else {
        let id = pending.last();
        assert(id == pending[pending.len() - 1]);
        lemma_one_less(directories.dom(), seen, id);
        let entries = directories[id];
        let below = subdirectories(directories, entries);
        let at = lemma_subdirectories(directories, entries);
        let rest = pending.drop_last();
        let next = rest + below;
        let more = seen.insert(id);
        let known = reachable.insert(id).union(files_of(entries));
        assert forall|k: int| 0 <= k < below.len() implies directories.dom().contains(
            #[trigger] below[k],
        ) && !more.contains(below[k]) && !pending.contains(below[k]) && places(
            directories,
            below[k],
        ).contains((id, at[k])) by {
            let child = below[k];
            let here = (id, at[k]);
            assert(0 <= at[k] < entries.len());
            assert(places(directories, child).contains(here));
            assert(child != root);
            if seen.contains(child) || pending.contains(child) {
                assert(bound_in(root, directories, seen, child)) by {
                    if pending.contains(child) {
                        let i = pending.index_of(child);
                        assert(pending[i] == child);
                    }
                }
                let place = choose|place: (FileId, int)| #[trigger]
                    places(directories, child).contains(place) && seen.contains(place.0);
                assert(place == here);
            }
            if child == id {
                assert(pending.contains(pending[pending.len() - 1]));
            }
        }
        assert(next.no_duplicates()) by {
            assert forall|i: int, j: int| 0 <= i < j < next.len() implies next[i] != next[j] by {
                if j < rest.len() {
                    assert(next[i] == pending[i] && next[j] == pending[j]);
                } else if i < rest.len() {
                    assert(next[i] == pending[i]);
                    assert(next[j] == below[j - rest.len()]);
                    assert(pending.contains(pending[i]));
                } else {
                    let a = i - rest.len();
                    let b = j - rest.len();
                    assert(next[i] == below[a] && next[j] == below[b]);
                    assert(at[a] < at[b]);
                    if below[a] == below[b] {
                        assert(places(directories, below[a]).contains((id, at[a])));
                        assert(places(directories, below[a]).contains((id, at[b])));
                        assert(directories.dom().contains(below[a]));
                        assert((id, at[a]) == (id, at[b]));
                    }
                }
            }
        }
        assert forall|other: FileId| bound_in(root, directories, seen, other) implies bound_in(
            root,
            directories,
            more,
            other,
        ) by {
            if other != root {
                let place = choose|place: (FileId, int)| #[trigger]
                    places(directories, other).contains(place) && seen.contains(place.0);
                assert(more.contains(place.0));
            }
        }
        assert forall|i: int| 0 <= i < next.len() implies directories.dom().contains(
            #[trigger] next[i],
        ) && !more.contains(next[i]) && bound_in(root, directories, more, next[i]) by {
            if i < rest.len() {
                assert(next[i] == pending[i]);
                assert(pending[i] != pending[pending.len() - 1]);
            } else {
                let k = i - rest.len();
                assert(next[i] == below[k]);
                assert(places(directories, below[k]).contains((id, at[k])));
                assert(more.contains(id));
            }
        }
        assert forall|other: FileId, i: int|
            more.contains(other) && 0 <= i < directories[other].len() implies ({
            let file = (#[trigger] directories[other][i]).file_id;
            known.contains(file) && (directories.dom().contains(file) ==> more.contains(file)
                || next.contains(file))
        }) by {
            let file = directories[other][i].file_id;
            if other == id {
                assert(entries[i].file_id == file);
                assert(files_of(entries).contains(file));
                if directories.dom().contains(file) {
                    let k = below.index_of(file);
                    assert(next[rest.len() + k] == file);
                }
            } else {
                assert(seen.contains(other));
                if pending.contains(file) && file != id {
                    let k = pending.index_of(file);
                    assert(next[k] == file);
                }
            }
        }
        assert(more.contains(root) || next.contains(root)) by {
            if pending.contains(root) && root != id {
                let k = pending.index_of(root);
                assert(next[k] == root);
            }
        }
        assert(underway(root, directories, next, more, known));
        lemma_walk_completes(root, directories, next, more, known);
    }
}

proof fn lemma_bound_once(root: FileId, records: Records, directories: Directories)
    requires
        consistent(root, records, directories),
        are_the_directories(records, directories),
        directories.dom().contains(root),
        enumerates::<FileId>(ascending::<FileId>(directories.dom()), directories.dom()),
    ensures
        bound_once(root, directories),
{
    assert forall|place: (FileId, int)| !#[trigger] places(directories, root).contains(place) by {
        lemma_links(root, directories, root);
        assert(records.dom().contains(root));
        if places(directories, root).contains(place) {
            assert(places(directories, root).len() == 0);
        }
    }
    assert forall|id: FileId, a: (FileId, int), b: (FileId, int)|
        directories.dom().contains(id) && #[trigger] places(directories, id).contains(a)
            && #[trigger] places(directories, id).contains(b) implies a == b by {
        lemma_links(root, directories, id);
        assert(records.dom().contains(id));
        let all = places(directories, id);
        if a != b {
            let both = Set::empty().insert(a).insert(b);
            assert(both.subset_of(all));
            vstd::set_lib::lemma_len_subset(both, all);
            assert(both.len() == 2);
        }
    }
}

/// A namespace that agrees with its records is accepted, whatever the number of links of
/// its files.
pub proof fn consistent_namespaces_are_accepted(
    root: FileId,
    records: Records,
    directories: Directories,
)
    requires
        consistent(root, records, directories),
        are_the_directories(records, directories),
        directories.dom().contains(root),
        records.dom().finite(),
        directories.dom().finite(),
        enumerates::<FileId>(ascending::<FileId>(records.dom()), records.dom()),
        enumerates::<FileId>(ascending::<FileId>(directories.dom()), directories.dom()),
    ensures
        namespace_problem(root, records, directories) is None,
{
    let keys = ascending::<FileId>(directories.dom());
    let entries = bindings(directories, keys);
    assert forall|i: int| 0 <= i < entries.len() implies leads_to_record(
        records,
        #[trigger] entries[i],
    ) && links(entries, root, entries[i].file_id) <= u64::MAX by {
        let place = lemma_binding_found(directories, keys, i);
        assert(keys.to_set().contains(place.0));
        assert(leads_to_record(records, directories[place.0][place.1]));
        lemma_links(root, directories, entries[i].file_id);
        assert(records.dom().contains(entries[i].file_id));
    }
    lemma_no_binding_problem(records, root, entries, entries.len());
    let ids = ascending::<FileId>(records.dom());
    assert forall|i: int| 0 <= i < ids.len() implies links(entries, root, #[trigger] ids[i])
        == records[ids[i]].link_count && (records[ids[i]].payload is Directory
        ==> records[ids[i]].link_count == 1) by {
        assert(ids.to_set().contains(ids[i]));
        assert(records.dom().contains(ids[i]));
        lemma_links(root, directories, ids[i]);
    }
    lemma_no_record_problem(records, ids, root, entries, ids.len());
    lemma_bound_once(root, records, directories);
    let none = Set::<FileId>::empty();
    let first = seq![root];
    assert(first.no_duplicates());
    assert(first[0] == root);
    assert(first.contains(root));
    lemma_walk_completes(root, directories, first, none, none);
    let all = walked(directories, first, none, none)->Ok_0;
    assert forall|key: FileId| directories.dom().contains(key) implies #[trigger] files_of(
        directories[key],
    ).subset_of(records.dom()) by {
        assert forall|file: FileId| files_of(directories[key]).contains(
            file,
        ) implies records.dom().contains(file) by {
            let i = choose|i: int|
                0 <= i < directories[key].len() && (#[trigger] directories[key][i]).file_id == file;
            assert(leads_to_record(records, directories[key][i]));
        }
    }
    assert(records.dom().contains(root));
    lemma_walk_stays(directories, first, none, none, records.dom());
    assert(all =~= records.dom()) by {
        assert forall|id: FileId| records.dom().contains(id) implies all.contains(id) by {
            assert(reached(directories, root, id));
        }
    }
}

proof fn lemma_records_agree(
    records: Records,
    keys: Seq<FileId>,
    root: FileId,
    entries: Seq<TreeEntryView>,
    count: nat,
)
    requires
        count <= keys.len(),
        record_problem(records, keys, root, entries, count) is None,
    ensures
        forall|i: int|
            0 <= i < count ==> links(entries, root, #[trigger] keys[i])
                == records[keys[i]].link_count && (records[keys[i]].payload is Directory
                ==> records[keys[i]].link_count == 1),
    decreases count,
{
    if count > 0 {
        lemma_records_agree(records, keys, root, entries, (count - 1) as nat);
    }
}

/// A namespace that is accepted agrees with its records.
pub proof fn accepted_namespaces_are_consistent(
    root: FileId,
    records: Records,
    directories: Directories,
)
    requires
        namespace_problem(root, records, directories) is None,
        records.dom().contains(root),
        records.dom().finite(),
        directories.dom().finite(),
        enumerates::<FileId>(ascending::<FileId>(records.dom()), records.dom()),
        enumerates::<FileId>(ascending::<FileId>(directories.dom()), directories.dom()),
    ensures
        consistent(root, records, directories),
{
    let entries = bindings(directories, ascending::<FileId>(directories.dom()));
    let ids = ascending::<FileId>(records.dom());
    every_record_is_reachable(root, records, directories);
    lemma_records_agree(records, ids, root, entries, ids.len());
    assert forall|id: FileId| #[trigger] records.dom().contains(id) implies records[id].link_count
        == expected_links(root, directories, id) && (records[id].payload is Directory
        ==> records[id].link_count == 1) by {
        assert(ids.to_set().contains(id));
        let i = ids.index_of(id);
        assert(ids[i] == id);
        lemma_links(root, directories, id);
    }
}

proof fn lemma_binding_error(
    records: Records,
    root: FileId,
    entries: Seq<TreeEntryView>,
    count: nat,
) -> (at: int)
    requires
        count <= entries.len(),
        binding_problem(records, root, entries, count) is Some,
    ensures
        0 <= at < count,
        ({
            let id = entries[at].file_id;
            match binding_problem(records, root, entries, count)->0 {
                NamespaceError::MissingFileRecord(found) => found == id
                    && !records.dom().contains(id),
                NamespaceError::NamespaceKindMismatch(found) => found == id
                    && records.dom().contains(id) && records[id].kind != entries[at].kind,
                NamespaceError::RangeOverflow => links(entries, root, id) > u64::MAX,
                _ => false,
            }
        }),
    decreases count,
{
    if binding_problem(records, root, entries, (count - 1) as nat) is Some {
        lemma_binding_error(records, root, entries, (count - 1) as nat)
    } else {
        lemma_references_part(entries, (count - 1) as nat, entries[count - 1].file_id);
        count - 1
    }
}

proof fn lemma_record_error(
    records: Records,
    keys: Seq<FileId>,
    root: FileId,
    entries: Seq<TreeEntryView>,
    count: nat,
) -> (at: int)
    requires
        count <= keys.len(),
        record_problem(records, keys, root, entries, count) is Some,
    ensures
        0 <= at < count,
        match record_problem(records, keys, root, entries, count)->0 {
            NamespaceError::LinkCountMismatch(found) => found == keys[at] && links(
                entries,
                root,
                keys[at],
            ) != records[keys[at]].link_count,
            NamespaceError::DirectoryHardLink(found) => found == keys[at]
                && records[keys[at]].payload is Directory && records[keys[at]].link_count != 1,
            _ => false,
        },
    decreases count,
{
    if record_problem(records, keys, root, entries, (count - 1) as nat) is Some {
        lemma_record_error(records, keys, root, entries, (count - 1) as nat)
    } else {
        count - 1
    }
}

/// What is wrong with a namespace that is refused: a binding to a file leads to no record
/// or to one of another kind, a record has other links than it should, or a directory has
/// more than one.
pub proof fn refused_namespaces_disagree(root: FileId, records: Records, directories: Directories)
    requires
        namespace_problem(root, records, directories) is Some,
        records.dom().finite(),
        directories.dom().finite(),
        enumerates::<FileId>(ascending::<FileId>(records.dom()), records.dom()),
        enumerates::<FileId>(ascending::<FileId>(directories.dom()), directories.dom()),
    ensures
        match namespace_problem(root, records, directories)->0 {
            NamespaceError::MissingFileRecord(id) => !records.dom().contains(id) && exists|
                place: (FileId, int),
            | #[trigger] places(directories, id).contains(place),
            NamespaceError::NamespaceKindMismatch(id) => records.dom().contains(id) && exists|
                place: (FileId, int),
            | #[trigger]
                places(directories, id).contains(place) && directories[place.0][place.1].kind
                    != records[id].kind,
            NamespaceError::LinkCountMismatch(id) => records.dom().contains(id)
                && records[id].link_count != expected_links(root, directories, id),
            NamespaceError::RangeOverflow => exists|id: FileId| #[trigger]
                expected_links(root, directories, id) > u64::MAX,
            _ => true,
        },
{
    let keys = ascending::<FileId>(directories.dom());
    let entries = bindings(directories, keys);
    let ids = ascending::<FileId>(records.dom());
    if binding_problem(records, root, entries, entries.len()) is Some {
        let at = lemma_binding_error(records, root, entries, entries.len());
        let place = lemma_binding_found(directories, keys, at);
        let id = entries[at].file_id;
        assert(keys.to_set().contains(place.0));
        assert(places(directories, id).contains(place));
        lemma_links(root, directories, id);
        assert(links(entries, root, id) == expected_links(root, directories, id));
    } else if record_problem(records, ids, root, entries, ids.len()) is Some {
        let at = lemma_record_error(records, ids, root, entries, ids.len());
        assert(ids.to_set().contains(ids[at]));
        lemma_links(root, directories, ids[at]);
    } else {
        lemma_walk_error(directories, seq![root], Set::empty(), Set::empty());
    }
}

proof fn lemma_walk_error(
    directories: Directories,
    pending: Seq<FileId>,
    seen: Set<FileId>,
    reachable: Set<FileId>,
)
    requires
        directories.dom().finite(),
    ensures
        walked(directories, pending, seen, reachable) matches Err(error) ==> match error {
            NamespaceError::DirectoryHardLink(_) => true,
            NamespaceError::MissingDirectoryTree(id) => !directories.dom().contains(id),
            _ => false,
        },
    decreases directories.dom().difference(seen).len(),
{
    if pending.len() > 0 {
        let id = pending.last();
        if !seen.contains(id) && directories.dom().contains(id) {
            lemma_one_less(directories.dom(), seen, id);
            lemma_walk_error(
                directories,
                pending.drop_last() + subdirectories(directories, directories[id]),
                seen.insert(id),
                reachable.insert(id).union(files_of(directories[id])),
            );
        }
    }
}

} // verus!
