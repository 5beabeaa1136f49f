//! What captures and walks over trees are for.

use super::capture::{
    capture_scanned, carried_catalog, carried_paths, change_path, changes_directory, left_out,
    omitted, outlook, refused, represented, CaptureEntryView, CaptureScanView, Keeping,
    PathChangeView,
};
use super::ignore::{admits, path_admitted, RuleView};
use super::paths::{below, trim_front};
use super::tree::{
    kind_name, page_scanned, page_walked, portable, GitInspectionError, ListedView, RegularView,
    ScanView, TreeEntryView, WalkView,
};
use crate::kernel::name::FileKind;
use crate::text::split_on;
use vstd::prelude::*;
use vstd::string::*;

verus! {

/// Whether a path is another with a slash and something behind it.
pub open spec fn goes_below(path: Seq<char>, directory: Seq<char>) -> bool {
    exists|rest: Seq<char>| #[trigger] (directory.push('/') + rest) == path
}

proof fn lemma_below(path: Seq<char>, directory: Seq<char>)
    ensures
        below(path, directory) == goes_below(path, directory),
{
    if below(path, directory) {
        let rest = path.skip(directory.len() as int + 1);
        assert(path.subrange(0, directory.len() as int) == directory);
        assert(directory.push('/') + rest =~= path) by {
            assert forall|i: int| 0 <= i < directory.len() implies directory[i] == path[i] by {
                assert(path.subrange(0, directory.len() as int)[i] == path[i]);
            }
        }
    }
    if goes_below(path, directory) {
        let rest = choose|rest: Seq<char>| #[trigger] (directory.push('/') + rest) == path;
        assert(path.subrange(0, directory.len() as int) =~= directory);
    }
}

/// Whether an entry may stay by itself: it is tracked already, the rules admit it, or it is
/// a directory above something tracked.
pub open spec fn may_stay(rules: Keeping, entry: CaptureEntryView) -> bool {
    ||| rules.catalog.contains(entry.path)
    ||| path_admitted(rules.root, rules.nested, entry.path, entry.is_directory, false)
    ||| entry.is_directory && exists|known: Seq<char>| #[trigger]
        rules.catalog.contains(known) && goes_below(known, entry.path)
}

/// Whether an entry stays: it may by itself, and so may every directory above it.
pub open spec fn stays(
    rules: Keeping,
    entries: Seq<CaptureEntryView>,
    entry: CaptureEntryView,
) -> bool {
    may_stay(rules, entry) && forall|i: int|
        0 <= i < entries.len() && goes_below(entry.path, (#[trigger] entries[i]).path) ==> may_stay(
            rules,
            entries[i],
        )
}

proof fn lemma_may_stay(rules: Keeping, entry: CaptureEntryView)
    ensures
        refused(rules, entry) == !may_stay(rules, entry),
{
    assert forall|known: Seq<char>| below(known, entry.path) == goes_below(
        known,
        entry.path,
    ) by {
        lemma_below(known, entry.path);
    }
    if may_stay(rules, entry) && !rules.catalog.contains(entry.path) && !path_admitted(
        rules.root,
        rules.nested,
        entry.path,
        entry.is_directory,
        false,
    ) {
        let known = choose|known: Seq<char>| #[trigger]
            rules.catalog.contains(known) && goes_below(known, entry.path);
        assert(below(known, entry.path));
    }
}

proof fn lemma_stays(rules: Keeping, entries: Seq<CaptureEntryView>, entry: CaptureEntryView)
    ensures
        left_out(rules, entries, entry) == !stays(rules, entries, entry),
{
    lemma_may_stay(rules, entry);
    assert forall|i: int| 0 <= i < entries.len() implies refused(rules, #[trigger] entries[i])
        == !may_stay(rules, entries[i]) && below(entry.path, entries[i].path) == goes_below(
        entry.path,
        entries[i].path,
    ) by {
        lemma_may_stay(rules, entries[i]);
        lemma_below(entry.path, entries[i].path);
    }
}

/// A capture removes exactly what does not stay, and tracks exactly the files that do.
pub proof fn captures_keep_exactly_what_stays(
    rules: Keeping,
    entries: Seq<CaptureEntryView>,
    count: nat,
    path: Seq<char>,
)
    requires
        count <= entries.len(),
    ensures
        omitted(rules, entries, count).contains(path) == exists|i: int|
            0 <= i < count && (#[trigger] entries[i]).path == path && !stays(
                rules,
                entries,
                entries[i],
            ),
        represented(rules, entries, count).contains(path) == exists|i: int|
            0 <= i < count && (#[trigger] entries[i]).path == path && !entries[i].is_directory
                && stays(rules, entries, entries[i]),
    decreases count,
{
    let gone = omitted(rules, entries, count);
    if count > 0 {
        let before = omitted(rules, entries, (count - 1) as nat);
        let last = entries[count - 1];
        captures_keep_exactly_what_stays(rules, entries, (count - 1) as nat, path);
        lemma_stays(rules, entries, last);
        if gone.contains(path) {
            let k = gone.index_of(path);
            if k < before.len() {
                assert(before[k] == path);
                assert(before.contains(path));
            } else {
                assert(entries[count - 1].path == path);
            }
        }
        if before.contains(path) {
            let k = before.index_of(path);
            assert(gone[k] == path);
        }
        if !stays(rules, entries, last) {
            assert(gone[before.len() as int] == last.path);
        }
    }
}

/// Whether the last component of a path is a name.
pub open spec fn ends_in(path: Seq<char>, name: Seq<char>) -> bool {
    split_on(path, '/').last() == name
}

/// What a list of changes comes to: the first change whose name is not portable refuses it,
/// unless one of an ignore file comes earlier, for which the whole tree is captured.
/// Otherwise the changes are taken up.
pub proof fn ignore_files_ask_for_a_whole_capture(changes: Seq<PathChangeView>, count: nat)
    requires
        count <= changes.len(),
    ensures
        (outlook(changes, count) is Ordinary) == forall|i: int|
            0 <= i < count ==> change_path(#[trigger] changes[i]) is Some && !ends_in(
                change_path(changes[i])->0,
                ".gitignore"@,
            ),
        (outlook(changes, count) is Exact) == exists|i: int|
            0 <= i < count && change_path(#[trigger] changes[i]) is Some && ends_in(
                change_path(changes[i])->0,
                ".gitignore"@,
            ) && forall|j: int|
                0 <= j < i ==> change_path(#[trigger] changes[j]) is Some,
    decreases count,
{
    if count > 0 {
        ignore_files_ask_for_a_whole_capture(changes, (count - 1) as nat);
        let last = changes[count - 1];
        if outlook(changes, (count - 1) as nat) is Exact {
            let i = choose|i: int|
                0 <= i < count - 1 && change_path(#[trigger] changes[i]) is Some && ends_in(
                    change_path(changes[i])->0,
                    ".gitignore"@,
                ) && forall|j: int|
                    0 <= j < i ==> change_path(#[trigger] changes[j]) is Some;
            assert(change_path(changes[i]) is Some);
        } else if outlook(changes, (count - 1) as nat) is Unportable {
            lemma_unportable(changes, (count - 1) as nat);
        }
    }
}

proof fn lemma_unportable(changes: Seq<PathChangeView>, count: nat)
    requires
        count <= changes.len(),
        outlook(changes, count) is Unportable,
    ensures
        exists|i: int|
            0 <= i < count && change_path(#[trigger] changes[i]) is None && forall|j: int|
                0 <= j < i ==> change_path(#[trigger] changes[j]) is Some && !ends_in(
                    change_path(changes[j])->0,
                    ".gitignore"@,
                ),
    decreases count,
{
    if outlook(changes, (count - 1) as nat) is Unportable {
        lemma_unportable(changes, (count - 1) as nat);
        let i = choose|i: int|
            0 <= i < count - 1 && change_path(#[trigger] changes[i]) is None && forall|j: int|
                0 <= j < i ==> change_path(#[trigger] changes[j]) is Some && !ends_in(
                    change_path(changes[j])->0,
                    ".gitignore"@,
                );
        assert(change_path(changes[i]) is None);
    } else {
        ignore_files_ask_for_a_whole_capture(changes, (count - 1) as nat);
        assert(change_path(changes[count - 1]) is None);
    }
}

/// Whether a change is of a directory: what is there afterwards is one, or was before where
/// nothing is.
pub open spec fn of_directory(change: PathChangeView) -> bool {
    match change.after {
        Some(kind) => kind == FileKind::Directory,
        None => change.before == Some(FileKind::Directory),
    }
}

/// A change is taken up where its path is tracked already, the root rules admit it, or it
/// is a directory above something tracked.
pub proof fn changes_are_taken_up_where_admitted(
    root: Seq<RuleView>,
    catalog: Set<Seq<char>>,
    changes: Seq<PathChangeView>,
    count: nat,
    path: Seq<char>,
)
    requires
        count <= changes.len(),
        forall|i: int| 0 <= i < count ==> change_path(#[trigger] changes[i]) is Some,
    ensures
        carried_paths(root, catalog, changes, count).contains(path) == exists|i: int|
            0 <= i < count && change_path(#[trigger] changes[i]) == Some(path) && (
            catalog.contains(path) || admits(root, path, of_directory(changes[i]), false) || (
            of_directory(changes[i]) && exists|known: Seq<char>| #[trigger]
                catalog.contains(known) && goes_below(known, path))),
    decreases count,
{
    let all = carried_paths(root, catalog, changes, count);
    if count > 0 {
        let before = carried_paths(root, catalog, changes, (count - 1) as nat);
        changes_are_taken_up_where_admitted(root, catalog, changes, (count - 1) as nat, path);
        let last = changes[count - 1];
        assert(change_path(changes[count - 1]) is Some);
        let own = change_path(last)->0;
        assert(changes_directory(last) == of_directory(last));
        assert forall|known: Seq<char>| below(known, own) == goes_below(known, own) by {
            lemma_below(known, own);
        }
        assert((exists|known: Seq<char>| #[trigger]
            catalog.contains(known) && goes_below(known, own)) == (exists|known: Seq<char>|
            #[trigger] catalog.contains(known) && below(known, own))) by {
            if exists|known: Seq<char>| #[trigger]
                catalog.contains(known) && goes_below(known, own) {
                let known = choose|known: Seq<char>| #[trigger]
                    catalog.contains(known) && goes_below(known, own);
                assert(catalog.contains(known) && below(known, own));
            }
        }
        if all.contains(path) {
            let k = all.index_of(path);
            if k < before.len() {
                assert(before[k] == path);
                assert(before.contains(path));
            } else {
                assert(own == path);
            }
        }
        if before.contains(path) {
            let k = before.index_of(path);
            assert(all[k] == path);
        }
        if super::capture::carried(root, catalog, last) {
            assert(all[before.len() as int] == own);
        }
    }
}

/// What is tracked after changes: a path that no change of a file concerns stays tracked or
/// not; of any other, the last change decides, after which it is tracked where there is a
/// file that was tracked before or that the root rules admit.
pub proof fn the_last_change_decides_on_tracking(
    root: Seq<RuleView>,
    catalog: Set<Seq<char>>,
    changes: Seq<PathChangeView>,
    count: nat,
    path: Seq<char>,
    last: int,
)
    requires
        -1 <= last < count <= changes.len(),
        forall|i: int| 0 <= i < count ==> change_path(#[trigger] changes[i]) is Some,
        last >= 0 ==> change_path(changes[last]) == Some(path) && !of_directory(changes[last]),
        forall|i: int|
            last < i < count ==> change_path(#[trigger] changes[i]) != Some(path) || of_directory(
                changes[i],
            ),
    ensures
        carried_catalog(root, catalog, changes, count).contains(path) == (if last < 0 {
            catalog.contains(path)
        } else {
            changes[last].after is Some && (catalog.contains(path) || admits(
                root,
                path,
                false,
                false,
            ))
        }),
    decreases count,
{
    if count > 0 {
        let change = changes[count - 1];
        assert(changes_directory(change) == of_directory(change));
        assert(change_path(changes[count - 1]) is Some);
        if last < count - 1 {
            the_last_change_decides_on_tracking(
                root,
                catalog,
                changes,
                (count - 1) as nat,
                path,
                last,
            );
        }
    }
}

/// The path of an entry of a directory.
pub open spec fn path_in(directory: Seq<char>, name: Seq<char>) -> Seq<char> {
    if directory.len() == 0 {
        name
    } else {
        directory.push('/') + name
    }
}

proof fn lemma_path_in(directory: Seq<char>, name: Seq<char>)
    ensures
        super::tree::child(directory, name) == path_in(directory, name),
        directory + "/"@ + name == directory.push('/') + name,
        "/"@ + name == seq!['/'] + name,
{
    reveal_strlit("/");
    assert("/"@ =~= seq!['/']);
    assert(directory + "/"@ + name =~= directory.push('/') + name);
}

/// A capture takes up every entry of a page under its path, lists the directories among
/// them later, and reads an ignore file below the top.
pub proof fn captures_scan_every_entry(
    scan: CaptureScanView,
    directory: Seq<char>,
    page: Seq<ListedView>,
    names: Seq<Seq<char>>,
    count: nat,
)
    requires
        count <= page.len(),
        names.len() == page.len(),
        directory.len() > 0 ==> directory[0] != '/',
        forall|i: int|
            0 <= i < page.len() ==> portable(#[trigger] page[i].name) == Ok::<
                Seq<char>,
                GitInspectionError,
            >(names[i]),
    ensures
        capture_scanned(scan, seq!['/'] + directory, page, count) matches Some(next) && ({
            &&& next.entries.len() == scan.entries.len() + count
            &&& forall|i: int|
                0 <= i < scan.entries.len() ==> #[trigger] next.entries[i] == scan.entries[i]
            &&& forall|i: int|
                0 <= i < count ==> next.entries[scan.entries.len() + i] == (CaptureEntryView {
                    path: path_in(directory, #[trigger] names[i]),
                    is_directory: page[i].kind == FileKind::Directory,
                })
            &&& forall|waiting: Seq<char>| #[trigger]
                next.pending.contains(waiting) == (scan.pending.contains(waiting) || exists|i: int|
                    0 <= i < count && page[i].kind == FileKind::Directory && waiting == seq!['/']
                        + path_in(directory, #[trigger] names[i]))
            &&& forall|reading: Seq<char>| #[trigger]
                next.ignores.contains(reading) == (scan.ignores.contains(reading) || (reading
                    == directory && directory.len() > 0 && exists|i: int|
                    0 <= i < count && page[i].kind != FileKind::Directory && #[trigger] names[i]
                        == ".gitignore"@))
        }),
    decreases count,
{
    let whole = seq!['/'] + directory;
    reveal_strlit("/");
    assert("/"@ =~= seq!['/']);
    assert(whole.skip(1) =~= directory);
    assert(trim_front(directory) == directory);
    assert(trim_front(whole) == directory);
    assert((whole == "/"@) == (directory.len() == 0)) by {
        if directory.len() == 0 {
            assert(whole =~= "/"@);
        } else {
            assert(whole.len() != "/"@.len());
        }
    }
    if count > 0 {
        captures_scan_every_entry(scan, directory, page, names, (count - 1) as nat);
        let before = capture_scanned(scan, whole, page, (count - 1) as nat)->0;
        let next = capture_scanned(scan, whole, page, count)->0;
        let name = names[count - 1];
        assert(portable(page[count - 1].name) == Ok::<Seq<char>, GitInspectionError>(name));
        lemma_path_in(directory, name);
        let path = path_in(directory, name);
        assert("/"@ + path == seq!['/'] + path);
        assert forall|i: int| 0 <= i < count implies next.entries[scan.entries.len() + i] == (
        CaptureEntryView {
            path: path_in(directory, #[trigger] names[i]),
            is_directory: page[i].kind == FileKind::Directory,
        }) by {
            if i < count - 1 {
                assert(next.entries[scan.entries.len() + i] == before.entries[scan.entries.len()
                    + i]);
            }
        }
        assert forall|i: int| 0 <= i < scan.entries.len() implies #[trigger] next.entries[i]
            == scan.entries[i] by {
            assert(next.entries[i] == before.entries[i]);
        }
        if page[count - 1].kind == FileKind::Directory {
            lemma_push_contains(before.pending, seq!['/'] + path);
        }
        if page[count - 1].kind != FileKind::Directory && name == ".gitignore"@
            && directory.len() > 0 {
            lemma_push_contains(before.ignores, directory);
        }
        assert forall|waiting: Seq<char>| #[trigger] next.pending.contains(waiting) == (
        scan.pending.contains(waiting) || exists|i: int|
            0 <= i < count && page[i].kind == FileKind::Directory && waiting == seq!['/'] + path_in(
                directory,
                #[trigger] names[i],
            )) by {
            assert(before.pending.contains(waiting) == (scan.pending.contains(waiting) || exists|
                i: int,
            |
                0 <= i < count - 1 && page[i].kind == FileKind::Directory && waiting == seq!['/']
                    + path_in(directory, #[trigger] names[i])));
            assert(names[count - 1] == name);
        }
        assert forall|reading: Seq<char>| #[trigger] next.ignores.contains(reading) == (
        scan.ignores.contains(reading) || (reading == directory && directory.len() > 0 && exists|
            i: int,
        |
            0 <= i < count && page[i].kind != FileKind::Directory && #[trigger] names[i]
                == ".gitignore"@)) by {
            assert(before.ignores.contains(reading) == (scan.ignores.contains(reading) || (reading
                == directory && directory.len() > 0 && exists|i: int|
                0 <= i < count - 1 && page[i].kind != FileKind::Directory && #[trigger] names[i]
                    == ".gitignore"@)));
            assert(names[count - 1] == name);
        }
    }
}

proof fn lemma_push_contains<A>(items: Seq<A>, item: A)
    ensures
        forall|other: A| #[trigger]
            items.push(item).contains(other) == (items.contains(other) || other == item),
{
    assert forall|other: A| #[trigger] items.push(item).contains(other) == (items.contains(other)
        || other == item) by {
        if items.contains(other) {
            let i = items.index_of(other);
            assert(items.push(item)[i] == other);
        }
        assert(items.push(item)[items.len() as int] == item);
        if items.push(item).contains(other) && other != item {
            let i = items.push(item).index_of(other);
            assert(items[i] == other);
        }
    }
}

/// A walk takes up the entries of a page in order, as many as its maximum leaves room for,
/// each under its path and kind, and lists the directories among them later, but for one
/// that fills it up.
pub proof fn walks_take_up_entries_in_order(
    walk: WalkView,
    directory: Seq<char>,
    page: Seq<ListedView>,
    names: Seq<Seq<char>>,
    count: nat,
)
    requires
        walk.entries.len() <= walk.maximum,
        walk.directory == seq!['/'] + directory,
        directory.len() > 0 ==> directory[0] != '/',
        count <= page.len(),
        names.len() == page.len(),
        forall|i: int|
            0 <= i < page.len() ==> portable(#[trigger] page[i].name) == Ok::<
                Seq<char>,
                GitInspectionError,
            >(names[i]),
    ensures
        page_walked(walk, page, count) matches Ok(next) && ({
            let room = walk.maximum - walk.entries.len();
            let taken = if count <= room {
                count as int
            } else {
                room
            };
            &&& next == (WalkView { entries: next.entries, pending: next.pending, ..walk })
            &&& next.entries.len() == walk.entries.len() + taken
            &&& forall|i: int|
                0 <= i < walk.entries.len() ==> #[trigger] next.entries[i] == walk.entries[i]
            &&& forall|i: int|
                0 <= i < taken ==> next.entries[walk.entries.len() + i] == (TreeEntryView {
                    path: path_in(directory, #[trigger] names[i]),
                    kind: kind_name(page[i].kind),
                })
            &&& forall|waiting: Seq<char>| #[trigger]
                next.pending.contains(waiting) == (walk.pending.contains(waiting) || exists|i: int|
                    0 <= i < taken && i + 1 < room && page[i].kind == FileKind::Directory && waiting
                        == seq!['/'] + path_in(directory, #[trigger] names[i]))
        }),
    decreases count,
{
    assert(walk.directory.skip(1) =~= directory);
    assert(trim_front(directory) == directory);
    assert(trim_front(walk.directory) == directory);
    if count > 0 {
        walks_take_up_entries_in_order(walk, directory, page, names, (count - 1) as nat);
        let before = page_walked(walk, page, (count - 1) as nat)->Ok_0;
        let next = page_walked(walk, page, count)->Ok_0;
        let name = names[count - 1];
        let room = walk.maximum - walk.entries.len();
        assert(portable(page[count - 1].name) == Ok::<Seq<char>, GitInspectionError>(name));
        lemma_path_in(directory, name);
        let path = path_in(directory, name);
        lemma_path_in(directory, path);
        if count <= room {
            lemma_push_contains(before.pending, seq!['/'] + path);
            assert forall|i: int| 0 <= i < count implies next.entries[walk.entries.len() + i] == (
            TreeEntryView {
                path: path_in(directory, #[trigger] names[i]),
                kind: kind_name(page[i].kind),
            }) by {
                if i < count - 1 {
                    assert(next.entries[walk.entries.len() + i] == before.entries[walk.entries.len()
                        + i]);
                }
            }
            assert forall|i: int| 0 <= i < walk.entries.len() implies #[trigger] next.entries[i]
                == walk.entries[i] by {
                assert(next.entries[i] == before.entries[i]);
            }
            assert forall|waiting: Seq<char>| #[trigger] next.pending.contains(waiting) == (
            walk.pending.contains(waiting) || exists|i: int|
                0 <= i < count && i + 1 < room && page[i].kind == FileKind::Directory && waiting
                    == seq!['/'] + path_in(directory, #[trigger] names[i])) by {
                assert(before.pending.contains(waiting) == (walk.pending.contains(waiting)
                    || exists|i: int|
                    0 <= i < count - 1 && i + 1 < room && page[i].kind == FileKind::Directory
                        && waiting == seq!['/'] + path_in(directory, #[trigger] names[i])));
                assert(names[count - 1] == name);
            }
        }
    }
}

/// A search walk visits the entries of a page in order, as many as its bound leaves room
/// for, and is cut short exactly where there are more. It keeps the regular files with
/// their paths and handles, and lists the directories later.
pub proof fn searches_visit_entries_in_order(
    scan: ScanView,
    directory: Seq<char>,
    page: Seq<ListedView>,
    names: Seq<Seq<char>>,
    first: u64,
    maximum: u32,
    count: nat,
)
    requires
        scan.visited <= maximum,
        !scan.truncated,
        count <= page.len(),
        names.len() == page.len(),
        first + page.len() <= u64::MAX,
        forall|i: int|
            0 <= i < page.len() ==> portable(#[trigger] page[i].name) == Ok::<
                Seq<char>,
                GitInspectionError,
            >(names[i]),
    ensures
        page_scanned(scan, directory, page, first, maximum, count) matches Ok(next) && ({
            let room = maximum - scan.visited;
            let taken = if count <= room {
                count as int
            } else {
                room
            };
            &&& next.visited == scan.visited + taken
            &&& next.truncated == (count > room)
            &&& forall|found: RegularView| #[trigger]
                next.files.contains(found) == (scan.files.contains(found) || exists|i: int|
                    0 <= i < taken && page[i].kind == FileKind::Regular && found == (RegularView {
                        path: path_in(directory, #[trigger] names[i]),
                        handle: (first + i) as u64,
                    }))
            &&& forall|found: RegularView| #[trigger]
                next.pending.contains(found) == (scan.pending.contains(found) || exists|i: int|
                    0 <= i < taken && page[i].kind == FileKind::Directory && found == (RegularView {
                        path: path_in(directory, #[trigger] names[i]),
                        handle: (first + i) as u64,
                    }))
        }),
    decreases count,
{
    if count > 0 {
        searches_visit_entries_in_order(
            scan,
            directory,
            page,
            names,
            first,
            maximum,
            (count - 1) as nat,
        );
        let before = page_scanned(scan, directory, page, first, maximum, (count - 1) as nat)->Ok_0;
        let next = page_scanned(scan, directory, page, first, maximum, count)->Ok_0;
        let name = names[count - 1];
        let room = maximum - scan.visited;
        assert(portable(page[count - 1].name) == Ok::<Seq<char>, GitInspectionError>(name));
        lemma_path_in(directory, name);
        let made = RegularView {
            path: path_in(directory, name),
            handle: (first + (count - 1)) as u64,
        };
        if count <= room {
            lemma_push_contains(before.files, made);
            lemma_push_contains(before.pending, made);
            assert(names[count - 1] == name);
            assert forall|found: RegularView| #[trigger] next.files.contains(found) == (
            scan.files.contains(found) || exists|i: int|
                0 <= i < count && page[i].kind == FileKind::Regular && found == (RegularView {
                    path: path_in(directory, #[trigger] names[i]),
                    handle: (first + i) as u64,
                })) by {
                assert(before.files.contains(found) == (scan.files.contains(found) || exists|i: int|
                    0 <= i < count - 1 && page[i].kind == FileKind::Regular && found == (
                    RegularView {
                        path: path_in(directory, #[trigger] names[i]),
                        handle: (first + i) as u64,
                    })));
            }
            assert forall|found: RegularView| #[trigger] next.pending.contains(found) == (
            scan.pending.contains(found) || exists|i: int|
                0 <= i < count && page[i].kind == FileKind::Directory && found == (RegularView {
                    path: path_in(directory, #[trigger] names[i]),
                    handle: (first + i) as u64,
                })) by {
                assert(before.pending.contains(found) == (scan.pending.contains(found) || exists|
                    i: int,
                |
                    0 <= i < count - 1 && page[i].kind == FileKind::Directory && found == (
                    RegularView {
                        path: path_in(directory, #[trigger] names[i]),
                        handle: (first + i) as u64,
                    })));
            }
        }
    }
}

} // verus!
