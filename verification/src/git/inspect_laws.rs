//! What searching and blaming are for.

use super::inspect::{
    all_matches, blame_fails, blame_rows, blamed, bounded, file_matches, grep_truncated,
    line_matches, line_owner, version, GrepFileView, GrepMatchView,
};
use super::paths::trim_front;
use super::types::CommitView;
use crate::text::{lines, occurs, occurs_at};
use vstd::prelude::*;
use vstd::utf8::{decode_utf8, valid_utf8};

verus! {

/// Whether a text holds a pattern somewhere.
pub open spec fn holds(text: Seq<char>, pattern: Seq<char>) -> bool {
    exists|at: int|
        0 <= at <= text.len() - pattern.len() && #[trigger] text.subrange(at, at + pattern.len())
            == pattern
}

/// Whether a line of a file is to be reported: the file is text and not too large, and the
/// line holds the pattern.
pub open spec fn is_hit(
    files: Seq<GrepFileView>,
    pattern: Seq<char>,
    maximum_file_bytes: u64,
    hit: (int, int),
) -> bool {
    let (file, line) = hit;
    &&& 0 <= file < files.len()
    &&& files[file].logical_bytes <= maximum_file_bytes
    &&& valid_utf8(files[file].contents)
    &&& 0 <= line < lines(decode_utf8(files[file].contents)).len()
    &&& holds(lines(decode_utf8(files[file].contents))[line], pattern)
}

/// What is reported of a line: the path of its file, its number from one on, and the
/// complete line.
pub open spec fn hit_view(files: Seq<GrepFileView>, hit: (int, int)) -> GrepMatchView {
    GrepMatchView {
        path: files[hit.0].path,
        line: if hit.1 + 1 <= u64::MAX {
            (hit.1 + 1) as u64
        } else {
            u64::MAX
        },
        text: lines(decode_utf8(files[hit.0].contents))[hit.1],
    }
}

/// Whether hits ascend by file, and within a file by line.
pub open spec fn hits_ascend(hits: Seq<(int, int)>) -> bool {
    forall|i: int, j: int|
        0 <= i < j < hits.len() ==> (#[trigger] hits[i]).0 < (#[trigger] hits[j]).0 || hits[i].0
            == hits[j].0 && hits[i].1 < hits[j].1
}

proof fn lemma_occurs(text: Seq<char>, pattern: Seq<char>)
    ensures
        occurs(text, pattern) == holds(text, pattern),
{
    if occurs(text, pattern) {
        let at = choose|at: int| occurs_at(text, pattern, at);
        assert(text.subrange(at, at + pattern.len()) == pattern);
    }
    if holds(text, pattern) {
        let at = choose|at: int|
            0 <= at <= text.len() - pattern.len() && #[trigger] text.subrange(
                at,
                at + pattern.len(),
            ) == pattern;
        assert(occurs_at(text, pattern, at));
    }
}

/// The hits among the first lines of a file.
proof fn lemma_line_hits(
    files: Seq<GrepFileView>,
    pattern: Seq<char>,
    maximum: u64,
    file: int,
    count: nat,
) -> (hits: Seq<(int, int)>)
    requires
        0 <= file < files.len(),
        files[file].logical_bytes <= maximum,
        valid_utf8(files[file].contents),
        count <= lines(decode_utf8(files[file].contents)).len(),
    ensures
        hits_ascend(hits),
        forall|i: int|
            0 <= i < hits.len() ==> (#[trigger] hits[i]).0 == file && hits[i].1 < count && is_hit(
                files,
                pattern,
                maximum,
                hits[i],
            ),
        forall|line: int|
            0 <= line < count && #[trigger] is_hit(files, pattern, maximum, (file, line))
                ==> hits.contains((file, line)),
        line_matches(
            files[file].path,
            lines(decode_utf8(files[file].contents)),
            pattern,
            count,
        ) == hits.map_values(|hit: (int, int)| hit_view(files, hit)),
    decreases count,
{
    let all = lines(decode_utf8(files[file].contents));
    if count == 0 {
        let hits = Seq::<(int, int)>::empty();
        assert(hits.map_values(|hit: (int, int)| hit_view(files, hit)) =~= Seq::empty());
        hits
    } else {
        let front = lemma_line_hits(files, pattern, maximum, file, (count - 1) as nat);
        let at = (file, count - 1);
        lemma_occurs(all[count - 1], pattern);
        if occurs(all[count - 1], pattern) {
            let hits = front.push(at);
            assert(is_hit(files, pattern, maximum, at));
            assert(hits.map_values(|hit: (int, int)| hit_view(files, hit)) =~= front.map_values(
                |hit: (int, int)| hit_view(files, hit),
            ).push(hit_view(files, at)));
            assert forall|line: int|
                0 <= line < count && #[trigger] is_hit(
                    files,
                    pattern,
                    maximum,
                    (file, line),
                ) implies hits.contains((file, line)) by {
                if line < count - 1 {
                    let i = front.index_of((file, line));
                    assert(hits[i] == (file, line));
                } else {
                    assert(hits[front.len() as int] == (file, line));
                }
            }
            hits
        } else {
            assert forall|line: int|
                0 <= line < count && #[trigger] is_hit(
                    files,
                    pattern,
                    maximum,
                    (file, line),
                ) implies front.contains((file, line)) by {
                assert(line < count - 1);
            }
            front
        }
    }
}

proof fn lemma_hits(
    files: Seq<GrepFileView>,
    pattern: Seq<char>,
    maximum: u64,
    count: nat,
) -> (hits: Seq<(int, int)>)
    requires
        count <= files.len(),
    ensures
        hits_ascend(hits),
        forall|i: int|
            0 <= i < hits.len() ==> (#[trigger] hits[i]).0 < count && is_hit(
                files,
                pattern,
                maximum,
                hits[i],
            ),
        forall|hit: (int, int)|
            hit.0 < count && #[trigger] is_hit(files, pattern, maximum, hit) ==> hits.contains(hit),
        all_matches(files, pattern, maximum, count) == hits.map_values(
            |hit: (int, int)| hit_view(files, hit),
        ),
    decreases count,
{
    if count == 0 {
        let hits = Seq::<(int, int)>::empty();
        assert(hits.map_values(|hit: (int, int)| hit_view(files, hit)) =~= Seq::empty());
        hits
    } else {
        let front = lemma_hits(files, pattern, maximum, (count - 1) as nat);
        let file = count - 1;
        let own = if files[file].logical_bytes > maximum || !valid_utf8(files[file].contents) {
            Seq::<(int, int)>::empty()
        } else {
            lemma_line_hits(
                files,
                pattern,
                maximum,
                file,
                lines(decode_utf8(files[file].contents)).len(),
            )
        };
        let hits = front + own;
        let shown = |hit: (int, int)| hit_view(files, hit);
        assert(file_matches(files[file], pattern, maximum) =~= own.map_values(shown));
        assert(hits.map_values(shown) =~= front.map_values(shown) + own.map_values(shown));
        assert forall|hit: (int, int)|
            hit.0 < count && #[trigger] is_hit(
                files,
                pattern,
                maximum,
                hit,
            ) implies hits.contains(hit) by {
            if hit.0 < count - 1 {
                let i = front.index_of(hit);
                assert(hits[i] == hit);
            } else {
                assert(is_hit(files, pattern, maximum, (file, hit.1)));
                let i = own.index_of(hit);
                assert(hits[front.len() + i] == hit);
            }
        }
        assert forall|i: int| 0 <= i < hits.len() implies (#[trigger] hits[i]).0 < count && is_hit(
            files,
            pattern,
            maximum,
            hits[i],
        ) by {
            if i < front.len() {
                assert(hits[i] == front[i]);
            } else {
                assert(hits[i] == own[i - front.len()]);
            }
        }
        assert forall|i: int, j: int| 0 <= i < j < hits.len() implies (#[trigger] hits[i]).0 < (
        #[trigger] hits[j]).0 || hits[i].0 == hits[j].0 && hits[i].1 < hits[j].1 by {
            if j < front.len() {
                assert(hits[i] == front[i] && hits[j] == front[j]);
            } else if i >= front.len() {
                assert(hits[i] == own[i - front.len()] && hits[j] == own[j - front.len()]);
            } else {
                assert(hits[i] == front[i] && hits[j] == own[j - front.len()]);
            }
        }
        hits
    }
}

/// A search reports exactly the lines that hold the pattern, in the order of files and
/// lines and no more than admitted, each with the path of its file, its number and its
/// complete text; and says so where more lines, or files that are too large, exist.
pub proof fn searches_report_the_lines_found(
    files: Seq<GrepFileView>,
    pattern: Seq<char>,
    walk_truncated: bool,
    maximum_file_bytes: u64,
    maximum_matches: u32,
) -> (hits: Seq<(int, int)>)
    ensures
        hits_ascend(hits),
        forall|hit: (int, int)|
            hits.contains(hit) == #[trigger] is_hit(files, pattern, maximum_file_bytes, hit),
        ({
            let found = bounded(
                all_matches(files, pattern, maximum_file_bytes, files.len()),
                maximum_matches,
            );
            &&& found.len() == if hits.len() <= maximum_matches {
                hits.len() as int
            } else {
                maximum_matches as int
            }
            &&& forall|i: int|
                0 <= i < found.len() ==> #[trigger] found[i] == hit_view(files, hits[i])
        }),
        grep_truncated(files, pattern, walk_truncated, maximum_file_bytes, maximum_matches) == (
        walk_truncated || hits.len() > maximum_matches || exists|i: int|
            0 <= i < files.len() && (#[trigger] files[i]).logical_bytes > maximum_file_bytes),
{
    let hits = lemma_hits(files, pattern, maximum_file_bytes, files.len());
    assert forall|hit: (int, int)|
        hits.contains(hit) == #[trigger] is_hit(files, pattern, maximum_file_bytes, hit) by {
        if hits.contains(hit) {
            let i = hits.index_of(hit);
            assert(is_hit(files, pattern, maximum_file_bytes, hits[i]));
        }
    }
    hits
}

/// Whether a version of a line is there with a text.
pub open spec fn reads(version: Seq<Seq<char>>, line: int, text: Seq<char>) -> bool {
    0 <= line < version.len() && version[line] == text
}

/// Slashes.
pub open spec fn slashes(count: nat) -> Seq<char> {
    Seq::new(count, |i: int| '/')
}

proof fn lemma_slashes(count: nat, path: Seq<char>)
    requires
        path.len() > 0 ==> path[0] != '/',
    ensures
        trim_front(slashes(count) + path) == path,
    decreases count,
{
    let whole = slashes(count) + path;
    if count == 0 {
        assert(whole =~= path);
    } else {
        lemma_slashes((count - 1) as nat, path);
        assert(whole.skip(1) =~= slashes((count - 1) as nat) + path);
    }
}

/// The commit that owns a line from an index on is the oldest of those that read the same.
proof fn lemma_owner(
    history: Seq<CommitView>,
    contents: Seq<Seq<u8>>,
    path: Seq<char>,
    versions: Seq<Seq<Seq<char>>>,
    at: int,
    line: int,
    text: Seq<char>,
) -> (owner: int)
    requires
        history.len() == contents.len(),
        versions.len() == history.len(),
        forall|i: int|
            0 <= i < versions.len() ==> #[trigger] versions[i] == version(
                history[i],
                contents[i],
                path,
            ),
        0 <= at < history.len(),
        reads(versions[at], line, text),
    ensures
        at <= owner < history.len(),
        line_owner(history, contents, path, at, line) == history[owner].id,
        forall|i: int| at <= i <= owner ==> reads(#[trigger] versions[i], line, text),
        owner + 1 < history.len() ==> !reads(versions[owner + 1], line, text),
    decreases history.len() - at,
{
    assert(versions[at] == version(history[at], contents[at], path));
    if at + 1 < history.len() {
        assert(versions[at + 1] == version(history[at + 1], contents[at + 1], path));
        if reads(versions[at + 1], line, text) {
            lemma_owner(history, contents, path, versions, at + 1, line, text)
        } else {
            at
        }
    } else {
        at
    }
}

/// Blaming lists the lines of the newest version, numbered from one on, each with the
/// commit since which every version has had the same text at that line. A commit that does
/// not track the path has no lines. Slashes in front of the path make no difference.
pub proof fn blame_names_the_commit_of_each_line(
    history: Seq<CommitView>,
    contents: Seq<Seq<u8>>,
    count: nat,
    path: Seq<char>,
    versions: Seq<Seq<Seq<char>>>,
)
    requires
        history.len() == contents.len(),
        history.len() > 0,
        path.len() > 0 ==> path[0] != '/',
        versions.len() == history.len(),
        forall|i: int|
            0 <= i < history.len() ==> #[trigger] versions[i] == (
            if history[i].tracked_paths.contains(path) {
                lines(decode_utf8(contents[i]))
            } else {
                Seq::empty()
            }),
    ensures
        ({
            let rows = blame_rows(history, contents, slashes(count) + path);
            &&& rows.len() == versions[0].len()
            &&& forall|line: int|
                #![trigger rows[line]]
                0 <= line < rows.len() ==> {
                    &&& rows[line].text == versions[0][line]
                    &&& rows[line].line == if line + 1 <= u64::MAX {
                        (line + 1) as u64
                    } else {
                        u64::MAX
                    }
                    &&& exists|owner: int|
                        #![trigger history[owner]]
                        0 <= owner < history.len() && rows[line].commit == history[owner].id && (
                        forall|i: int|
                            0 <= i <= owner ==> reads(
                                #[trigger] versions[i],
                                line,
                                rows[line].text,
                            )) && (owner + 1 < history.len() ==> !reads(
                            versions[owner + 1],
                            line,
                            rows[line].text,
                        ))
                }
        }),
        blame_fails(history, contents, slashes(count) + path, 0) == exists|i: int|
            0 <= i < history.len() && (#[trigger] history[i]).tracked_paths.contains(path)
                && !valid_utf8(contents[i]),
{
    let whole = slashes(count) + path;
    lemma_slashes(count, path);
    assert forall|i: int| 0 <= i < history.len() implies #[trigger] versions[i] == version(
        history[i],
        contents[i],
        whole,
    ) by {}
    let rows = blame_rows(history, contents, whole);
    assert(versions[0] == version(history[0], contents[0], whole));
    assert forall|line: int| #![trigger rows[line]] 0 <= line < rows.len() implies exists|owner: int|
        #![trigger history[owner]]
        0 <= owner < history.len() && rows[line].commit == history[owner].id && (forall|i: int|
            0 <= i <= owner ==> reads(#[trigger] versions[i], line, rows[line].text)) && (owner + 1
            < history.len() ==> !reads(versions[owner + 1], line, rows[line].text)) by {
        let owner = lemma_owner(
            history,
            contents,
            whole,
            versions,
            0,
            line,
            rows[line].text,
        );
        assert(history[owner] == history[owner]);
    }
    if blame_fails(history, contents, whole, 0) {
        let i = choose|i: int|
            0 <= i < history.len() && blamed(#[trigger] history[i], whole) && !valid_utf8(
                contents[i],
            );
        assert(history[i].tracked_paths.contains(path));
    }
}

} // verus!
