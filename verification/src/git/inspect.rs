//! Literal search and line attribution over file contents.

use super::paths::{trim_front, trim_leading_slashes};
use super::tree::GitInspectionError;
use super::types::{CommitView, GitCommit, GitCommitId};
use crate::order::{views, Replicate};
use crate::text::{
    char_lists, chars_of, chomp, decode_text, has_part, lines, occurs, split_inclusive,
    split_lines, text_between, text_is,
};
use vstd::prelude::*;
use vstd::string::*;
use vstd::utf8::{decode_utf8, valid_utf8};

verus! {

/// The lines of a text without their terminators.
pub fn text_lines(text: &str) -> (r: Vec<String>)
    ensures
        views(r@) == lines(text@),
{
    let chars = chars_of(text);
    let pieces = split_lines(chars.as_slice());
    let ghost all = lines(text@);
    let mut r: Vec<String> = Vec::new();
    let mut i: usize = 0;
    assert(char_lists(pieces@).len() == pieces@.len());
    while i < pieces.len()
        invariant
            i <= pieces@.len(),
            char_lists(pieces@) == split_inclusive(text@),
            all == lines(text@),
            all.len() == pieces@.len(),
            views(r@) =~= all.take(i as int),
        decreases pieces@.len() - i,
    {
        let piece = &pieces[i];
        let mut end: usize = piece.len();
        assert(piece@ == char_lists(pieces@)[i as int]);
        if end > 0 && piece[end - 1] == '\n' {
            end = end - 1;
            if end > 0 && piece[end - 1] == '\r' {
                end = end - 1;
            }
        }
        let line = text_between(piece.as_slice(), 0, end);
        assert(line@ =~= chomp(piece@));
        let ghost before = views(r@);
        proof {
            assert(line@ == all[i as int]);
            assert(all.take(i + 1) =~= all.take(i as int).push(all[i as int]));
        }
        r.push(line);
        assert(views(r@) =~= before.push(all[i as int]));
        i = i + 1;
    }
    assert(all.take(i as int) =~= all);
    r
}

/// One literal match in an authenticated generation.
#[derive(Debug, PartialEq, Eq)]
pub struct GitGrepMatch {
    /// Slash-separated path relative to the compatibility root.
    pub path: String,
    /// One-based logical line number.
    pub line: u64,
    /// Complete UTF-8 line without its terminator.
    pub text: String,
}

/// Abstract value of [`GitGrepMatch`].
#[verifier::ext_equal]
pub struct GrepMatchView {
    /// Slash-separated path relative to the compatibility root.
    pub path: Seq<char>,
    /// One-based logical line number.
    pub line: u64,
    /// Complete UTF-8 line without its terminator.
    pub text: Seq<char>,
}

impl View for GitGrepMatch {
    type V = GrepMatchView;

    open spec fn view(&self) -> GrepMatchView {
        GrepMatchView { path: self.path@, line: self.line, text: self.text@ }
    }
}

/// Bounded machine-readable search result.
#[derive(Debug, PartialEq, Eq)]
pub struct GitGrepResult {
    /// Literal matching lines in stable path and line order.
    pub matches: Vec<GitGrepMatch>,
    /// More paths, bytes, or matches existed beyond the supplied bounds.
    pub truncated: bool,
}

/// One regular file to search.
#[derive(Debug, PartialEq, Eq)]
pub struct GitGrepFile {
    /// Slash-separated path relative to the compatibility root.
    pub path: String,
    /// Logical size of the file.
    pub logical_bytes: u64,
    /// Contents, looked at only where the size is within the bound.
    pub contents: Vec<u8>,
}

/// Abstract value of [`GitGrepFile`].
#[verifier::ext_equal]
pub struct GrepFileView {
    /// Slash-separated path relative to the compatibility root.
    pub path: Seq<char>,
    /// Logical size of the file.
    pub logical_bytes: u64,
    /// Contents, looked at only where the size is within the bound.
    pub contents: Seq<u8>,
}

impl View for GitGrepFile {
    type V = GrepFileView;

    open spec fn view(&self) -> GrepFileView {
        GrepFileView {
            path: self.path@,
            logical_bytes: self.logical_bytes,
            contents: self.contents@,
        }
    }
}

/// One-based number of a line, held at the largest number.
pub open spec fn line_number(index: int) -> u64 {
    if index + 1 > u64::MAX {
        u64::MAX
    } else {
        (index + 1) as u64
    }
}

/// Matches among the first `count` lines of a file.
pub open spec fn line_matches(
    path: Seq<char>,
    all: Seq<Seq<char>>,
    pattern: Seq<char>,
    count: nat,
) -> Seq<GrepMatchView>
    decreases count,
{
    if count == 0 {
        Seq::empty()
    } else {
        let before = line_matches(path, all, pattern, (count - 1) as nat);
        if occurs(all[count - 1], pattern) {
            before.push(
                GrepMatchView { path, line: line_number(count - 1), text: all[count - 1] },
            )
        } else {
            before
        }
    }
}

/// Matches in one file: none where it is too large or no text.
pub open spec fn file_matches(file: GrepFileView, pattern: Seq<char>, maximum: u64) -> Seq<
    GrepMatchView,
> {
    if file.logical_bytes > maximum || !valid_utf8(file.contents) {
        Seq::empty()
    } else {
        let all = lines(decode_utf8(file.contents));
        line_matches(file.path, all, pattern, all.len())
    }
}

/// Matches in the first `count` files.
pub open spec fn all_matches(
    files: Seq<GrepFileView>,
    pattern: Seq<char>,
    maximum: u64,
    count: nat,
) -> Seq<GrepMatchView>
    decreases count,
{
    if count == 0 {
        Seq::empty()
    } else {
        all_matches(files, pattern, maximum, (count - 1) as nat) + file_matches(
            files[count - 1],
            pattern,
            maximum,
        )
    }
}

/// Whether some file is larger than the bound.
pub open spec fn has_large(files: Seq<GrepFileView>, maximum: u64) -> bool {
    exists|i: int| 0 <= i < files.len() && (#[trigger] files[i]).logical_bytes > maximum
}

/// The first `maximum` of a list of matches.
pub open spec fn bounded(matches: Seq<GrepMatchView>, maximum: u32) -> Seq<GrepMatchView> {
    if matches.len() <= maximum {
        matches
    } else {
        matches.take(maximum as int)
    }
}

/// Whether a search leaves something out: paths that were not walked, files that are too
/// large, or matches beyond the bound.
pub open spec fn grep_truncated(
    files: Seq<GrepFileView>,
    pattern: Seq<char>,
    walk_truncated: bool,
    maximum_file_bytes: u64,
    maximum_matches: u32,
) -> bool {
    walk_truncated || has_large(files, maximum_file_bytes) || all_matches(
        files,
        pattern,
        maximum_file_bytes,
        files.len(),
    ).len() > maximum_matches
}

proof fn lemma_line_matches_grow(
    path: Seq<char>,
    all: Seq<Seq<char>>,
    pattern: Seq<char>,
    count: nat,
    upto: nat,
)
    requires
        count <= upto,
    ensures
        line_matches(path, all, pattern, count).is_prefix_of(
            line_matches(path, all, pattern, upto),
        ),
    decreases upto,
{
    if count < upto {
        lemma_line_matches_grow(path, all, pattern, count, (upto - 1) as nat);
    }
}

proof fn lemma_all_matches_grow(
    files: Seq<GrepFileView>,
    pattern: Seq<char>,
    maximum: u64,
    count: nat,
    upto: nat,
)
    requires
        count <= upto,
    ensures
        all_matches(files, pattern, maximum, count).is_prefix_of(
            all_matches(files, pattern, maximum, upto),
        ),
    decreases upto,
{
    if count < upto {
        lemma_all_matches_grow(files, pattern, maximum, count, (upto - 1) as nat);
    }
}

/// Adds the matches of one text and tells whether one did not fit.
fn grep_text(
    path: &str,
    text: &str,
    pattern: &str,
    maximum: u32,
    matches: &mut Vec<GitGrepMatch>,
) -> (full: bool)
    requires
        old(matches)@.len() <= maximum,
    ensures
        ({
            let whole = views(old(matches)@) + line_matches(
                path@,
                lines(text@),
                pattern@,
                lines(text@).len(),
            );
            views(final(matches)@) == bounded(whole, maximum) && full == (whole.len() > maximum)
        }),
{
    let all = text_lines(text);
    let wanted = chars_of(pattern);
    let ghost start = views(matches@);
    let ghost rows = views(all@);
    let mut i: usize = 0;
    assert(start + line_matches(path@, rows, pattern@, 0) =~= start);
    while i < all.len()
        invariant
            i <= all@.len(),
            rows == views(all@),
            rows == lines(text@),
            start == views(old(matches)@),
            wanted@ == pattern@,
            matches@.len() <= maximum,
            views(matches@) == start + line_matches(path@, rows, pattern@, i as nat),
        decreases all@.len() - i,
    {
        let ghost before = line_matches(path@, rows, pattern@, i as nat);
        let chars = chars_of(all[i].as_str());
        assert(chars@ == rows[i as int]);
        if has_part(chars.as_slice(), wanted.as_slice()) {
            if matches.len() >= maximum as usize {
                proof {
                    let whole = start + line_matches(path@, rows, pattern@, rows.len());
                    lemma_line_matches_grow(path@, rows, pattern@, (i + 1) as nat, rows.len());
                    let next = line_matches(path@, rows, pattern@, (i + 1) as nat);
                    let full = line_matches(path@, rows, pattern@, rows.len());
                    assert(next.len() == before.len() + 1);
                    assert(next.drop_last() =~= before);
                    assert(views(matches@).len() == matches@.len());
                    assert(full.len() >= next.len());
                    assert(full.take(before.len() as int) =~= before) by {
                        assert forall|j: int| 0 <= j < before.len() implies full[j] == before[j] by {
                            assert(full.subrange(0, next.len() as int)[j] == next[j]);
                        }
                    }
                    assert(whole.take(maximum as int) =~= views(matches@));
                }
                return true;
            }
            let line: u64 = if i as u64 == u64::MAX {
                u64::MAX
            } else {
                i as u64 + 1
            };
            let added = GitGrepMatch { path: path.to_owned(), line, text: all[i].clone() };
            let ghost made = added@;
            let ghost held = views(matches@);
            matches.push(added);
            assert(views(matches@) =~= held.push(made));
            assert(views(matches@) =~= start + before.push(made));
        }
        i = i + 1;
    }
    false
}

/// Searches regular files for lines that hold a literal pattern.
///
/// Files above `maximum_file_bytes` are left out and make the result
/// truncated; files that are not UTF-8 are left out silently.
pub fn grep_git_generation(
    pattern: &str,
    files: &Vec<GitGrepFile>,
    walk_truncated: bool,
    maximum_file_bytes: u64,
    maximum_matches: u32,
) -> (r: GitGrepResult)
    ensures
        ({
            let whole = all_matches(views(files@), pattern@, maximum_file_bytes, files@.len());
            &&& views(r.matches@) == bounded(whole, maximum_matches)
            &&& r.truncated == (walk_truncated || has_large(views(files@), maximum_file_bytes)
                || whole.len() > maximum_matches)
        }),
        r.truncated == grep_truncated(
            views(files@),
            pattern@,
            walk_truncated,
            maximum_file_bytes,
            maximum_matches,
        ),
{
    let ghost all = views(files@);
    let mut matches: Vec<GitGrepMatch> = Vec::new();
    let mut large = false;
    let mut i: usize = 0;
    assert(views(matches@) =~= Seq::<GrepMatchView>::empty());
    while i < files.len()
        invariant
            i <= files@.len(),
            all == views(files@),
            matches@.len() <= maximum_matches,
            views(matches@) == all_matches(all, pattern@, maximum_file_bytes, i as nat),
            large == has_large(all.take(i as int), maximum_file_bytes),
        decreases files@.len() - i,
    {
        let file = &files[i];
        let ghost before = views(matches@);
        proof {
            assert(all[i as int] == file@);
            let next = all.take(i + 1);
            if file.logical_bytes > maximum_file_bytes {
                assert(next[i as int].logical_bytes > maximum_file_bytes);
            } else {
                if has_large(next, maximum_file_bytes) {
                    let k = choose|k: int|
                        0 <= k < next.len() && (#[trigger] next[k]).logical_bytes
                            > maximum_file_bytes;
                    assert(all.take(i as int)[k] == next[k]);
                }
            }
            if has_large(all.take(i as int), maximum_file_bytes) {
                let k = choose|k: int|
                    0 <= k < i && (#[trigger] all.take(i as int)[k]).logical_bytes
                        > maximum_file_bytes;
                assert(next[k] == all.take(i as int)[k]);
            }
        }
        if file.logical_bytes > maximum_file_bytes {
            large = true;
            assert(before + file_matches(file@, pattern@, maximum_file_bytes) =~= before);
        } else {
            match decode_text(vstd::slice::slice_to_vec(file.contents.as_slice())) {
                Some(text) => {
                    proof {
                        vstd::utf8::encode_utf8_decode_utf8(text@);
                    }
                    let full = grep_text(
                        file.path.as_str(),
                        text.as_str(),
                        pattern,
                        maximum_matches,
                        &mut matches,
                    );
                    if full {
                        proof {
                            let so_far = all_matches(all, pattern@, maximum_file_bytes, (i + 1) as nat);
                            let whole = all_matches(all, pattern@, maximum_file_bytes, all.len());
                            lemma_all_matches_grow(
                                all,
                                pattern@,
                                maximum_file_bytes,
                                (i + 1) as nat,
                                all.len(),
                            );
                            assert(so_far.take(maximum_matches as int) =~= whole.take(
                                maximum_matches as int,
                            ));
                        }
                        return GitGrepResult { matches, truncated: true };
                    }
                },
                None => {
                    assert(before + file_matches(file@, pattern@, maximum_file_bytes) =~= before);
                },
            }
        }
        i = i + 1;
    }
    assert(all.take(i as int) =~= all);
    GitGrepResult { matches, truncated: walk_truncated || large }
}

/// One line attributed across explicit compatibility history.
#[derive(Debug, PartialEq, Eq)]
pub struct GitBlameLine {
    /// Compatibility commit that last changed this line position.
    pub commit: GitCommitId,
    /// One-based line number in the selected version.
    pub line: u64,
    /// Complete UTF-8 line without its terminator.
    pub text: String,
}

/// Abstract value of [`GitBlameLine`].
#[verifier::ext_equal]
pub struct BlameView {
    /// Compatibility commit that last changed this line position.
    pub commit: GitCommitId,
    /// One-based line number in the selected version.
    pub line: u64,
    /// Complete UTF-8 line without its terminator.
    pub text: Seq<char>,
}

impl View for GitBlameLine {
    type V = BlameView;

    open spec fn view(&self) -> BlameView {
        BlameView { commit: self.commit, line: self.line, text: self.text@ }
    }
}

/// Whether a commit holds the blamed path.
pub open spec fn blamed(commit: CommitView, path: Seq<char>) -> bool {
    commit.tracked_paths.contains(trim_front(path))
}

/// Tells whether the contents of the blamed path are read at a commit.
pub fn blame_reads(commit: &GitCommit, path: &str) -> (r: bool)
    ensures
        r == blamed(commit@, path@),
{
    commit.tracked_paths.contains(&trim_leading_slashes(path))
}

/// The blamed file at one commit, line by line; absent where not tracked.
pub open spec fn version(commit: CommitView, contents: Seq<u8>, path: Seq<char>) -> Seq<Seq<char>> {
    if blamed(commit, path) {
        lines(decode_utf8(contents))
    } else {
        Seq::empty()
    }
}

/// The commit, among those from `at` on towards the oldest, that gave a line
/// position the text it has at `at`.
pub open spec fn line_owner(
    history: Seq<CommitView>,
    contents: Seq<Seq<u8>>,
    path: Seq<char>,
    at: int,
    line: int,
) -> GitCommitId
    decreases history.len() - at,
{
    if 0 <= at && at + 1 < history.len() {
        let here = version(history[at], contents[at], path);
        let older = version(history[at + 1], contents[at + 1], path);
        if line < older.len() && older[line] == here[line] {
            line_owner(history, contents, path, at + 1, line)
        } else {
            history[at].id
        }
    } else {
        history[at].id
    }
}

/// The lines of a file at the newest commit, each with the commit that gave it its text.
pub open spec fn blame_rows(
    history: Seq<CommitView>,
    contents: Seq<Seq<u8>>,
    path: Seq<char>,
) -> Seq<BlameView> {
    if history.len() == 0 {
        Seq::empty()
    } else {
        let newest = version(history[0], contents[0], path);
        Seq::new(
            newest.len(),
            |i: int|
                BlameView {
                    commit: line_owner(history, contents, path, 0, i),
                    line: line_number(i),
                    text: newest[i],
                },
        )
    }
}

/// Whether some blamed version is no text.
pub open spec fn blame_fails(
    history: Seq<CommitView>,
    contents: Seq<Seq<u8>>,
    path: Seq<char>,
    from: int,
) -> bool {
    exists|i: int|
        from <= i < history.len() && blamed(#[trigger] history[i], path) && !valid_utf8(contents[i])
}

/// Attributes the lines of a file through exact line positions.
///
/// `history` runs from the newest to the oldest commit; `contents` holds the
/// file at each of them and is looked at only where the path is tracked.
pub fn blame_git_generations(
    history: &Vec<GitCommit>,
    contents: &Vec<Vec<u8>>,
    path: &str,
) -> (r: Result<Vec<GitBlameLine>, GitInspectionError>)
    requires
        history@.len() == contents@.len(),
    ensures
        r is Err == blame_fails(views(history@), crate::order::views(contents@), path@, 0),
        r matches Err(error) ==> error == GitInspectionError::NonTextBlame,
        r matches Ok(rows) ==> history@.len() == 0 ==> rows@.len() == 0,
        r matches Ok(rows) ==> history@.len() > 0 ==> {
            let newest = version(history@[0]@, contents@[0]@, path@);
            &&& rows@.len() == newest.len()
            &&& forall|i: int|
                0 <= i < rows@.len() ==> (#[trigger] rows@[i])@ == (BlameView {
                    commit: line_owner(views(history@), views(contents@), path@, 0, i),
                    line: line_number(i),
                    text: newest[i],
                })
        },
        r matches Ok(rows) ==> views(rows@) == blame_rows(
            views(history@),
            views(contents@),
            path@,
        ),
{
    let ghost commits = views(history@);
    let ghost files = views(contents@);
    let mut current: Vec<String> = Vec::new();
    let mut owners: Vec<GitCommitId> = Vec::new();
    let mut at: usize = history.len();
    while at > 0
        invariant
            at <= history@.len(),
            history@.len() == contents@.len(),
            commits == views(history@),
            files == views(contents@),
            !blame_fails(commits, files, path@, at as int),
            current@.len() == owners@.len(),
            at == history@.len() ==> current@.len() == 0,
            at < history@.len() ==> views(current@) == version(commits[at as int], files[at as int], path@),
            at < history@.len() ==> forall|i: int|
                0 <= i < owners@.len() ==> #[trigger] owners@[i] == line_owner(
                    commits,
                    files,
                    path@,
                    at as int,
                    i,
                ),
        decreases at,
    {
        let ghost older = views(current@);
        let k: usize = at - 1;
        let commit = &history[k];
        assert(commits[k as int] == commit@);
        assert(files[k as int] == contents@[k as int]@);
        let next = if blame_reads(commit, path) {
            match decode_text(vstd::slice::slice_to_vec(contents[k].as_slice())) {
                Some(text) => {
                    proof {
                        vstd::utf8::encode_utf8_decode_utf8(text@);
                    }
                    text_lines(text.as_str())
                },
                None => {
                    assert(blamed(commits[k as int], path@) && !valid_utf8(files[k as int]));
                    return Err(GitInspectionError::NonTextBlame);
                },
            }
        } else {
            let none: Vec<String> = Vec::new();
            assert(views(none@) =~= Seq::<Seq<char>>::empty());
            none
        };
        let ghost here = views(next@);
        let mut next_owners: Vec<GitCommitId> = Vec::new();
        let mut i: usize = 0;
        while i < next.len()
            invariant
                i <= next@.len(),
                k < history@.len(),
                at == k + 1,
                history@.len() == contents@.len(),
                commits == views(history@),
                files == views(contents@),
                commit@ == commits[k as int],
                here == views(next@),
                here == version(commits[k as int], files[k as int], path@),
                older == views(current@),
                current@.len() == owners@.len(),
                next_owners@.len() == i,
                at == history@.len() ==> current@.len() == 0,
                at < history@.len() ==> older == version(
                    commits[at as int],
                    files[at as int],
                    path@,
                ),
                at < history@.len() ==> forall|j: int|
                    0 <= j < owners@.len() ==> #[trigger] owners@[j] == line_owner(
                        commits,
                        files,
                        path@,
                        at as int,
                        j,
                    ),
                forall|j: int|
                    0 <= j < i ==> #[trigger] next_owners@[j] == line_owner(
                        commits,
                        files,
                        path@,
                        k as int,
                        j,
                    ),
            decreases next@.len() - i,
        {
            assert(here[i as int] == next@[i as int]@);
            let mut owner = commit.id;
            if i < current.len() {
                assert(older[i as int] == current@[i as int]@);
                if text_is(current[i].as_str(), next[i].as_str()) {
                    owner = owners[i];
                }
            }
            next_owners.push(owner);
            i = i + 1;
        }
        proof {
            assert forall|i: int| k <= i < commits.len() && blamed(
                #[trigger] commits[i],
                path@,
            ) implies valid_utf8(files[i]) by {
                if i >= at {
                    assert(!blame_fails(commits, files, path@, at as int));
                }
            }
        }
        current = next;
        owners = next_owners;
        at = k;
    }
    let mut rows: Vec<GitBlameLine> = Vec::new();
    let mut i: usize = 0;
    while i < current.len()
        invariant
            i <= current@.len(),
            rows@.len() == i,
            current@.len() == owners@.len(),
            history@.len() == contents@.len(),
            commits == views(history@),
            files == views(contents@),
            history@.len() > 0 ==> views(current@) == version(commits[0], files[0], path@),
            history@.len() > 0 ==> forall|j: int|
                0 <= j < owners@.len() ==> #[trigger] owners@[j] == line_owner(
                    commits,
                    files,
                    path@,
                    0,
                    j,
                ),
            history@.len() > 0 ==> forall|j: int|
                0 <= j < rows@.len() ==> (#[trigger] rows@[j])@ == (BlameView {
                    commit: line_owner(commits, files, path@, 0, j),
                    line: line_number(j),
                    text: version(commits[0], files[0], path@)[j],
                }),
        decreases current@.len() - i,
    {
        let line: u64 = if i as u64 == u64::MAX {
            u64::MAX
        } else {
            i as u64 + 1
        };
        assert(views(current@)[i as int] == current@[i as int]@);
        rows.push(GitBlameLine { commit: owners[i], line, text: current[i].clone() });
        i = i + 1;
    }
    proof {
        if history@.len() > 0 {
            assert(commits[0] == history@[0]@ && files[0] == contents@[0]@);
        }
        assert(views(rows@) =~= blame_rows(commits, files, path@));
    }
    Ok(rows)
}

/// A line whose text never changed since an older commit belongs to no commit
/// newer than that one.
pub proof fn unchanged_lines_keep_their_owner(
    history: Seq<CommitView>,
    contents: Seq<Seq<u8>>,
    path: Seq<char>,
    at: int,
    line: int,
)
    requires
        0 <= at,
        at + 1 < history.len(),
        history.len() == contents.len(),
        0 <= line < version(history[at], contents[at], path).len(),
        line < version(history[at + 1], contents[at + 1], path).len(),
        version(history[at], contents[at], path)[line] == version(
            history[at + 1],
            contents[at + 1],
            path,
        )[line],
    ensures
        line_owner(history, contents, path, at, line) == line_owner(
            history,
            contents,
            path,
            at + 1,
            line,
        ),
{
}

} // verus!
