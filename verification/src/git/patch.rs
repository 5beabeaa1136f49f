//! Unified patches.
//!
//! A patch is read line by line into files and hunks, and a file's hunks are
//! applied to its authenticated text. Nothing is guessed: a hunk applies at its
//! recorded line or not at all.

use super::paths::{back_of, front_of, trimmed};
use crate::order::{views, Replicate};
use crate::text::{
    char_lists, chars_of, decode_text, find_char, first_index, flatten, has_char, has_part,
    has_prefix, lemma_split_inclusive_flatten, occurs, parse_unsigned, same_chars, split_inclusive,
    split_lines, split_on, text_between, text_of, text_triple, unsigned_number,
};
use vstd::prelude::*;
use vstd::slice::slice_subrange;
use vstd::string::*;
use vstd::utf8::{decode_utf8, valid_utf8};

verus! {

/// Fail-closed unified-patch application error.
#[derive(Debug)]
pub enum GitPatchError {
    /// Patch bytes are not UTF-8 unified text.
    NonText,
    /// Patch syntax is incomplete or unsupported.
    Invalid(String),
    /// A hunk does not match the authenticated working generation.
    Conflict {
        /// Portable path whose preimage did not match.
        path: String,
        /// One-based source line from the hunk header.
        line: usize,
    },
}

/// Abstract value of [`GitPatchError`].
#[verifier::ext_equal]
pub enum PatchErrorView {
    /// Patch bytes are not UTF-8 unified text.
    NonText,
    /// Patch syntax is incomplete or unsupported.
    Invalid(Seq<char>),
    /// A hunk does not match the authenticated working generation.
    Conflict {
        /// Portable path whose preimage did not match.
        path: Seq<char>,
        /// One-based source line from the hunk header.
        line: usize,
    },
}

impl View for GitPatchError {
    type V = PatchErrorView;

    open spec fn view(&self) -> PatchErrorView {
        match self {
            GitPatchError::NonText => PatchErrorView::NonText,
            GitPatchError::Invalid(message) => PatchErrorView::Invalid(message@),
            GitPatchError::Conflict { path, line } => PatchErrorView::Conflict {
                path: path@,
                line: *line,
            },
        }
    }
}

/// Lines of one hunk with their prefixes.
#[derive(Debug)]
pub struct UnifiedHunk {
    /// One-based first source line.
    pub old_start: usize,
    /// Prefixed lines with their terminators.
    pub lines: Vec<Vec<char>>,
}

/// Abstract value of [`UnifiedHunk`].
#[verifier::ext_equal]
pub struct HunkView {
    /// One-based first source line.
    pub old_start: usize,
    /// Prefixed lines with their terminators.
    pub lines: Seq<Seq<char>>,
}

impl View for UnifiedHunk {
    type V = HunkView;

    open spec fn view(&self) -> HunkView {
        HunkView { old_start: self.old_start, lines: char_lists(self.lines@) }
    }
}

/// Changes to one file.
#[derive(Debug)]
pub struct UnifiedPatch {
    /// Path before the patch, or nothing for a created file.
    pub old_path: Option<String>,
    /// Path after the patch, or nothing for a deleted file.
    pub new_path: Option<String>,
    /// Hunks in order.
    pub hunks: Vec<UnifiedHunk>,
}

/// Abstract value of [`UnifiedPatch`].
#[verifier::ext_equal]
pub struct FilePatchView {
    /// Path before the patch, or nothing for a created file.
    pub old_path: Option<Seq<char>>,
    /// Path after the patch, or nothing for a deleted file.
    pub new_path: Option<Seq<char>>,
    /// Hunks in order.
    pub hunks: Seq<HunkView>,
}

/// Abstract value of an optional text.
pub open spec fn text_view(text: Option<String>) -> Option<Seq<char>> {
    match text {
        Some(text) => Some(text@),
        None => None,
    }
}

impl View for UnifiedPatch {
    type V = FilePatchView;

    open spec fn view(&self) -> FilePatchView {
        FilePatchView {
            old_path: text_view(self.old_path),
            new_path: text_view(self.new_path),
            hunks: views(self.hunks@),
        }
    }
}

/// A line without trailing carriage returns and newlines.
pub open spec fn without_terminators(line: Seq<char>) -> Seq<char>
    decreases line.len(),
{
    if line.len() > 0 && (line.last() == '\r' || line.last() == '\n') {
        without_terminators(line.drop_last())
    } else {
        line
    }
}

/// The part of a text before its first `separator`.
pub open spec fn before_first(text: Seq<char>, separator: char) -> Seq<char> {
    text.take(first_index(text, separator, 0))
}

/// A path without the prefix of either side.
pub open spec fn without_side(path: Seq<char>) -> Seq<char> {
    if "a/"@.is_prefix_of(path) || "b/"@.is_prefix_of(path) {
        path.skip(2)
    } else {
        path
    }
}

/// Whether a path component names the directory itself, its parent or nothing.
pub open spec fn escapes(component: Seq<char>) -> bool {
    component.len() == 0 || component == "."@ || component == ".."@
}

/// Whether a path stays below its root.
pub open spec fn contained(path: Seq<char>) -> bool {
    &&& path.len() > 0
    &&& !path.contains('\\')
    &&& !path.contains(':')
    &&& forall|i: int|
        0 <= i < split_on(path, '/').len() ==> !escapes(#[trigger] split_on(path, '/')[i])
}

/// The path that a header line names; nothing for the null device.
pub open spec fn header_path(line: Seq<char>, prefix: Seq<char>) -> Result<
    Option<Seq<char>>,
    PatchErrorView,
> {
    let text = without_terminators(line);
    if !prefix.is_prefix_of(text) {
        Err(PatchErrorView::Invalid("missing "@ + prefix + "header"@))
    } else {
        let value = before_first(text.skip(prefix.len() as int), '\t');
        if value == "/dev/null"@ {
            Ok(None)
        } else {
            let path = trimmed(without_side(value));
            if contained(path) {
                Ok(Some(path))
            } else {
                Err(PatchErrorView::Invalid("patch path escapes its root"@))
            }
        }
    }
}

/// Characters with the Unicode property `White_Space`.
pub open spec fn is_white(c: char) -> bool {
    let u = c as u32;
    ||| 0x09 <= u <= 0x0d
    ||| u == 0x20
    ||| u == 0x85
    ||| u == 0xa0
    ||| u == 0x1680
    ||| 0x2000 <= u <= 0x200a
    ||| u == 0x2028
    ||| u == 0x2029
    ||| u == 0x202f
    ||| u == 0x205f
    ||| u == 0x3000
}

/// A text without leading white space.
pub open spec fn after_white(text: Seq<char>) -> Seq<char>
    decreases text.len(),
{
    if text.len() > 0 && is_white(text[0]) {
        after_white(text.skip(1))
    } else {
        text
    }
}

/// The longest front of a text without white space.
pub open spec fn first_word(text: Seq<char>) -> Seq<char>
    decreases text.len(),
{
    if text.len() == 0 || is_white(text[0]) {
        Seq::empty()
    } else {
        seq![text[0]] + first_word(text.skip(1))
    }
}

/// The first source line that a hunk header names.
pub open spec fn hunk_start(line: Seq<char>) -> Result<usize, PatchErrorView> {
    if !"@@ -"@.is_prefix_of(line) || after_white(line.skip(4)).len() == 0 {
        Err(PatchErrorView::Invalid("malformed hunk header"@))
    } else {
        let range = first_word(after_white(line.skip(4)));
        match unsigned_number(before_first(range, ','), usize::MAX as nat) {
            Some(number) => Ok(number as usize),
            None => Err(PatchErrorView::Invalid("malformed hunk source range"@)),
        }
    }
}

/// A patch file as far as it was read.
#[verifier::ext_equal]
pub struct Reading {
    /// Files that are complete.
    pub files: Seq<FilePatchView>,
    /// Old path of a file whose second header is awaited.
    pub awaited: Option<Option<Seq<char>>>,
    /// Paths and hunks of the file that is read.
    pub open: Option<FilePatchView>,
    /// Hunk that is read.
    pub hunk: Option<HunkView>,
}

/// The open file with its open hunk.
pub open spec fn with_hunk(file: FilePatchView, hunk: Option<HunkView>) -> FilePatchView {
    match hunk {
        Some(hunk) => FilePatchView { hunks: file.hunks.push(hunk), ..file },
        None => file,
    }
}

/// A reading whose open file is complete.
pub open spec fn file_closed(reading: Reading) -> Result<Reading, PatchErrorView> {
    match reading.open {
        None => Ok(reading),
        Some(file) => {
            let whole = with_hunk(file, reading.hunk);
            if whole.hunks.len() == 0 {
                Err(PatchErrorView::Invalid("patch contains no hunks"@))
            } else {
                Ok(
                    Reading {
                        files: reading.files.push(whole),
                        open: None,
                        hunk: None,
                        ..reading
                    },
                )
            }
        },
    }
}

/// A hunk line whose newline the next line revokes.
pub open spec fn unterminated(line: Seq<char>) -> Seq<char> {
    if line.len() > 0 && line.last() == '\n' {
        let front = line.drop_last();
        if front.len() > 0 && front.last() == '\r' {
            front.drop_last()
        } else {
            front
        }
    } else {
        line
    }
}

/// A hunk with one more line.
pub open spec fn hunk_line(hunk: HunkView, line: Seq<char>) -> Result<HunkView, PatchErrorView> {
    if line.len() > 0 && line[0] == '\\' {
        if hunk.lines.len() == 0 {
            Err(PatchErrorView::Invalid("no-newline marker does not follow a hunk line"@))
        } else {
            let last = hunk.lines.len() - 1;
            Ok(
                HunkView {
                    lines: hunk.lines.update(last, unterminated(hunk.lines[last])),
                    ..hunk
                },
            )
        }
    } else if line.len() > 0 && (line[0] == ' ' || line[0] == '+' || line[0] == '-') {
        Ok(HunkView { lines: hunk.lines.push(line), ..hunk })
    } else {
        Err(PatchErrorView::Invalid("hunk line lacks a unified-diff prefix"@))
    }
}

/// A reading after one more line.
pub open spec fn line_read(reading: Reading, line: Seq<char>) -> Result<Reading, PatchErrorView> {
    match reading.awaited {
        Some(old_path) => match header_path(line, "+++ "@) {
            Err(error) => Err(error),
            Ok(new_path) => Ok(
                Reading {
                    awaited: None,
                    open: Some(FilePatchView { old_path, new_path, hunks: Seq::empty() }),
                    ..reading
                },
            ),
        },
        None => if "--- "@.is_prefix_of(line) {
            match file_closed(reading) {
                Err(error) => Err(error),
                Ok(closed) => match header_path(line, "--- "@) {
                    Err(error) => Err(error),
                    Ok(old_path) => Ok(Reading { awaited: Some(old_path), ..closed }),
                },
            }
        } else {
            match reading.open {
                None => Ok(reading),
                Some(file) => if "@@ "@.is_prefix_of(line) {
                    match hunk_start(line) {
                        Err(error) => Err(error),
                        Ok(old_start) => Ok(
                            Reading {
                                open: Some(with_hunk(file, reading.hunk)),
                                hunk: Some(HunkView { old_start, lines: Seq::empty() }),
                                ..reading
                            },
                        ),
                    }
                } else {
                    match reading.hunk {
                        None => Ok(reading),
                        Some(hunk) => match hunk_line(hunk, line) {
                            Err(error) => Err(error),
                            Ok(hunk) => Ok(Reading { hunk: Some(hunk), ..reading }),
                        },
                    }
                },
            }
        },
    }
}

/// A patch file before its first line.
pub open spec fn unread() -> Reading {
    Reading { files: Seq::empty(), awaited: None, open: None, hunk: None }
}

/// A reading after a list of lines.
pub open spec fn lines_read(lines: Seq<Seq<char>>) -> Result<Reading, PatchErrorView>
    decreases lines.len(),
{
    if lines.len() == 0 {
        Ok(unread())
    } else {
        match lines_read(lines.drop_last()) {
            Err(error) => Err(error),
            Ok(reading) => line_read(reading, lines.last()),
        }
    }
}

/// The files of a completely read patch.
pub open spec fn files_read(reading: Reading) -> Result<Seq<FilePatchView>, PatchErrorView> {
    if reading.awaited is Some {
        Err(PatchErrorView::Invalid("missing +++ header"@))
    } else {
        match file_closed(reading) {
            Err(error) => Err(error),
            Ok(closed) => if closed.files.len() == 0 {
                Err(PatchErrorView::Invalid("patch contains no files"@))
            } else {
                Ok(closed.files)
            },
        }
    }
}

/// The files that patch bytes describe.
pub open spec fn patch_files(bytes: Seq<u8>) -> Result<Seq<FilePatchView>, PatchErrorView> {
    if !valid_utf8(bytes) {
        Err(PatchErrorView::NonText)
    } else {
        let text = decode_utf8(bytes);
        if occurs(text, "GIT binary patch"@) {
            Err(PatchErrorView::Invalid("binary patches require a typed binary mutation"@))
        } else {
            match lines_read(split_inclusive(text)) {
                Err(error) => Err(error),
                Ok(reading) => files_read(reading),
            }
        }
    }
}

/// Text and source position while hunks are applied.
#[verifier::ext_equal]
pub struct Applying {
    /// Text produced so far.
    pub output: Seq<char>,
    /// Source lines consumed so far.
    pub cursor: int,
}

/// The conflict of a hunk with the given header line.
pub open spec fn conflict_at(path: Seq<char>, line: usize) -> PatchErrorView {
    PatchErrorView::Conflict { path, line }
}

/// The application of one line of a hunk with the given header line.
pub open spec fn line_applied(
    path: Seq<char>,
    header: usize,
    source: Seq<Seq<char>>,
    at: Applying,
    line: Seq<char>,
) -> Result<Applying, PatchErrorView> {
    if line.len() == 0 {
        Ok(at)
    } else {
        let payload = line.skip(1);
        if line[0] == ' ' || line[0] == '-' {
            if at.cursor < source.len() && source[at.cursor] == payload {
                Ok(
                    Applying {
                        output: if line[0] == ' ' {
                            at.output + payload
                        } else {
                            at.output
                        },
                        cursor: at.cursor + 1,
                    },
                )
            } else {
                Err(conflict_at(path, header))
            }
        } else if line[0] == '+' {
            Ok(Applying { output: at.output + payload, ..at })
        } else {
            Err(PatchErrorView::Invalid("unsupported hunk line prefix"@))
        }
    }
}

/// The application of hunk lines in order.
pub open spec fn lines_applied(
    path: Seq<char>,
    header: usize,
    source: Seq<Seq<char>>,
    at: Applying,
    lines: Seq<Seq<char>>,
) -> Result<Applying, PatchErrorView>
    decreases lines.len(),
{
    if lines.len() == 0 {
        Ok(at)
    } else {
        match lines_applied(path, header, source, at, lines.drop_last()) {
            Err(error) => Err(error),
            Ok(next) => line_applied(path, header, source, next, lines.last()),
        }
    }
}

/// The application of one hunk at its recorded line.
pub open spec fn hunk_applied(
    path: Seq<char>,
    source: Seq<Seq<char>>,
    at: Applying,
    hunk: HunkView,
) -> Result<Applying, PatchErrorView> {
    let start = if hunk.old_start == 0 {
        0int
    } else {
        hunk.old_start - 1
    };
    if start < at.cursor || start > source.len() {
        Err(conflict_at(path, hunk.old_start))
    } else {
        lines_applied(
            path,
            hunk.old_start,
            source,
            Applying {
                output: at.output + flatten(source.subrange(at.cursor, start)),
                cursor: start,
            },
            hunk.lines,
        )
    }
}

/// The application of hunks in order.
pub open spec fn hunks_applied(path: Seq<char>, source: Seq<Seq<char>>, hunks: Seq<HunkView>) -> Result<
    Applying,
    PatchErrorView,
>
    decreases hunks.len(),
{
    if hunks.len() == 0 {
        Ok(Applying { output: Seq::empty(), cursor: 0 })
    } else {
        match hunks_applied(path, source, hunks.drop_last()) {
            Err(error) => Err(error),
            Ok(at) => hunk_applied(path, source, at, hunks.last()),
        }
    }
}

/// The text of a file after its hunks.
pub open spec fn patched(path: Seq<char>, original: Seq<char>, hunks: Seq<HunkView>) -> Result<
    Seq<char>,
    PatchErrorView,
> {
    let source = split_inclusive(original);
    match hunks_applied(path, source, hunks) {
        Err(error) => Err(error),
        Ok(at) => Ok(at.output + flatten(source.skip(at.cursor))),
    }
}

/// A file without hunks keeps its text.
pub proof fn no_hunks_keep_text(path: Seq<char>, original: Seq<char>)
    ensures
        patched(path, original, Seq::empty()) == Ok::<Seq<char>, PatchErrorView>(original),
{
    let source = split_inclusive(original);
    assert(source.skip(0) =~= source);
    lemma_split_inclusive_flatten(original);
    assert(Seq::<char>::empty() + flatten(source) =~= original);
}


fn invalid(message: &str) -> (r: GitPatchError)
    ensures
        r@ == PatchErrorView::Invalid(message@),
{
    GitPatchError::Invalid(message.to_owned())
}

/// Length of a line without trailing carriage returns and newlines.
fn length_without_terminators(line: &[char]) -> (end: usize)
    ensures
        end <= line@.len(),
        line@.take(end as int) == without_terminators(line@),
{
    let mut end: usize = line.len();
    assert(line@.take(end as int) =~= line@);
    while end > 0 && (line[end - 1] == '\r' || line[end - 1] == '\n')
        invariant
            end <= line@.len(),
            without_terminators(line@.take(end as int)) == without_terminators(line@),
        decreases end,
    {
        assert(line@.take(end as int).drop_last() =~= line@.take(end - 1));
        end = end - 1;
    }
    end
}

fn has_text_prefix(line: &[char], prefix: &str) -> (r: bool)
    ensures
        r == prefix@.is_prefix_of(line@),
{
    let wanted = chars_of(prefix);
    has_prefix(line, wanted.as_slice())
}

fn chars_are(chars: &[char], text: &str) -> (r: bool)
    ensures
        r == (chars@ == text@),
{
    let wanted = chars_of(text);
    same_chars(chars, wanted.as_slice())
}

/// Tells whether a path stays below its root.
fn stays_contained(path: &[char]) -> (r: bool)
    ensures
        r == contained(path@),
{
    if path.len() == 0 || has_char(path, '\\') || has_char(path, ':') {
        return false;
    }
    let ghost parts = split_on(path@, '/');
    let mut start: usize = 0;
    let mut i: usize = 0;
    let ghost mut done: Seq<Seq<char>> = Seq::empty();
    proof {
        lemma_split_nonempty(path@);
        assert(path@.subrange(0, 0) =~= Seq::<char>::empty());
        assert(split_on(path@.take(0), '/') =~= done.push(path@.subrange(0, 0)));
    }
    while i < path.len()
        invariant
            start <= i <= path@.len(),
            split_on(path@.take(i as int), '/') == done.push(
                path@.subrange(start as int, i as int),
            ),
            forall|k: int| 0 <= k < done.len() ==> !escapes(#[trigger] done[k]),
            parts == split_on(path@, '/'),
            done.len() < parts.len(),
            forall|k: int| 0 <= k < done.len() ==> parts[k] == done[k],
            path@.len() > 0,
            !path@.contains('\\'),
            !path@.contains(':'),
        decreases path@.len() - i,
    {
        proof {
            let next = path@.take(i + 1);
            assert(next.drop_last() =~= path@.take(i as int));
            assert(next.last() == path@[i as int]);
            assert(done.push(path@.subrange(start as int, i as int)).drop_last() =~= done);
            assert(path@.subrange(start as int, i + 1) =~= path@.subrange(
                start as int,
                i as int,
            ).push(path@[i as int]));
        }
        if path[i] == '/' {
            let component = slice_subrange(path, start, i);
            proof {
                lemma_split_extends(path@, i + 1);
                let so_far = split_on(path@.take(i + 1), '/');
                assert(so_far =~= done.push(component@).push(Seq::<char>::empty()));
                assert(so_far[done.len() as int] == component@);
            }
            if component.len() == 0 || chars_are(component, ".") || chars_are(component, "..") {
                assert(escapes(parts[done.len() as int]));
                return false;
            }
            proof {
                done = done.push(component@);
                assert(path@.subrange(i + 1, i + 1) =~= Seq::<char>::empty());
            }
            start = i + 1;
        }
        i = i + 1;
    }
    let component = slice_subrange(path, start, i);
    proof {
        assert(path@.take(i as int) =~= path@);
        assert(parts == done.push(component@));
        assert(parts[done.len() as int] == component@);
    }
    if component.len() == 0 || chars_are(component, ".") || chars_are(component, "..") {
        assert(escapes(parts[done.len() as int]));
        return false;
    }
    true
}

/// Components that are closed by a separator stay as they are.
proof fn lemma_split_extends(path: Seq<char>, n: int)
    requires
        0 < n <= path.len(),
    ensures
        split_on(path.take(n), '/').len() > 0,
        split_on(path, '/').len() >= split_on(path.take(n), '/').len(),
        forall|k: int|
            0 <= k < split_on(path.take(n), '/').len() - 1 ==> #[trigger] split_on(path, '/')[k]
                == split_on(path.take(n), '/')[k],
    decreases path.len() - n,
{
    lemma_split_nonempty(path.take(n));
    if n == path.len() {
        assert(path.take(n) =~= path);
    } else {
        lemma_split_extends(path, n + 1);
        lemma_split_nonempty(path.take(n + 1));
        let longer = path.take(n + 1);
        assert(longer.drop_last() =~= path.take(n));
        let front = split_on(path.take(n), '/');
        assert forall|k: int| 0 <= k < front.len() - 1 implies #[trigger] split_on(path, '/')[k]
            == front[k] by {
            assert(split_on(longer, '/')[k] == front[k]);
        }
    }
}

proof fn lemma_split_nonempty(path: Seq<char>)
    ensures
        split_on(path, '/').len() > 0,
    decreases path.len(),
{
    if path.len() > 0 {
        lemma_split_nonempty(path.drop_last());
    }
}

/// Parses the path of a header line.
fn parse_patch_path(line: &[char], prefix: &str) -> (r: Result<Option<String>, GitPatchError>)
    ensures
        header_path(line@, prefix@) == match r {
            Ok(path) => Ok::<Option<Seq<char>>, PatchErrorView>(text_view(path)),
            Err(error) => Err(error@),
        },
{
    let end = length_without_terminators(line);
    let text = slice_subrange(line, 0, end);
    assert(text@ =~= line@.take(end as int));
    let marker = chars_of(prefix);
    if !has_prefix(text, marker.as_slice()) {
        return Err(GitPatchError::Invalid(text_triple("missing ", prefix, "header")));
    }
    let rest = slice_subrange(text, marker.len(), text.len());
    assert(rest@ =~= text@.skip(prefix@.len() as int));
    let tab = find_char(rest, '\t', 0);
    let value = slice_subrange(rest, 0, tab);
    assert(value@ =~= before_first(rest@, '\t'));
    if chars_are(value, "/dev/null") {
        return Ok(None);
    }
    let sided = has_text_prefix(value, "a/") || has_text_prefix(value, "b/");
    proof {
        reveal_strlit("a/");
        reveal_strlit("b/");
    }
    let path = if sided {
        slice_subrange(value, 2, value.len())
    } else {
        value
    };
    assert(path@ =~= without_side(value@));
    let start = front_of(path);
    let stop = back_of(path, start);
    let inner = slice_subrange(path, start, stop);
    assert(inner@ == trimmed(path@));
    if stays_contained(inner) {
        Ok(Some(text_of(inner)))
    } else {
        Err(invalid("patch path escapes its root"))
    }
}

fn white(c: char) -> (r: bool)
    ensures
        r == is_white(c),
{
    let u = c as u32;
    (u >= 0x09 && u <= 0x0d) || u == 0x20 || u == 0x85 || u == 0xa0 || u == 0x1680 || (u >= 0x2000
        && u <= 0x200a) || u == 0x2028 || u == 0x2029 || u == 0x202f || u == 0x205f || u == 0x3000
}

/// Parses the first source line of a hunk header.
fn parse_hunk_old_start(line: &[char]) -> (r: Result<usize, GitPatchError>)
    ensures
        hunk_start(line@) == match r {
            Ok(start) => Ok::<usize, PatchErrorView>(start),
            Err(error) => Err(error@),
        },
{
    proof {
        reveal_strlit("@@ -");
    }
    if !has_text_prefix(line, "@@ -") {
        return Err(invalid("malformed hunk header"));
    }
    let mut start: usize = 4;
    while start < line.len() && white(line[start])
        invariant
            4 <= start <= line@.len(),
            after_white(line@.skip(start as int)) == after_white(line@.skip(4)),
        decreases line@.len() - start,
    {
        assert(line@.skip(start as int).skip(1) =~= line@.skip(start + 1));
        start = start + 1;
    }
    if start == line.len() {
        return Err(invalid("malformed hunk header"));
    }
    let mut stop: usize = start;
    assert(line@.subrange(start as int, stop as int) + first_word(line@.skip(stop as int))
        =~= first_word(line@.skip(start as int)));
    while stop < line.len() && !white(line[stop])
        invariant
            start <= stop <= line@.len(),
            line@.subrange(start as int, stop as int) + first_word(line@.skip(stop as int))
                == first_word(line@.skip(start as int)),
        decreases line@.len() - stop,
    {
        proof {
            let rest = line@.skip(stop as int);
            assert(rest.skip(1) =~= line@.skip(stop + 1));
            assert(line@.subrange(start as int, stop as int) + (seq![rest[0]] + first_word(
                rest.skip(1),
            )) =~= line@.subrange(start as int, stop + 1) + first_word(line@.skip(stop + 1)));
        }
        stop = stop + 1;
    }
    let range = slice_subrange(line, start, stop);
    assert(range@ =~= first_word(line@.skip(start as int)));
    let comma = find_char(range, ',', 0);
    let digits = slice_subrange(range, 0, comma);
    assert(digits@ =~= before_first(range@, ','));
    match parse_unsigned(digits, usize::MAX as u64) {
        Some(number) => Ok(number as usize),
        None => Err(invalid("malformed hunk source range")),
    }
}

/// A patch file as far as it was read.
struct PatchReader {
    files: Vec<UnifiedPatch>,
    awaited: Option<Option<String>>,
    open: Option<UnifiedPatch>,
    hunk: Option<UnifiedHunk>,
}

impl View for PatchReader {
    type V = Reading;

    closed spec fn view(&self) -> Reading {
        Reading {
            files: views(self.files@),
            awaited: match self.awaited {
                Some(path) => Some(text_view(path)),
                None => None,
            },
            open: match self.open {
                Some(file) => Some(file@),
                None => None,
            },
            hunk: match self.hunk {
                Some(hunk) => Some(hunk@),
                None => None,
            },
        }
    }
}

/// Completes an open file with its open hunk.
fn join_hunk(file: UnifiedPatch, hunk: Option<UnifiedHunk>) -> (r: UnifiedPatch)
    ensures
        r@ == with_hunk(
            file@,
            match hunk {
                Some(hunk) => Some(hunk@),
                None => None,
            },
        ),
{
    let mut file = file;
    if let Some(hunk) = hunk {
        let ghost before = views(file.hunks@);
        let ghost added = hunk@;
        file.hunks.push(hunk);
        assert(views(file.hunks@) =~= before.push(added));
    }
    file
}

fn extend_hunk(hunk: UnifiedHunk, line: &Vec<char>) -> (r: Result<UnifiedHunk, GitPatchError>)
    ensures
        hunk_line(hunk@, line@) == match r {
            Ok(hunk) => Ok::<HunkView, PatchErrorView>(hunk@),
            Err(error) => Err(error@),
        },
{
    let mut hunk = hunk;
    let ghost before = hunk@;
    assert(before.lines.len() == hunk.lines@.len());
    if line.len() > 0 && line[0] == '\\' {
        let count = hunk.lines.len();
        if count == 0 {
            return Err(invalid("no-newline marker does not follow a hunk line"));
        }
        let last = &hunk.lines[count - 1];
        let ghost held = last@;
        assert(held == before.lines[count - 1]);
        let mut end: usize = last.len();
        if end > 0 && last[end - 1] == '\n' {
            end = end - 1;
            if end > 0 && last[end - 1] == '\r' {
                end = end - 1;
            }
        }
        let kept = vstd::slice::slice_to_vec(slice_subrange(last.as_slice(), 0, end));
        assert(kept@ =~= unterminated(held));
        hunk.lines.set(count - 1, kept);
        assert(hunk@.lines =~= before.lines.update(count - 1, unterminated(held)));
        Ok(hunk)
    } else if line.len() > 0 && (line[0] == ' ' || line[0] == '+' || line[0] == '-') {
        hunk.lines.push(vstd::slice::slice_to_vec(line.as_slice()));
        assert(hunk@.lines =~= before.lines.push(line@));
        Ok(hunk)
    } else {
        Err(invalid("hunk line lacks a unified-diff prefix"))
    }
}

impl PatchReader {
    fn close_file(self) -> (r: Result<PatchReader, GitPatchError>)
        ensures
            file_closed(self@) == match r {
                Ok(reader) => Ok::<Reading, PatchErrorView>(reader@),
                Err(error) => Err(error@),
            },
    {
        let PatchReader { files: mut files, awaited, open, hunk } = self;
        match open {
            None => Ok(PatchReader { files, awaited, open: None, hunk }),
            Some(file) => {
                let whole = join_hunk(file, hunk);
                assert(whole@.hunks.len() == whole.hunks@.len());
                if whole.hunks.len() == 0 {
                    return Err(invalid("patch contains no hunks"));
                }
                let ghost before = views(files@);
                let ghost added = whole@;
                files.push(whole);
                assert(views(files@) =~= before.push(added));
                Ok(PatchReader { files, awaited, open: None, hunk: None })
            },
        }
    }

    fn read_line(self, line: &Vec<char>) -> (r: Result<PatchReader, GitPatchError>)
        ensures
            line_read(self@, line@) == match r {
                Ok(reader) => Ok::<Reading, PatchErrorView>(reader@),
                Err(error) => Err(error@),
            },
    {
        if let Some(old_path) = self.awaited {
            return match parse_patch_path(line.as_slice(), "+++ ") {
                Err(error) => Err(error),
                Ok(new_path) => {
                    let file = UnifiedPatch { old_path, new_path, hunks: Vec::new() };
                    assert(file@.hunks =~= Seq::<HunkView>::empty());
                    Ok(
                        PatchReader {
                            files: self.files,
                            awaited: None,
                            open: Some(file),
                            hunk: self.hunk,
                        },
                    )
                },
            };
        }
        if has_text_prefix(line.as_slice(), "--- ") {
            return match self.close_file() {
                Err(error) => Err(error),
                Ok(closed) => match parse_patch_path(line.as_slice(), "--- ") {
                    Err(error) => Err(error),
                    Ok(old_path) => Ok(
                        PatchReader {
                            files: closed.files,
                            awaited: Some(old_path),
                            open: closed.open,
                            hunk: closed.hunk,
                        },
                    ),
                },
            };
        }
        let PatchReader { files, awaited, open, hunk } = self;
        let file = match open {
            None => return Ok(PatchReader { files, awaited, open: None, hunk }),
            Some(file) => file,
        };
        if has_text_prefix(line.as_slice(), "@@ ") {
            return match parse_hunk_old_start(line.as_slice()) {
                Err(error) => Err(error),
                Ok(old_start) => {
                    let whole = join_hunk(file, hunk);
                    let fresh = UnifiedHunk { old_start, lines: Vec::new() };
                    assert(fresh@.lines =~= Seq::<Seq<char>>::empty());
                    Ok(PatchReader { files, awaited, open: Some(whole), hunk: Some(fresh) })
                },
            };
        }
        match hunk {
            None => Ok(PatchReader { files, awaited, open: Some(file), hunk: None }),
            Some(hunk) => match extend_hunk(hunk, line) {
                Err(error) => Err(error),
                Ok(hunk) => Ok(
                    PatchReader { files, awaited, open: Some(file), hunk: Some(hunk) },
                ),
            },
        }
    }
}

/// Parses the files of a unified patch.
pub fn parse_unified_patch(bytes: &[u8]) -> (r: Result<Vec<UnifiedPatch>, GitPatchError>)
    ensures
        patch_files(bytes@) == match r {
            Ok(files) => Ok::<Seq<FilePatchView>, PatchErrorView>(views(files@)),
            Err(error) => Err(error@),
        },
{
    let text = match decode_text(vstd::slice::slice_to_vec(bytes)) {
        None => return Err(GitPatchError::NonText),
        Some(text) => text,
    };
    proof {
        vstd::utf8::encode_utf8_decode_utf8(text@);
    }
    let chars = chars_of(text.as_str());
    let marker = chars_of("GIT binary patch");
    if has_part(chars.as_slice(), marker.as_slice()) {
        return Err(invalid("binary patches require a typed binary mutation"));
    }
    let lines = split_lines(chars.as_slice());
    let ghost all = split_inclusive(text@);
    assert(char_lists(lines@).len() == lines@.len());
    let mut reader = PatchReader {
        files: Vec::new(),
        awaited: None,
        open: None,
        hunk: None,
    };
    assert(reader@.files =~= Seq::<FilePatchView>::empty());
    let mut i: usize = 0;
    while i < lines.len()
        invariant
            i <= lines@.len(),
            char_lists(lines@) == all,
            all == split_inclusive(text@),
            all.len() == lines@.len(),
            lines_read(all.take(i as int)) == Ok::<Reading, PatchErrorView>(reader@),
            text@ == decode_utf8(bytes@),
            valid_utf8(bytes@),
            !occurs(text@, "GIT binary patch"@),
        decreases lines@.len() - i,
    {
        proof {
            assert(all.take(i + 1).drop_last() =~= all.take(i as int));
            assert(all.take(i + 1).last() == all[i as int]);
            assert(lines@[i as int]@ == char_lists(lines@)[i as int]);
        }
        match reader.read_line(&lines[i]) {
            Err(error) => {
                proof {
                    lemma_read_error(all, i + 1, error@);
                }
                return Err(error);
            },
            Ok(next) => {
                reader = next;
            },
        }
        i = i + 1;
    }
    assert(all.take(i as int) =~= all);
    if reader.awaited.is_some() {
        return Err(invalid("missing +++ header"));
    }
    match reader.close_file() {
        Err(error) => Err(error),
        Ok(closed) => {
            assert(closed@.files.len() == closed.files@.len());
            if closed.files.len() == 0 {
                Err(invalid("patch contains no files"))
            } else {
                Ok(closed.files)
            }
        },
    }
}

proof fn lemma_read_error(lines: Seq<Seq<char>>, n: int, error: PatchErrorView)
    requires
        0 <= n <= lines.len(),
        lines_read(lines.take(n)) == Err::<Reading, PatchErrorView>(error),
    ensures
        lines_read(lines) == Err::<Reading, PatchErrorView>(error),
    decreases lines.len() - n,
{
    if n < lines.len() {
        assert(lines.take(n + 1).drop_last() =~= lines.take(n));
        lemma_read_error(lines, n + 1, error);
    } else {
        assert(lines.take(n) =~= lines);
    }
}

fn append_lines(output: &mut Vec<char>, source: &Vec<Vec<char>>, from: usize, to: usize)
    requires
        from <= to <= source@.len(),
    ensures
        final(output)@ == old(output)@ + flatten(
            char_lists(source@).subrange(from as int, to as int),
        ),
{
    let ghost all = char_lists(source@);
    let ghost base = output@;
    let mut i: usize = from;
    assert(base + flatten(all.subrange(from as int, from as int)) =~= base);
    while i < to
        invariant
            from <= i <= to <= source@.len(),
            all == char_lists(source@),
            output@ == base + flatten(all.subrange(from as int, i as int)),
        decreases to - i,
    {
        output.extend_from_slice(source[i].as_slice());
        proof {
            let next = all.subrange(from as int, i + 1);
            assert(next.drop_last() =~= all.subrange(from as int, i as int));
            assert(next.last() == all[i as int]);
            assert(output@ =~= base + flatten(next));
        }
        i = i + 1;
    }
}

/// Applies one hunk line.
fn apply_line(
    path: &str,
    header: usize,
    source: &Vec<Vec<char>>,
    output: &mut Vec<char>,
    cursor: usize,
    line: &Vec<char>,
) -> (r: Result<usize, GitPatchError>)
    requires
        cursor <= source@.len(),
    ensures
        match r {
            Ok(next) => next <= source@.len() && line_applied(
                path@,
                header,
                char_lists(source@),
                Applying { output: old(output)@, cursor: cursor as int },
                line@,
            ) == Ok::<Applying, PatchErrorView>(
                Applying { output: final(output)@, cursor: next as int },
            ),
            Err(error) => line_applied(
                path@,
                header,
                char_lists(source@),
                Applying { output: old(output)@, cursor: cursor as int },
                line@,
            ) == Err::<Applying, PatchErrorView>(error@),
        },
{
    if line.len() == 0 {
        return Ok(cursor);
    }
    let ghost base = output@;
    let payload = slice_subrange(line.as_slice(), 1, line.len());
    assert(payload@ =~= line@.skip(1));
    let prefix = line[0];
    if prefix == ' ' || prefix == '-' {
        if cursor == source.len() || !same_chars(source[cursor].as_slice(), payload) {
            return Err(GitPatchError::Conflict { path: path.to_owned(), line: header });
        }
        if prefix == ' ' {
            output.extend_from_slice(payload);
            assert(output@ =~= base + payload@);
        }
        Ok(cursor + 1)
    } else if prefix == '+' {
        output.extend_from_slice(payload);
        assert(output@ =~= base + payload@);
        Ok(cursor)
    } else {
        Err(invalid("unsupported hunk line prefix"))
    }
}

/// Applies one hunk at its recorded line.
fn apply_hunk(
    path: &str,
    source: &Vec<Vec<char>>,
    output: &mut Vec<char>,
    cursor: usize,
    hunk: &UnifiedHunk,
) -> (r: Result<usize, GitPatchError>)
    requires
        cursor <= source@.len(),
    ensures
        match r {
            Ok(next) => next <= source@.len() && hunk_applied(
                path@,
                char_lists(source@),
                Applying { output: old(output)@, cursor: cursor as int },
                hunk@,
            ) == Ok::<Applying, PatchErrorView>(
                Applying { output: final(output)@, cursor: next as int },
            ),
            Err(error) => hunk_applied(
                path@,
                char_lists(source@),
                Applying { output: old(output)@, cursor: cursor as int },
                hunk@,
            ) == Err::<Applying, PatchErrorView>(error@),
        },
{
    let start: usize = if hunk.old_start == 0 {
        0
    } else {
        hunk.old_start - 1
    };
    if start < cursor || start > source.len() {
        return Err(GitPatchError::Conflict { path: path.to_owned(), line: hunk.old_start });
    }
    append_lines(output, source, cursor, start);
    let ghost all = char_lists(source@);
    let ghost first = Applying { output: output@, cursor: start as int };
    let ghost lines = char_lists(hunk.lines@);
    let mut at: usize = start;
    let mut i: usize = 0;
    assert(lines.len() == hunk.lines@.len());
    assert(lines.take(0) =~= Seq::<Seq<char>>::empty());
    while i < hunk.lines.len()
        invariant
            i <= hunk.lines@.len(),
            at <= source@.len(),
            all == char_lists(source@),
            lines == char_lists(hunk.lines@),
            lines.len() == hunk.lines@.len(),
            lines_applied(path@, hunk.old_start, all, first, lines.take(i as int)) == Ok::<
                Applying,
                PatchErrorView,
            >(Applying { output: output@, cursor: at as int }),
            hunk_applied(
                path@,
                all,
                Applying { output: old(output)@, cursor: cursor as int },
                hunk@,
            ) == lines_applied(path@, hunk.old_start, all, first, lines),
        decreases hunk.lines@.len() - i,
    {
        proof {
            assert(lines.take(i + 1).drop_last() =~= lines.take(i as int));
            assert(lines.take(i + 1).last() == lines[i as int]);
            assert(hunk.lines@[i as int]@ == lines[i as int]);
        }
        match apply_line(path, hunk.old_start, source, output, at, &hunk.lines[i]) {
            Err(error) => {
                proof {
                    lemma_lines_error(path@, hunk.old_start, all, first, lines, i + 1, error@);
                }
                return Err(error);
            },
            Ok(next) => {
                at = next;
            },
        }
        i = i + 1;
    }
    assert(lines.take(i as int) =~= lines);
    Ok(at)
}

proof fn lemma_lines_error(
    path: Seq<char>,
    header: usize,
    source: Seq<Seq<char>>,
    at: Applying,
    lines: Seq<Seq<char>>,
    n: int,
    error: PatchErrorView,
)
    requires
        0 <= n <= lines.len(),
        lines_applied(path, header, source, at, lines.take(n)) == Err::<Applying, PatchErrorView>(error),
    ensures
        lines_applied(path, header, source, at, lines) == Err::<Applying, PatchErrorView>(error),
    decreases lines.len() - n,
{
    if n < lines.len() {
        assert(lines.take(n + 1).drop_last() =~= lines.take(n));
        lemma_lines_error(path, header, source, at, lines, n + 1, error);
    } else {
        assert(lines.take(n) =~= lines);
    }
}

proof fn lemma_hunks_error(
    path: Seq<char>,
    source: Seq<Seq<char>>,
    hunks: Seq<HunkView>,
    n: int,
    error: PatchErrorView,
)
    requires
        0 <= n <= hunks.len(),
        hunks_applied(path, source, hunks.take(n)) == Err::<Applying, PatchErrorView>(error),
    ensures
        hunks_applied(path, source, hunks) == Err::<Applying, PatchErrorView>(error),
    decreases hunks.len() - n,
{
    if n < hunks.len() {
        assert(hunks.take(n + 1).drop_last() =~= hunks.take(n));
        lemma_hunks_error(path, source, hunks, n + 1, error);
    } else {
        assert(hunks.take(n) =~= hunks);
    }
}

/// Applies hunks to the text of a file.
pub fn apply_unified_hunks(path: &str, original: &str, hunks: &Vec<UnifiedHunk>) -> (r: Result<
    String,
    GitPatchError,
>)
    ensures
        patched(path@, original@, views(hunks@)) == match r {
            Ok(text) => Ok::<Seq<char>, PatchErrorView>(text@),
            Err(error) => Err(error@),
        },
{
    let chars = chars_of(original);
    let source = split_lines(chars.as_slice());
    let ghost all = char_lists(source@);
    let ghost list = views(hunks@);
    assert(all.len() == source@.len());
    let mut output: Vec<char> = Vec::new();
    let mut cursor: usize = 0;
    let mut i: usize = 0;
    assert(list.take(0) =~= Seq::<HunkView>::empty());
    while i < hunks.len()
        invariant
            i <= hunks@.len(),
            cursor <= source@.len(),
            all == char_lists(source@),
            all == split_inclusive(original@),
            list == views(hunks@),
            hunks_applied(path@, all, list.take(i as int)) == Ok::<Applying, PatchErrorView>(
                Applying { output: output@, cursor: cursor as int },
            ),
        decreases hunks@.len() - i,
    {
        proof {
            assert(list.take(i + 1).drop_last() =~= list.take(i as int));
            assert(list.take(i + 1).last() == list[i as int]);
        }
        match apply_hunk(path, &source, &mut output, cursor, &hunks[i]) {
            Err(error) => {
                proof {
                    lemma_hunks_error(path@, all, list, i + 1, error@);
                }
                return Err(error);
            },
            Ok(next) => {
                cursor = next;
            },
        }
        i = i + 1;
    }
    assert(list.take(i as int) =~= list);
    append_lines(&mut output, &source, cursor, source.len());
    assert(all.subrange(cursor as int, all.len() as int) =~= all.skip(cursor as int));
    Ok(text_of(output.as_slice()))
}

/// What a patched file asks of the workspace.
#[derive(Debug, PartialEq, Eq)]
pub enum GitPatchEffect {
    /// Remove the file.
    Remove {
        /// Portable path.
        path: String,
    },
    /// Create missing parents and write the file.
    Write {
        /// Parent directory, unless the file is at the root.
        parent: Option<String>,
        /// Portable path.
        path: String,
        /// Complete replacement text.
        text: String,
    },
}

/// Abstract value of [`GitPatchEffect`].
#[verifier::ext_equal]
pub enum PatchEffectView {
    /// Remove the file.
    Remove {
        /// Portable path.
        path: Seq<char>,
    },
    /// Create missing parents and write the file.
    Write {
        /// Parent directory, unless the file is at the root.
        parent: Option<Seq<char>>,
        /// Portable path.
        path: Seq<char>,
        /// Complete replacement text.
        text: Seq<char>,
    },
}

impl View for GitPatchEffect {
    type V = PatchEffectView;

    open spec fn view(&self) -> PatchEffectView {
        match self {
            GitPatchEffect::Remove { path } => PatchEffectView::Remove { path: path@ },
            GitPatchEffect::Write { parent, path, text } => PatchEffectView::Write {
                parent: text_view(*parent),
                path: path@,
                text: text@,
            },
        }
    }
}

/// The path that a file patch is about.
pub open spec fn patch_path(file: FilePatchView) -> Option<Seq<char>> {
    match file.new_path {
        Some(path) => Some(path),
        None => file.old_path,
    }
}

/// The part of a path before its last slash.
pub open spec fn parent_of(path: Seq<char>) -> Option<Seq<char>>
    decreases path.len(),
{
    if path.len() == 0 {
        None
    } else if path.last() == '/' {
        Some(path.drop_last())
    } else {
        parent_of(path.drop_last())
    }
}

/// What a file patch asks of the workspace, given the bytes of the file that
/// it changes.
pub open spec fn patch_effect(file: FilePatchView, contents: Seq<u8>) -> Result<
    PatchEffectView,
    PatchErrorView,
> {
    match patch_path(file) {
        None => Err(PatchErrorView::Invalid("patch has no path"@)),
        Some(path) => if file.old_path is Some && !valid_utf8(contents) {
            Err(PatchErrorView::NonText)
        } else {
            let original = if file.old_path is None {
                Seq::<char>::empty()
            } else {
                decode_utf8(contents)
            };
            match patched(path, original, file.hunks) {
                Err(error) => Err(error),
                Ok(text) => if file.new_path is None {
                    if text.len() > 0 {
                        Err(PatchErrorView::Invalid("deleted-file patch leaves content"@))
                    } else {
                        Ok(PatchEffectView::Remove { path })
                    }
                } else {
                    Ok(PatchEffectView::Write { parent: parent_of(path), path, text })
                },
            }
        },
    }
}

/// Finds the part of a path before its last slash.
pub fn parent_path(path: &str) -> (r: Option<String>)
    ensures
        text_view(r) == parent_of(path@),
{
    let chars = chars_of(path);
    let mut end: usize = chars.len();
    assert(chars@.take(end as int) =~= chars@);
    while end > 0
        invariant
            end <= chars@.len(),
            chars@ == path@,
            parent_of(path@) == parent_of(chars@.take(end as int)),
        decreases end,
    {
        assert(chars@.take(end as int).drop_last() =~= chars@.take(end - 1));
        if chars[end - 1] == '/' {
            assert(chars@.subrange(0, end - 1) =~= chars@.take(end - 1));
            return Some(text_between(chars.as_slice(), 0, end - 1));
        }
        end = end - 1;
    }
    None
}

impl UnifiedPatch {
    /// The path that the patch is about.
    pub fn path(&self) -> (r: Option<&String>)
        ensures
            match r {
                Some(path) => patch_path(self@) == Some(path@),
                None => patch_path(self@) is None,
            },
    {
        match &self.new_path {
            Some(path) => Some(path),
            None => self.old_path.as_ref(),
        }
    }

    /// Decides what the patch asks of the workspace. `contents` are the bytes
    /// of the patched file; they are not looked at where it is created.
    pub fn effect(&self, contents: &[u8]) -> (r: Result<GitPatchEffect, GitPatchError>)
        ensures
            patch_effect(self@, contents@) == match r {
                Ok(effect) => Ok::<PatchEffectView, PatchErrorView>(effect@),
                Err(error) => Err(error@),
            },
    {
        let path = match self.path() {
            None => return Err(invalid("patch has no path")),
            Some(path) => path,
        };
        let original = if self.old_path.is_none() {
            String::new()
        } else {
            match decode_text(vstd::slice::slice_to_vec(contents)) {
                None => return Err(GitPatchError::NonText),
                Some(text) => text,
            }
        };
        proof {
            vstd::utf8::encode_utf8_decode_utf8(original@);
        }
        match apply_unified_hunks(path.as_str(), original.as_str(), &self.hunks) {
            Err(error) => Err(error),
            Ok(text) => {
                if self.new_path.is_none() {
                    if !text.as_str().is_empty() {
                        Err(invalid("deleted-file patch leaves content"))
                    } else {
                        Ok(GitPatchEffect::Remove { path: path.clone() })
                    }
                } else {
                    Ok(
                        GitPatchEffect::Write {
                            parent: parent_path(path.as_str()),
                            path: path.clone(),
                            text,
                        },
                    )
                }
            },
        }
    }
}

} // verus!
