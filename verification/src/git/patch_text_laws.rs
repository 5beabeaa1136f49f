//! What the text of a patch says.

use super::patch::{
    after_white, before_first, contained, file_closed, first_word, header_path, hunk_line,
    hunk_start, is_white, line_read, lines_read, parent_of, patch_effect, patch_files, patched,
    unread, with_hunk, without_side, without_terminators, FilePatchView, HunkView, PatchEffectView,
    PatchErrorView, Reading,
};
use super::paths::{trim_back, trim_front};
use crate::text::{
    are_lines, decimal, decimals_read_back, first_index, flatten, lemma_decimal, lemma_first_index,
    lines_are_found_again, occurs, split_on,
};
use vstd::prelude::*;
use vstd::string::*;
use vstd::utf8::{decode_utf8, encode_utf8, valid_utf8};

verus! {

/// Whether a text is one line: a newline stands at its end and nowhere else.
pub open spec fn is_line(line: Seq<char>) -> bool {
    &&& line.len() > 0
    &&& line.last() == '\n'
    &&& forall|i: int| 0 <= i < line.len() - 1 ==> #[trigger] line[i] != '\n'
}

/// Whether a path can be written into a header: it stays below its root and holds no
/// character that ends a header.
pub open spec fn path_fits(path: Seq<char>) -> bool {
    &&& contained(path)
    &&& path[0] != '/'
    &&& path.last() != '/'
    &&& forall|i: int|
        0 <= i < path.len() ==> #[trigger] path[i] != '\n' && path[i] != '\r' && path[i] != '\t'
}

/// Whether a line can be written into a hunk: it is context, an addition or a deletion, and
/// not taken for a header.
pub open spec fn line_fits(line: Seq<char>) -> bool {
    &&& is_line(line)
    &&& line[0] == ' ' || line[0] == '+' || line[0] == '-'
    &&& !"--- "@.is_prefix_of(line)
}

/// Whether a patch of one file can be written: its paths and lines can, and it has a hunk.
pub open spec fn file_fits(file: FilePatchView) -> bool {
    &&& file.old_path matches Some(path) ==> path_fits(path)
    &&& file.new_path matches Some(path) ==> path_fits(path)
    &&& file.hunks.len() > 0
    &&& forall|i: int, j: int|
        0 <= i < file.hunks.len() && 0 <= j < file.hunks[i].lines.len() ==> line_fits(
            #[trigger] file.hunks[i].lines[j],
        )
}

/// The header line of one side of a file.
pub open spec fn header_text(mark: Seq<char>, side: Seq<char>, path: Option<Seq<char>>) -> Seq<
    char,
> {
    mark + (match path {
        Some(path) => side + path,
        None => "/dev/null"@,
    }) + seq!['\n']
}

/// The header line of a hunk.
pub open spec fn hunk_text(start: usize) -> Seq<char> {
    "@@ -"@ + decimal(start as nat) + " @@\n"@
}

/// The lines of hunks.
pub open spec fn hunk_lines(hunks: Seq<HunkView>) -> Seq<Seq<char>>
    decreases hunks.len(),
{
    if hunks.len() == 0 {
        Seq::empty()
    } else {
        hunk_lines(hunks.drop_last()).push(hunk_text(hunks.last().old_start)) + hunks.last().lines
    }
}

/// The lines of a patch of one file.
pub open spec fn file_lines(file: FilePatchView) -> Seq<Seq<char>> {
    seq![
        header_text("--- "@, "a/"@, file.old_path),
        header_text("+++ "@, "b/"@, file.new_path),
    ] + hunk_lines(file.hunks)
}

/// The lines of a patch.
pub open spec fn patch_lines(files: Seq<FilePatchView>) -> Seq<Seq<char>>
    decreases files.len(),
{
    if files.len() == 0 {
        Seq::empty()
    } else {
        patch_lines(files.drop_last()) + file_lines(files.last())
    }
}

proof fn lemma_first_of(text: Seq<char>, rest: Seq<char>, wanted: char)
    requires
        forall|i: int| 0 <= i < text.len() ==> #[trigger] text[i] != wanted,
        rest.len() == 0 || rest[0] == wanted,
    ensures
        before_first(text + rest, wanted) == text,
{
    let whole = text + rest;
    lemma_first_index(whole, wanted, 0);
    let at = first_index(whole, wanted, 0);
    if at < text.len() {
        assert(whole[at] == text[at]);
    }
    if at > text.len() {
        assert(whole[text.len() as int] == rest[0]);
    }
    assert(whole.take(at) =~= text);
}

proof fn lemma_header(mark: Seq<char>, side: Seq<char>, path: Option<Seq<char>>)
    requires
        mark == "--- "@ || mark == "+++ "@,
        side == "a/"@ || side == "b/"@,
        path matches Some(path) ==> path_fits(path),
    ensures
        header_path(header_text(mark, side, path), mark) == Ok::<
            Option<Seq<char>>,
            PatchErrorView,
        >(path),
        is_line(header_text(mark, side, path)),
        mark.is_prefix_of(header_text(mark, side, path)),
{
    reveal_strlit("--- ");
    reveal_strlit("+++ ");
    reveal_strlit("a/");
    reveal_strlit("b/");
    reveal_strlit("/dev/null");
    let line = header_text(mark, side, path);
    let value = match path {
        Some(path) => side + path,
        None => "/dev/null"@,
    };
    let text = mark + value;
    assert(line =~= text.push('\n'));
    assert(line.drop_last() =~= text);
    assert(line.subrange(0, mark.len() as int) =~= mark);
    assert(text.subrange(0, mark.len() as int) =~= mark);
    assert(text.skip(mark.len() as int) =~= value);
    let none = Seq::<char>::empty();
    assert(value + none =~= value);
    match path {
        None => {
            assert forall|i: int| 0 <= i < value.len() implies #[trigger] value[i] != '\t'
                && value[i] != '\n' by {
                assert(i == 0 || i == 1 || i == 2 || i == 3 || i == 4 || i == 5 || i == 6 || i == 7
                    || i == 8);
            }
            assert(text.last() == value[8]);
            assert(without_terminators(text) == text);
            lemma_first_of(value, none, '\t');
        },
        Some(path) => {
            assert(text.last() == path.last());
            assert(path[path.len() - 1] != '\n');
            assert(without_terminators(text) == text);
            assert forall|i: int| 0 <= i < value.len() implies #[trigger] value[i] != '\t'
                && value[i] != '\n' by {
                if i >= 2 {
                    assert(value[i] == path[i - 2]);
                } else {
                    assert(i == 0 || i == 1);
                    assert(value[i] == side[i]);
                }
            }
            lemma_first_of(value, none, '\t');
            assert(value[0] == side[0]);
            assert(value.subrange(0, 2) =~= side);
            assert(without_side(value) =~= path) by {
                assert(value.skip(2) =~= path);
            }
            assert(trim_front(path) == path);
            assert(trim_back(path) == path);
        },
    }
    assert(without_terminators(line) == text);
    assert forall|i: int| 0 <= i < line.len() - 1 implies #[trigger] line[i] != '\n' by {
        if i < mark.len() {
            assert(i == 0 || i == 1 || i == 2 || i == 3);
            assert(line[i] == mark[i]);
        } else {
            assert(line[i] == value[i - mark.len()]);
        }
    }
}

proof fn lemma_word(digits: Seq<char>, rest: Seq<char>)
    requires
        forall|i: int| 0 <= i < digits.len() ==> '0' <= #[trigger] digits[i] <= '9',
        rest.len() > 0,
        rest[0] == ' ',
    ensures
        first_word(digits + rest) == digits,
    decreases digits.len(),
{
    let whole = digits + rest;
    if digits.len() == 0 {
        assert(whole =~= rest);
        assert(is_white(' '));
        assert(first_word(whole) =~= digits);
    } else {
        let tail = digits.skip(1);
        assert forall|i: int| 0 <= i < tail.len() implies '0' <= #[trigger] tail[i] <= '9' by {
            assert(tail[i] == digits[i + 1]);
        }
        lemma_word(tail, rest);
        assert(whole.skip(1) =~= tail + rest);
        assert('0' <= digits[0] <= '9');
        assert(!is_white(whole[0]));
        assert(seq![whole[0]] + tail =~= digits);
    }
}

proof fn lemma_hunk_header(start: usize)
    ensures
        hunk_start(hunk_text(start)) == Ok::<usize, PatchErrorView>(start),
        is_line(hunk_text(start)),
        "@@ "@.is_prefix_of(hunk_text(start)),
        !"--- "@.is_prefix_of(hunk_text(start)),
{
    reveal_strlit("@@ -");
    reveal_strlit("@@ ");
    reveal_strlit(" @@\n");
    reveal_strlit("--- ");
    let digits = decimal(start as nat);
    let line = hunk_text(start);
    lemma_decimal(start as nat);
    decimals_read_back(start as nat, usize::MAX as nat);
    assert(line.subrange(0, 4) =~= "@@ -"@);
    assert(line.subrange(0, 3) =~= "@@ "@);
    assert(line[0] == '@');
    if "--- "@.is_prefix_of(line) {
        assert(line.subrange(0, 4)[0] == line[0]);
    }
    let rest = line.skip(4);
    assert(rest =~= digits + " @@\n"@);
    assert('0' <= digits[0] <= '9');
    assert(rest[0] == digits[0]);
    assert(!is_white(rest[0]));
    assert(after_white(rest) == rest);
    lemma_word(digits, " @@\n"@);
    let none = Seq::<char>::empty();
    assert(digits + none =~= digits);
    assert forall|i: int| 0 <= i < digits.len() implies #[trigger] digits[i] != ',' by {
        assert('0' <= digits[i] <= '9');
    }
    lemma_first_of(digits, none, ',');
    assert forall|i: int| 0 <= i < line.len() - 1 implies #[trigger] line[i] != '\n' by {
        if i < 4 {
            assert(i == 0 || i == 1 || i == 2 || i == 3);
        } else if i < 4 + digits.len() {
            assert(line[i] == digits[i - 4]);
            assert('0' <= digits[i - 4] <= '9');
        } else {
            let k = i - 4 - digits.len();
            assert(k == 0 || k == 1 || k == 2);
            assert(line[i] == " @@\n"@[k]);
        }
    }
    assert(line.last() == " @@\n"@[3]);
}

proof fn lemma_read_next(before: Seq<Seq<char>>, line: Seq<char>, reading: Reading)
    requires
        lines_read(before) == Ok::<Reading, PatchErrorView>(reading),
    ensures
        lines_read(before.push(line)) == line_read(reading, line),
{
    assert(before.push(line).drop_last() =~= before);
}

/// The lines of a hunk are read behind its header.
proof fn lemma_hunk_lines_read(
    before: Seq<Seq<char>>,
    reading: Reading,
    file: FilePatchView,
    start: usize,
    lines: Seq<Seq<char>>,
)
    requires
        lines_read(before) == Ok::<Reading, PatchErrorView>(reading),
        reading.awaited is None,
        reading.open == Some(file),
        reading.hunk == Some(HunkView { old_start: start, lines: Seq::empty() }),
        forall|i: int| 0 <= i < lines.len() ==> line_fits(#[trigger] lines[i]),
    ensures
        lines_read(before + lines) == Ok::<Reading, PatchErrorView>(
            Reading { hunk: Some(HunkView { old_start: start, lines }), ..reading },
        ),
    decreases lines.len(),
{
    if lines.len() == 0 {
        assert(before + lines =~= before);
        assert(lines =~= Seq::<Seq<char>>::empty());
    } else {
        let front = lines.drop_last();
        let line = lines.last();
        assert forall|i: int| 0 <= i < front.len() implies line_fits(#[trigger] front[i]) by {
            assert(front[i] == lines[i]);
        }
        lemma_hunk_lines_read(before, reading, file, start, front);
        let so_far = Reading {
            hunk: Some(HunkView { old_start: start, lines: front }),
            ..reading
        };
        assert(before + lines =~= (before + front).push(line));
        lemma_read_next(before + front, line, so_far);
        assert(line_fits(lines[lines.len() - 1]));
        reveal_strlit("@@ ");
        if "@@ "@.is_prefix_of(line) {
            assert(line.subrange(0, 3)[0] == line[0]);
        }
        assert(front.push(line) =~= lines);
    }
}

/// The hunks of a file are read behind its headers: all but the last are complete.
proof fn lemma_hunks_read(
    before: Seq<Seq<char>>,
    reading: Reading,
    file: FilePatchView,
    hunks: Seq<HunkView>,
)
    requires
        lines_read(before) == Ok::<Reading, PatchErrorView>(reading),
        reading.awaited is None,
        reading.hunk is None,
        reading.open == Some(FilePatchView { hunks: Seq::empty(), ..file }),
        forall|i: int, j: int|
            0 <= i < hunks.len() && 0 <= j < hunks[i].lines.len() ==> line_fits(
                #[trigger] hunks[i].lines[j],
            ),
    ensures
        lines_read(before + hunk_lines(hunks)) == Ok::<Reading, PatchErrorView>(
            if hunks.len() == 0 {
                reading
            } else {
                Reading {
                    open: Some(FilePatchView { hunks: hunks.drop_last(), ..file }),
                    hunk: Some(hunks.last()),
                    ..reading
                }
            },
        ),
    decreases hunks.len(),
{
    if hunks.len() == 0 {
        assert(before + hunk_lines(hunks) =~= before);
    } else {
        let front = hunks.drop_last();
        let hunk = hunks.last();
        assert forall|i: int, j: int|
            0 <= i < front.len() && 0 <= j < front[i].lines.len() implies line_fits(
            #[trigger] front[i].lines[j],
        ) by {
            assert(front[i] == hunks[i]);
            assert(line_fits(hunks[i].lines[j]));
        }
        lemma_hunks_read(before, reading, file, front);
        let header = hunk_text(hunk.old_start);
        lemma_hunk_header(hunk.old_start);
        let upto = before + hunk_lines(front);
        let so_far = lines_read(upto)->Ok_0;
        lemma_read_next(upto, header, so_far);
        let closed = FilePatchView { hunks: front, ..file };
        let begun = Reading {
            open: Some(closed),
            hunk: Some(HunkView { old_start: hunk.old_start, lines: Seq::empty() }),
            ..reading
        };
        if front.len() > 0 {
            assert(front.drop_last().push(front.last()) =~= front);
        } else {
            assert(front =~= Seq::<HunkView>::empty());
        }
        assert(line_read(so_far, header) == Ok::<Reading, PatchErrorView>(begun));
        assert forall|j: int| 0 <= j < hunk.lines.len() implies line_fits(
            #[trigger] hunk.lines[j],
        ) by {
            assert(line_fits(hunks[hunks.len() - 1].lines[j]));
        }
        lemma_hunk_lines_read(upto.push(header), begun, closed, hunk.old_start, hunk.lines);
        assert(before + hunk_lines(hunks) =~= upto.push(header) + hunk.lines);
        assert(HunkView { old_start: hunk.old_start, lines: hunk.lines } == hunk);
    }
}

/// A patch as far as its files were read: all but the last hunk of the last file are
/// complete.
spec fn files_so_far(files: Seq<FilePatchView>) -> Reading {
    if files.len() == 0 {
        unread()
    } else {
        let file = files.last();
        Reading {
            files: files.drop_last(),
            awaited: None,
            open: Some(FilePatchView { hunks: file.hunks.drop_last(), ..file }),
            hunk: Some(file.hunks.last()),
        }
    }
}

proof fn lemma_closed(files: Seq<FilePatchView>)
    requires
        forall|i: int| 0 <= i < files.len() ==> file_fits(#[trigger] files[i]),
    ensures
        file_closed(files_so_far(files)) == Ok::<Reading, PatchErrorView>(
            Reading { files, awaited: None, open: None, hunk: None },
        ),
{
    if files.len() == 0 {
        assert(files =~= Seq::<FilePatchView>::empty());
    } else {
        let file = files.last();
        assert(file_fits(files[files.len() - 1]));
        assert(file.hunks.drop_last().push(file.hunks.last()) =~= file.hunks);
        let part = FilePatchView { hunks: file.hunks.drop_last(), ..file };
        assert(with_hunk(part, Some(file.hunks.last())) == file);
        assert(files.drop_last().push(file) =~= files);
    }
}

proof fn lemma_files_read(files: Seq<FilePatchView>)
    requires
        forall|i: int| 0 <= i < files.len() ==> file_fits(#[trigger] files[i]),
    ensures
        lines_read(patch_lines(files)) == Ok::<Reading, PatchErrorView>(files_so_far(files)),
    decreases files.len(),
{
    if files.len() > 0 {
        let front = files.drop_last();
        let file = files.last();
        assert(file_fits(files[files.len() - 1]));
        assert forall|i: int| 0 <= i < front.len() implies file_fits(#[trigger] front[i]) by {
            assert(front[i] == files[i]);
        }
        lemma_files_read(front);
        lemma_closed(front);
        let before = patch_lines(front);
        let old = header_text("--- "@, "a/"@, file.old_path);
        let new = header_text("+++ "@, "b/"@, file.new_path);
        lemma_header("--- "@, "a/"@, file.old_path);
        lemma_header("+++ "@, "b/"@, file.new_path);
        lemma_read_next(before, old, files_so_far(front));
        let waiting = Reading {
            files: front,
            awaited: Some(file.old_path),
            open: None,
            hunk: None,
        };
        assert(lines_read(before.push(old)) == Ok::<Reading, PatchErrorView>(waiting));
        lemma_read_next(before.push(old), new, waiting);
        let opened = Reading {
            files: front,
            awaited: None,
            open: Some(FilePatchView { hunks: Seq::empty(), ..file }),
            hunk: None,
        };
        assert(lines_read(before.push(old).push(new)) == Ok::<Reading, PatchErrorView>(opened));
        lemma_hunks_read(before.push(old).push(new), opened, file, file.hunks);
        assert(patch_lines(files) =~= before.push(old).push(new) + hunk_lines(file.hunks));
    }
}

proof fn lemma_hunk_lines_are(hunks: Seq<HunkView>)
    requires
        forall|i: int, j: int|
            0 <= i < hunks.len() && 0 <= j < hunks[i].lines.len() ==> line_fits(
                #[trigger] hunks[i].lines[j],
            ),
    ensures
        forall|k: int| 0 <= k < hunk_lines(hunks).len() ==> is_line(#[trigger] hunk_lines(hunks)[k]),
    decreases hunks.len(),
{
    if hunks.len() > 0 {
        let front = hunks.drop_last();
        let hunk = hunks.last();
        assert forall|i: int, j: int|
            0 <= i < front.len() && 0 <= j < front[i].lines.len() implies line_fits(
            #[trigger] front[i].lines[j],
        ) by {
            assert(front[i] == hunks[i]);
            assert(line_fits(hunks[i].lines[j]));
        }
        lemma_hunk_lines_are(front);
        lemma_hunk_header(hunk.old_start);
        let earlier = hunk_lines(front);
        let all = hunk_lines(hunks);
        assert forall|k: int| 0 <= k < all.len() implies is_line(#[trigger] all[k]) by {
            if k < earlier.len() {
                assert(all[k] == earlier[k]);
            } else if k > earlier.len() {
                let j = k - earlier.len() - 1;
                assert(all[k] == hunk.lines[j]);
                assert(line_fits(hunks[hunks.len() - 1].lines[j]));
            }
        }
    }
}

proof fn lemma_patch_lines_are(files: Seq<FilePatchView>)
    requires
        forall|i: int| 0 <= i < files.len() ==> file_fits(#[trigger] files[i]),
    ensures
        forall|k: int|
            0 <= k < patch_lines(files).len() ==> is_line(#[trigger] patch_lines(files)[k]),
    decreases files.len(),
{
    if files.len() > 0 {
        let front = files.drop_last();
        let file = files.last();
        assert(file_fits(files[files.len() - 1]));
        assert forall|i: int| 0 <= i < front.len() implies file_fits(#[trigger] front[i]) by {
            assert(front[i] == files[i]);
        }
        lemma_patch_lines_are(front);
        lemma_hunk_lines_are(file.hunks);
        lemma_header("--- "@, "a/"@, file.old_path);
        lemma_header("+++ "@, "b/"@, file.new_path);
        let earlier = patch_lines(front);
        let own = file_lines(file);
        let all = patch_lines(files);
        assert forall|k: int| 0 <= k < all.len() implies is_line(#[trigger] all[k]) by {
            if k < earlier.len() {
                assert(all[k] == earlier[k]);
            } else {
                let j = k - earlier.len();
                assert(all[k] == own[j]);
                if j >= 2 {
                    assert(own[j] == hunk_lines(file.hunks)[j - 2]);
                }
            }
        }
    }
}

/// A patch that is written out is read back: its files in order, each with its paths, and
/// its hunks with their lines.
pub proof fn written_patches_read_back(files: Seq<FilePatchView>)
    requires
        files.len() > 0,
        forall|i: int| 0 <= i < files.len() ==> file_fits(#[trigger] files[i]),
        !occurs(flatten(patch_lines(files)), "GIT binary patch"@),
    ensures
        patch_files(encode_utf8(flatten(patch_lines(files)))) == Ok::<
            Seq<FilePatchView>,
            PatchErrorView,
        >(files),
{
    let all = patch_lines(files);
    let text = flatten(all);
    vstd::utf8::encode_utf8_valid_utf8(text);
    vstd::utf8::encode_utf8_decode_utf8(text);
    lemma_patch_lines_are(files);
    assert(are_lines(all)) by {
        assert forall|i: int, j: int|
            0 <= i < all.len() && 0 <= j < all[i].len() - 1 implies #[trigger] all[i][j]
            != '\n' by {
            assert(is_line(all[i]));
        }
        assert forall|i: int| 0 <= i < all.len() - 1 implies (#[trigger] all[i]).last() == '\n' by {
            assert(is_line(all[i]));
        }
    }
    lines_are_found_again(all);
    lemma_files_read(files);
    lemma_closed(files);
}

/// What a patch of one file asks for. With a path after the patch, the file there is
/// written with the patched text, from the bytes before or from nothing where it is
/// created; its parent is what stands before the last slash. Without one, the file is
/// removed, and nothing of it may be left.
pub proof fn effects_follow_the_paths(
    file: FilePatchView,
    contents: Seq<u8>,
    directory: Seq<char>,
    name: Seq<char>,
)
    requires
        file.old_path is Some ==> valid_utf8(contents),
        forall|i: int| 0 <= i < name.len() ==> #[trigger] name[i] != '/',
    ensures
        ({
            let original = if file.old_path is Some {
                decode_utf8(contents)
            } else {
                Seq::empty()
            };
            &&& file.new_path matches Some(path) ==> patch_effect(file, contents) == (match patched(
                path,
                original,
                file.hunks,
            ) {
                Ok(text) => Ok::<PatchEffectView, PatchErrorView>(
                    PatchEffectView::Write { parent: parent_of(path), path, text },
                ),
                Err(error) => Err(error),
            })
            &&& file.new_path is None ==> (file.old_path matches Some(path) ==> (
            patch_effect(file, contents) == Ok::<PatchEffectView, PatchErrorView>(
                PatchEffectView::Remove { path },
            )) == (patched(path, original, file.hunks) == Ok::<Seq<char>, PatchErrorView>(
                Seq::empty(),
            )))
        }),
        parent_of(directory.push('/') + name) == Some(directory),
        parent_of(name) is None,
    decreases name.len(),
{
    if file.new_path is None && file.old_path is Some {
        if let Ok(text) = patched(file.old_path->0, decode_utf8(contents), file.hunks) {
            assert(text.len() == 0 ==> text =~= Seq::<char>::empty());
        }
    }
    let whole = directory.push('/') + name;
    if name.len() == 0 {
        assert(whole =~= directory.push('/'));
        assert(whole.drop_last() =~= directory);
    } else {
        let shorter = name.drop_last();
        assert forall|i: int| 0 <= i < shorter.len() implies #[trigger] shorter[i] != '/' by {
            assert(shorter[i] == name[i]);
        }
        effects_follow_the_paths(file, contents, directory, shorter);
        assert(whole.drop_last() =~= directory.push('/') + shorter);
        assert(whole.last() == name[name.len() - 1]);
        assert(name[name.len() - 1] != '/');
    }
}

/// A path stays below its root exactly where it is made of components, none of which is
/// empty or names a directory or its parent, and holds no separator of another system. The
/// paths that are read from headers do.
pub proof fn contained_paths_stay_below(path: Seq<char>, line: Seq<char>, mark: Seq<char>)
    ensures
        contained(path) == ({
            &&& path.len() > 0
            &&& forall|i: int| 0 <= i < path.len() ==> #[trigger] path[i] != '\\' && path[i] != ':'
            &&& forall|i: int|
                #![trigger split_on(path, '/')[i]]
                0 <= i < split_on(path, '/').len() ==> split_on(path, '/')[i].len() > 0 && split_on(
                    path,
                    '/',
                )[i] != seq!['.'] && split_on(path, '/')[i] != seq!['.', '.']
        }),
        header_path(line, mark) matches Ok(Some(found)) ==> contained(found),
{
    reveal_strlit(".");
    reveal_strlit("..");
    assert("."@ =~= seq!['.']);
    assert(".."@ =~= seq!['.', '.']);
    if contained(path) {
        assert forall|i: int| 0 <= i < path.len() implies #[trigger] path[i] != '\\' && path[i]
            != ':' by {
            if path[i] == '\\' {
                assert(path.contains('\\'));
            }
            if path[i] == ':' {
                assert(path.contains(':'));
            }
        }
    }
}

/// A marker behind a line of a hunk takes the newline from the line, and a carriage return
/// in front of it; without a line it is refused.
pub proof fn markers_revoke_newlines(
    start: usize,
    lines: Seq<Seq<char>>,
    line: Seq<char>,
    note: Seq<char>,
)
    requires
        line.len() > 0 ==> line.last() != '\r',
    ensures
        ({
            let hunk = HunkView { old_start: start, lines: lines.push(line.push('\n')) };
            let returned = HunkView {
                old_start: start,
                lines: lines.push(line + seq!['\r', '\n']),
            };
            let left = HunkView { old_start: start, lines: lines.push(line) };
            let marker = seq!['\\'] + note;
            &&& hunk_line(hunk, marker) == Ok::<HunkView, PatchErrorView>(left)
            &&& hunk_line(returned, marker) == Ok::<HunkView, PatchErrorView>(left)
            &&& hunk_line(HunkView { old_start: start, lines: Seq::empty() }, marker) is Err
        }),
{
    let marker = seq!['\\'] + note;
    assert(marker[0] == '\\');
    let plain = line.push('\n');
    let returned = line + seq!['\r', '\n'];
    assert(plain.drop_last() =~= line);
    assert(returned.drop_last() =~= line.push('\r'));
    assert(line.push('\r').drop_last() =~= line);
    let last = lines.len() as int;
    assert(lines.push(plain).update(last, line) =~= lines.push(line));
    assert(lines.push(returned).update(last, line) =~= lines.push(line));
}

} // verus!
