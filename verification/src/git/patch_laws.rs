//! What unified patches are for.

use super::patch::{
    hunk_applied, hunks_applied, lines_applied, patched, Applying, HunkView, PatchErrorView,
};
use crate::text::{
    are_lines, flatten, flatten_joins, lines_are_found_again, lines_make_up_their_text,
    split_inclusive,
};
use vstd::prelude::*;

verus! {

/// Whether every line of a hunk is context, an addition or a deletion.
pub open spec fn proper(hunk: HunkView) -> bool {
    forall|i: int|
        0 <= i < hunk.lines.len() ==> (#[trigger] hunk.lines[i]).len() > 0 && (hunk.lines[i][0]
            == ' ' || hunk.lines[i][0] == '+' || hunk.lines[i][0] == '-')
}

/// Whether all hunks are proper.
pub open spec fn all_proper(hunks: Seq<HunkView>) -> bool {
    forall|i: int| 0 <= i < hunks.len() ==> proper(#[trigger] hunks[i])
}

/// The lines that a hunk expects: all but the added ones.
pub open spec fn expected_lines(lines: Seq<Seq<char>>) -> Seq<Seq<char>> {
    lines.filter(|line: Seq<char>| line[0] != '+').map_values(|line: Seq<char>| line.skip(1))
}

/// The lines that a hunk leaves: all but the deleted ones.
pub open spec fn written_lines(lines: Seq<Seq<char>>) -> Seq<Seq<char>> {
    lines.filter(|line: Seq<char>| line[0] != '-').map_values(|line: Seq<char>| line.skip(1))
}

/// What hunks expect, one by one.
pub open spec fn expected(hunks: Seq<HunkView>) -> Seq<Seq<Seq<char>>> {
    hunks.map_values(|hunk: HunkView| expected_lines(hunk.lines))
}

/// What hunks leave, one by one.
pub open spec fn written(hunks: Seq<HunkView>) -> Seq<Seq<Seq<char>>> {
    hunks.map_values(|hunk: HunkView| written_lines(hunk.lines))
}

/// Lines in front of parts, each with its part.
pub open spec fn paired(gaps: Seq<Seq<Seq<char>>>, parts: Seq<Seq<Seq<char>>>) -> Seq<Seq<char>>
    decreases parts.len(),
{
    if parts.len() == 0 || gaps.len() == 0 {
        Seq::empty()
    } else {
        paired(gaps.drop_last(), parts.drop_last()) + gaps.last() + parts.last()
    }
}

/// Lines in front of, between and behind parts, with the parts.
pub open spec fn laid(gaps: Seq<Seq<Seq<char>>>, parts: Seq<Seq<Seq<char>>>) -> Seq<Seq<char>> {
    paired(gaps.drop_last(), parts) + gaps.last()
}

/// Lines in front of the part with an index.
pub open spec fn lines_before(
    gaps: Seq<Seq<Seq<char>>>,
    parts: Seq<Seq<Seq<char>>>,
    i: int,
) -> int {
    (paired(gaps.take(i), parts.take(i)).len() + gaps[i].len()) as int
}

/// Whether a hunk header names the line behind so many.
pub open spec fn starts_behind(hunk: HunkView, count: int) -> bool {
    hunk.old_start == count + 1 || hunk.old_start == 0 && count == 0
}

/// Whether hunks fit source lines: the source is what the hunks expect with lines in
/// front of, between and behind them, and every header names the place of its hunk.
pub open spec fn hunks_fit(
    source: Seq<Seq<char>>,
    hunks: Seq<HunkView>,
    gaps: Seq<Seq<Seq<char>>>,
) -> bool {
    &&& gaps.len() == hunks.len() + 1
    &&& source == laid(gaps, expected(hunks))
    &&& forall|i: int|
        0 <= i < hunks.len() ==> starts_behind(
            #[trigger] hunks[i],
            lines_before(gaps, expected(hunks), i),
        )
}

proof fn lemma_lines_push(lines: Seq<Seq<char>>)
    requires
        lines.len() > 0,
    ensures
        expected_lines(lines) == (if lines.last()[0] != '+' {
            expected_lines(lines.drop_last()).push(lines.last().skip(1))
        } else {
            expected_lines(lines.drop_last())
        }),
        written_lines(lines) == (if lines.last()[0] != '-' {
            written_lines(lines.drop_last()).push(lines.last().skip(1))
        } else {
            written_lines(lines.drop_last())
        }),
{
    reveal(Seq::filter);
    let front = lines.drop_last();
    if lines.last()[0] != '+' {
        assert(expected_lines(lines) =~= expected_lines(front).push(lines.last().skip(1)));
    } else {
        assert(expected_lines(lines) =~= expected_lines(front));
    }
    if lines.last()[0] != '-' {
        assert(written_lines(lines) =~= written_lines(front).push(lines.last().skip(1)));
    } else {
        assert(written_lines(lines) =~= written_lines(front));
    }
}

/// Whether source lines from a cursor on begin with given lines.
spec fn goes_on_with(source: Seq<Seq<char>>, cursor: int, lines: Seq<Seq<char>>) -> bool {
    cursor + lines.len() <= source.len() && source.subrange(cursor, cursor + lines.len()) == lines
}

proof fn lemma_lines(
    path: Seq<char>,
    header: usize,
    source: Seq<Seq<char>>,
    at: Applying,
    lines: Seq<Seq<char>>,
)
    requires
        0 <= at.cursor <= source.len(),
        proper(HunkView { old_start: header, lines }),
    ensures
        lines_applied(path, header, source, at, lines) == (if goes_on_with(
            source,
            at.cursor,
            expected_lines(lines),
        ) {
            Ok(
                Applying {
                    output: at.output + flatten(written_lines(lines)),
                    cursor: at.cursor + expected_lines(lines).len(),
                },
            )
        } else {
            Err(PatchErrorView::Conflict { path, line: header })
        }),
    decreases lines.len(),
{
    if lines.len() == 0 {
        reveal(Seq::filter);
        assert(expected_lines(lines) =~= Seq::<Seq<char>>::empty());
        assert(written_lines(lines) =~= Seq::<Seq<char>>::empty());
        assert(source.subrange(at.cursor, at.cursor) =~= Seq::<Seq<char>>::empty());
        assert(at.output + flatten(written_lines(lines)) =~= at.output);
    } else {
        let front = lines.drop_last();
        let line = lines.last();
        assert(line == lines[lines.len() - 1]);
        assert(proper(HunkView { old_start: header, lines: front })) by {
            assert forall|i: int| 0 <= i < front.len() implies (#[trigger] front[i]).len() > 0 && (
            front[i][0] == ' ' || front[i][0] == '+' || front[i][0] == '-') by {
                assert(front[i] == HunkView { old_start: header, lines }.lines[i]);
            }
        }
        lemma_lines(path, header, source, at, front);
        lemma_lines_push(lines);
        assert(proper(HunkView { old_start: header, lines }));
        assert(HunkView { old_start: header, lines }.lines[lines.len() - 1] == line);
        let want = expected_lines(front);
        let wrote = written_lines(front);
        let payload = line.skip(1);
        if line[0] != '-' {
            assert(wrote.push(payload).drop_last() =~= wrote);
            assert(at.output + flatten(wrote) + payload =~= at.output + flatten(
                wrote.push(payload),
            ));
        }
        if line[0] != '+' {
            let more = want.push(payload);
            let here = at.cursor + want.len();
            if goes_on_with(source, at.cursor, want) {
                if here < source.len() && source[here] == payload {
                    assert(source.subrange(at.cursor, here + 1) =~= more);
                } else if goes_on_with(source, at.cursor, more) {
                    assert(source.subrange(at.cursor, here + 1)[want.len() as int] == source[here]);
                    assert(more[want.len() as int] == payload);
                }
            } else if goes_on_with(source, at.cursor, more) {
                assert(source.subrange(at.cursor, here) =~= more.drop_last());
                assert(more.drop_last() =~= want);
            }
        }
    }
}

proof fn lemma_paired_len(gaps: Seq<Seq<Seq<char>>>, parts: Seq<Seq<Seq<char>>>, n: int)
    requires
        0 <= n < parts.len(),
        n < gaps.len(),
    ensures
        paired(gaps.take(n + 1), parts.take(n + 1)) == paired(gaps.take(n), parts.take(n))
            + gaps[n] + parts[n],
{
    assert(gaps.take(n + 1).drop_last() =~= gaps.take(n));
    assert(parts.take(n + 1).drop_last() =~= parts.take(n));
}

/// Hunks that fit the front of a source are applied to it.
proof fn lemma_hunks(
    path: Seq<char>,
    source: Seq<Seq<char>>,
    hunks: Seq<HunkView>,
    gaps: Seq<Seq<Seq<char>>>,
    rest: Seq<Seq<char>>,
    n: int,
)
    requires
        0 <= n <= hunks.len(),
        gaps.len() >= hunks.len(),
        all_proper(hunks),
        source == paired(gaps.take(n), expected(hunks).take(n)) + rest,
        forall|i: int|
            0 <= i < hunks.len() ==> starts_behind(
                #[trigger] hunks[i],
                lines_before(gaps, expected(hunks), i),
            ),
    ensures
        hunks_applied(path, source, hunks.take(n)) == Ok::<Applying, PatchErrorView>(
            Applying {
                output: flatten(paired(gaps.take(n), written(hunks).take(n))),
                cursor: paired(gaps.take(n), expected(hunks).take(n)).len() as int,
            },
        ),
    decreases n,
{
    let want = expected(hunks);
    let made = written(hunks);
    if n > 0 {
        let k = n - 1;
        lemma_paired_len(gaps, want, k);
        lemma_paired_len(gaps, made, k);
        let front = paired(gaps.take(k), want.take(k));
        let before = paired(gaps.take(k), made.take(k));
        let hunk = hunks[k];
        assert(want[k] == expected_lines(hunk.lines));
        assert(made[k] == written_lines(hunk.lines));
        assert(source =~= front + (gaps[k] + want[k] + rest));
        lemma_hunks(path, source, hunks, gaps, gaps[k] + want[k] + rest, k);
        assert(hunks.take(n).drop_last() =~= hunks.take(k));
        assert(hunks.take(n).last() == hunk);
        let start = (front.len() + gaps[k].len()) as int;
        assert(starts_behind(hunks[k], lines_before(gaps, want, k)));
        assert(source.subrange(front.len() as int, start) =~= gaps[k]);
        assert(proper(hunks[k]));
        let at = Applying { output: flatten(before) + flatten(gaps[k]), cursor: start };
        lemma_lines(path, hunk.old_start, source, at, hunk.lines);
        assert(source.subrange(start, start + want[k].len()) =~= want[k]);
        flatten_joins(before, gaps[k], Seq::empty());
        flatten_joins(before + gaps[k], made[k], Seq::empty());
        assert((front + gaps[k] + want[k]).len() == start + want[k].len());
    } else {
        assert(hunks.take(0) =~= Seq::<HunkView>::empty());
        assert(flatten(paired(gaps.take(0), made.take(0))) =~= Seq::<char>::empty());
    }
}

/// Hunks change only the lines that they cover. Where a text is what its hunks expect,
/// with lines in front of, between and behind them, and every hunk is recorded at its
/// line, the text becomes what the hunks leave, with the same lines around them.
pub proof fn hunks_change_only_their_lines(
    path: Seq<char>,
    original: Seq<char>,
    hunks: Seq<HunkView>,
    gaps: Seq<Seq<Seq<char>>>,
)
    requires
        all_proper(hunks),
        hunks_fit(split_inclusive(original), hunks, gaps),
    ensures
        patched(path, original, hunks) == Ok::<Seq<char>, PatchErrorView>(
            flatten(laid(gaps, written(hunks))),
        ),
{
    let source = split_inclusive(original);
    let n = hunks.len() as int;
    let rest = gaps.last();
    assert(gaps.take(n) =~= gaps.drop_last());
    assert(expected(hunks).take(n) =~= expected(hunks));
    assert(written(hunks).take(n) =~= written(hunks));
    assert(hunks.take(n) =~= hunks);
    lemma_hunks(path, source, hunks, gaps, rest, n);
    let cursor = paired(gaps.drop_last(), expected(hunks)).len() as int;
    assert(source.skip(cursor) =~= rest);
    flatten_joins(paired(gaps.drop_last(), written(hunks)), rest, Seq::empty());
}

/// A single hunk turns the lines that it expects behind those in front of it into the
/// lines that it leaves, and nothing else.
pub proof fn a_hunk_changes_only_its_lines(
    path: Seq<char>,
    original: Seq<char>,
    before: Seq<Seq<char>>,
    hunk: HunkView,
    behind: Seq<Seq<char>>,
)
    requires
        proper(hunk),
        starts_behind(hunk, before.len() as int),
        split_inclusive(original) == before + expected_lines(hunk.lines) + behind,
    ensures
        patched(path, original, seq![hunk]) == Ok::<Seq<char>, PatchErrorView>(
            flatten(before) + flatten(written_lines(hunk.lines)) + flatten(behind),
        ),
{
    let hunks = seq![hunk];
    let gaps = seq![before, behind];
    let want = expected(hunks);
    let made = written(hunks);
    assert(gaps.drop_last() =~= seq![before]);
    assert(want =~= seq![expected_lines(hunk.lines)]);
    assert(made =~= seq![written_lines(hunk.lines)]);
    assert(gaps.take(0) =~= Seq::<Seq<Seq<char>>>::empty());
    let none = paired(seq![before].drop_last(), want.drop_last());
    assert(none + before =~= before);
    assert(paired(seq![before], want) =~= before + expected_lines(hunk.lines));
    assert(paired(seq![before].drop_last(), made.drop_last()) + before =~= before);
    assert(paired(seq![before], made) =~= before + written_lines(hunk.lines));
    assert(lines_before(gaps, want, 0) == before.len());
    hunks_change_only_their_lines(path, original, hunks, gaps);
    flatten_joins(before, written_lines(hunk.lines), Seq::empty());
    flatten_joins(before + written_lines(hunk.lines), behind, Seq::empty());
}

/// Hunks that were applied fit the lines consumed so far.
proof fn lemma_applied(path: Seq<char>, source: Seq<Seq<char>>, hunks: Seq<HunkView>) -> (gaps: Seq<
    Seq<Seq<char>>,
>)
    requires
        all_proper(hunks),
        hunks_applied(path, source, hunks) is Ok,
    ensures
        ({
            let at = hunks_applied(path, source, hunks)->Ok_0;
            &&& gaps.len() == hunks.len()
            &&& 0 <= at.cursor <= source.len()
            &&& source.take(at.cursor) == paired(gaps, expected(hunks))
            &&& at.output == flatten(paired(gaps, written(hunks)))
            &&& forall|i: int|
                0 <= i < hunks.len() ==> starts_behind(
                    #[trigger] hunks[i],
                    lines_before(gaps, expected(hunks), i),
                )
        }),
    decreases hunks.len(),
{
    let want = expected(hunks);
    let made = written(hunks);
    if hunks.len() == 0 {
        assert(source.take(0) =~= Seq::<Seq<char>>::empty());
        assert(flatten(paired(Seq::empty(), made)) =~= Seq::<char>::empty());
        Seq::empty()
    } else {
        let front = hunks.drop_last();
        let hunk = hunks.last();
        assert forall|i: int| 0 <= i < front.len() implies proper(#[trigger] front[i]) by {
            assert(front[i] == hunks[i]);
        }
        let earlier = lemma_applied(path, source, front);
        let at = hunks_applied(path, source, front)->Ok_0;
        let start = if hunk.old_start == 0 {
            0int
        } else {
            hunk.old_start - 1
        };
        let gap = source.subrange(at.cursor, start);
        let gaps = earlier.push(gap);
        assert(proper(hunks[hunks.len() - 1]));
        let moved = Applying { output: at.output + flatten(gap), cursor: start };
        assert(hunk_applied(path, source, at, hunk) == lines_applied(
            path,
            hunk.old_start,
            source,
            moved,
            hunk.lines,
        ));
        lemma_lines(path, hunk.old_start, source, moved, hunk.lines);
        let own = expected_lines(hunk.lines);
        let wrote = written_lines(hunk.lines);
        assert(want.drop_last() =~= expected(front));
        assert(made.drop_last() =~= written(front));
        assert(want.last() == own);
        assert(made.last() == wrote);
        assert(gaps.drop_last() =~= earlier);
        let after = hunks_applied(path, source, hunks)->Ok_0;
        assert(source.take(after.cursor) =~= source.take(at.cursor) + gap + own) by {
            assert(source.subrange(start, start + own.len()) == own);
            assert forall|i: int| start <= i < start + own.len() implies source[i] == own[i
                - start] by {
                assert(source.subrange(start, start + own.len())[i - start] == source[i]);
            }
        }
        flatten_joins(paired(earlier, written(front)), gap, Seq::empty());
        flatten_joins(paired(earlier, written(front)) + gap, wrote, Seq::empty());
        assert forall|i: int| 0 <= i < hunks.len() implies starts_behind(
            #[trigger] hunks[i],
            lines_before(gaps, want, i),
        ) by {
            assert(gaps.take(i) =~= earlier.take(i));
            assert(want.take(i) =~= expected(front).take(i));
            if i < front.len() {
                assert(front[i] == hunks[i]);
                assert(starts_behind(front[i], lines_before(earlier, expected(front), i)));
            } else {
                assert(earlier.take(i) =~= earlier);
                assert(expected(front).take(i) =~= expected(front));
                assert(source.take(at.cursor).len() == at.cursor);
            }
        }
        gaps
    }
}

/// Hunks that are applied fit the text, and leave it changed only where they say so.
pub proof fn applied_hunks_fit(path: Seq<char>, original: Seq<char>, hunks: Seq<HunkView>)
    requires
        all_proper(hunks),
        patched(path, original, hunks) is Ok,
    ensures
        exists|gaps: Seq<Seq<Seq<char>>>| #[trigger]
            hunks_fit(split_inclusive(original), hunks, gaps) && patched(path, original, hunks)
                == Ok::<Seq<char>, PatchErrorView>(flatten(laid(gaps, written(hunks)))),
{
    let source = split_inclusive(original);
    let earlier = lemma_applied(path, source, hunks);
    let at = hunks_applied(path, source, hunks)->Ok_0;
    let rest = source.skip(at.cursor);
    let gaps = earlier.push(rest);
    assert(gaps.drop_last() =~= earlier);
    assert(source =~= source.take(at.cursor) + rest);
    assert forall|i: int| 0 <= i < hunks.len() implies starts_behind(
        #[trigger] hunks[i],
        lines_before(gaps, expected(hunks), i),
    ) by {
        assert(gaps.take(i) =~= earlier.take(i));
        assert(starts_behind(hunks[i], lines_before(earlier, expected(hunks), i)));
    }
    assert(hunks_fit(source, hunks, gaps));
    hunks_change_only_their_lines(path, original, hunks, gaps);
}

/// Hunks that are not applied conflict at the recorded line of the first of them that
/// cannot be applied behind those in front of it.
pub proof fn the_first_misfit_conflicts(
    path: Seq<char>,
    original: Seq<char>,
    hunks: Seq<HunkView>,
) -> (at: int)
    requires
        all_proper(hunks),
        patched(path, original, hunks) is Err,
    ensures
        0 <= at < hunks.len(),
        patched(path, original, hunks.take(at)) is Ok,
        patched(path, original, hunks.take(at + 1)) is Err,
        patched(path, original, hunks) == Err::<Seq<char>, PatchErrorView>(
            PatchErrorView::Conflict { path, line: hunks[at].old_start },
        ),
    decreases hunks.len(),
{
    let source = split_inclusive(original);
    let front = hunks.drop_last();
    assert forall|i: int| 0 <= i < front.len() implies proper(#[trigger] front[i]) by {
        assert(front[i] == hunks[i]);
    }
    if patched(path, original, front) is Err {
        let at = the_first_misfit_conflicts(path, original, front);
        assert(front.take(at) =~= hunks.take(at));
        assert(front.take(at + 1) =~= hunks.take(at + 1));
        at
    } else {
        let at = hunks.len() - 1;
        let hunk = hunks[at];
        assert(hunks.take(at) =~= front);
        assert(hunks.take(at + 1) =~= hunks);
        let earlier = lemma_applied(path, source, front);
        let begun = hunks_applied(path, source, front)->Ok_0;
        let start = if hunk.old_start == 0 {
            0int
        } else {
            hunk.old_start - 1
        };
        if begun.cursor <= start <= source.len() {
            let moved = Applying {
                output: begun.output + flatten(source.subrange(begun.cursor, start)),
                cursor: start,
            };
            assert(proper(hunks[at]));
            lemma_lines(path, hunk.old_start, source, moved, hunk.lines);
        }
        at
    }
}

/// A line with additions and deletions exchanged.
pub open spec fn reversed_line(line: Seq<char>) -> Seq<char> {
    if line[0] == '+' {
        seq!['-'] + line.skip(1)
    } else if line[0] == '-' {
        seq!['+'] + line.skip(1)
    } else {
        line
    }
}

/// The hunks that undo others whose surroundings are given.
pub open spec fn reversed(hunks: Seq<HunkView>, gaps: Seq<Seq<Seq<char>>>) -> Seq<HunkView> {
    Seq::new(
        hunks.len(),
        |i: int|
            HunkView {
                old_start: (lines_before(gaps, written(hunks), i) + 1) as usize,
                lines: hunks[i].lines.map_values(|line: Seq<char>| reversed_line(line)),
            },
    )
}

proof fn lemma_reversed(lines: Seq<Seq<char>>)
    requires
        forall|i: int|
            0 <= i < lines.len() ==> (#[trigger] lines[i]).len() > 0 && (lines[i][0] == ' '
                || lines[i][0] == '+' || lines[i][0] == '-'),
    ensures
        expected_lines(lines.map_values(|line: Seq<char>| reversed_line(line))) == written_lines(
            lines,
        ),
        written_lines(lines.map_values(|line: Seq<char>| reversed_line(line))) == expected_lines(
            lines,
        ),
    decreases lines.len(),
{
    let turned = lines.map_values(|line: Seq<char>| reversed_line(line));
    if lines.len() == 0 {
        reveal(Seq::filter);
        assert(turned =~= lines);
        assert(expected_lines(lines) =~= written_lines(lines));
    } else {
        let front = lines.drop_last();
        assert forall|i: int| 0 <= i < front.len() implies (#[trigger] front[i]).len() > 0 && (
        front[i][0] == ' ' || front[i][0] == '+' || front[i][0] == '-') by {
            assert(front[i] == lines[i]);
        }
        lemma_reversed(front);
        assert(turned.drop_last() =~= front.map_values(|line: Seq<char>| reversed_line(line)));
        lemma_lines_push(lines);
        lemma_lines_push(turned);
        let line = lines[lines.len() - 1];
        assert(turned.last() == reversed_line(line));
        assert(reversed_line(line).skip(1) =~= line.skip(1));
    }
}

/// Hunks are undone by their reverse: where hunks turn a text into another, the hunks
/// with additions and deletions exchanged turn the other into the text.
pub proof fn reversed_hunks_undo(
    path: Seq<char>,
    original: Seq<char>,
    hunks: Seq<HunkView>,
    gaps: Seq<Seq<Seq<char>>>,
)
    requires
        all_proper(hunks),
        hunks_fit(split_inclusive(original), hunks, gaps),
        are_lines(laid(gaps, written(hunks))),
        forall|i: int|
            0 <= i < hunks.len() ==> #[trigger] lines_before(gaps, written(hunks), i)
                < usize::MAX,
    ensures
        patched(path, original, hunks) matches Ok(changed) && patched(
            path,
            changed,
            reversed(hunks, gaps),
        ) == Ok::<Seq<char>, PatchErrorView>(original),
{
    hunks_change_only_their_lines(path, original, hunks, gaps);
    let changed = flatten(laid(gaps, written(hunks)));
    let back = reversed(hunks, gaps);
    lines_are_found_again(laid(gaps, written(hunks)));
    assert forall|i: int| 0 <= i < hunks.len() implies expected_lines(
        (#[trigger] back[i]).lines,
    ) == written_lines(hunks[i].lines) && written_lines(back[i].lines) == expected_lines(
        hunks[i].lines,
    ) && proper(back[i]) by {
        assert(proper(hunks[i]));
        lemma_reversed(hunks[i].lines);
        assert forall|j: int| 0 <= j < back[i].lines.len() implies (
        #[trigger] back[i].lines[j]).len() > 0 && (back[i].lines[j][0] == ' '
            || back[i].lines[j][0] == '+' || back[i].lines[j][0] == '-') by {
            assert(back[i].lines[j] == reversed_line(hunks[i].lines[j]));
        }
    }
    assert(expected(back) =~= written(hunks));
    assert(written(back) =~= expected(hunks));
    assert forall|i: int| 0 <= i < back.len() implies starts_behind(
        #[trigger] back[i],
        lines_before(gaps, expected(back), i),
    ) by {
        assert(lines_before(gaps, written(hunks), i) < usize::MAX);
    }
    hunks_change_only_their_lines(path, changed, back, gaps);
    lines_make_up_their_text(original);
}

} // verus!
