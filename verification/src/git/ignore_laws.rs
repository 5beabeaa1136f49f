//! What ignore rules are for.

use super::ignore::{
    admits, component_matches, glob, ignored_by, joined, lemma_glob_self, lemma_last_rule,
    nested_ignored, path_admitted, plain_char, plain_name, rule_matches, rule_of, rules_of,
    whole_path, Nested, RuleView,
};
use super::paths::{trim_back, trim_front};
use crate::text::{lines, pieces_make_up_the_whole, rejoined, split_on};
use vstd::prelude::*;
use vstd::utf8::{encode_utf8, is_ascii_chars, is_ascii_chars_encode_utf8};

verus! {

/// What patterns describe: nothing only nothing, an asterisk anything, a question mark
/// any one byte, any other byte itself, and one pattern behind another whatever falls
/// into a part for each.
pub proof fn patterns_describe(a: Seq<u8>, b: Seq<u8>, byte: u8, value: Seq<u8>)
    ensures
        glob(Seq::empty(), value) == (value.len() == 0),
        glob(seq![42u8], value),
        glob(seq![63u8], value) == (value.len() == 1),
        byte != 42 && byte != 63 ==> glob(seq![byte], value) == (value == seq![byte]),
        glob(a + b, value) == exists|k: int|
            0 <= k <= value.len() && glob(a, #[trigger] value.take(k)) && glob(b, value.skip(k)),
    decreases a.len(),
{
    let none = Seq::<u8>::empty();
    assert(value.skip(value.len() as int) =~= none);
    assert(seq![42u8].skip(1) =~= none);
    assert(glob(seq![42u8].skip(1), value.skip(value.len() as int)));
    assert(seq![63u8].skip(1) =~= none);
    assert(seq![byte].skip(1) =~= none);
    assert(glob(none, value.skip(1)) == (value.skip(1).len() == 0));
    if value.len() > 1 {
        assert(value.skip(1).len() > 0);
    }
    if value.len() == 1 {
        assert(value.skip(1) =~= none);
        assert(value =~= seq![value[0]]);
    }
    lemma_concatenated(a, b, value);
}

proof fn lemma_concatenated(a: Seq<u8>, b: Seq<u8>, value: Seq<u8>)
    ensures
        glob(a + b, value) == exists|k: int|
            0 <= k <= value.len() && glob(a, #[trigger] value.take(k)) && glob(b, value.skip(k)),
    decreases a.len(),
{
    let both = a + b;
    if a.len() == 0 {
        assert(both =~= b);
        assert(value.skip(0) =~= value);
        assert(value.take(0).len() == 0);
        if glob(both, value) {
            assert(glob(a, value.take(0)) && glob(b, value.skip(0)));
        }
    } else {
        let rest = a.skip(1);
        assert(both.skip(1) =~= rest + b);
        assert(both[0] == a[0]);
        if a[0] == 42 {
            if glob(both, value) {
                let k = choose|k: int|
                    0 <= k <= value.len() && glob(both.skip(1), #[trigger] value.skip(k));
                let tail = value.skip(k);
                lemma_concatenated(rest, b, tail);
                let j = choose|j: int|
                    0 <= j <= tail.len() && glob(rest, #[trigger] tail.take(j)) && glob(
                        b,
                        tail.skip(j),
                    );
                assert(value.take(k + j).skip(k) =~= tail.take(j));
                assert(tail.skip(j) =~= value.skip(k + j));
                assert(glob(a, value.take(k + j)));
            }
            if exists|k: int|
                0 <= k <= value.len() && glob(a, #[trigger] value.take(k)) && glob(
                    b,
                    value.skip(k),
                ) {
                let k = choose|k: int|
                    0 <= k <= value.len() && glob(a, #[trigger] value.take(k)) && glob(
                        b,
                        value.skip(k),
                    );
                let head = value.take(k);
                let j = choose|j: int| 0 <= j <= head.len() && glob(rest, #[trigger] head.skip(j));
                let tail = value.skip(j);
                lemma_concatenated(rest, b, tail);
                assert(tail.take(k - j) =~= head.skip(j));
                assert(tail.skip(k - j) =~= value.skip(k));
                assert(glob(both.skip(1), value.skip(j)));
            }
        } else {
            if value.len() > 0 {
                let tail = value.skip(1);
                lemma_concatenated(rest, b, tail);
                if glob(both, value) {
                    let j = choose|j: int|
                        0 <= j <= tail.len() && glob(rest, #[trigger] tail.take(j)) && glob(
                            b,
                            tail.skip(j),
                        );
                    assert(value.take(j + 1).skip(1) =~= tail.take(j));
                    assert(tail.skip(j) =~= value.skip(j + 1));
                    assert(glob(a, value.take(j + 1)));
                }
                if exists|k: int|
                    0 <= k <= value.len() && glob(a, #[trigger] value.take(k)) && glob(
                        b,
                        value.skip(k),
                    ) {
                    let k = choose|k: int|
                        0 <= k <= value.len() && glob(a, #[trigger] value.take(k)) && glob(
                            b,
                            value.skip(k),
                        );
                    assert(value.take(k).skip(1) =~= tail.take(k - 1));
                    assert(tail.skip(k - 1) =~= value.skip(k));
                }
            } else {
                assert forall|k: int| 0 <= k <= value.len() implies !glob(
                    a,
                    #[trigger] value.take(k),
                ) by {
                    assert(value.take(k).len() == 0);
                }
            }
        }
    }
}

/// A pattern without wildcards describes only itself.
pub proof fn literal_patterns_describe_themselves(pattern: Seq<u8>, value: Seq<u8>)
    requires
        forall|i: int|
            0 <= i < pattern.len() ==> (#[trigger] pattern[i]) != 42 && pattern[i] != 63,
    ensures
        glob(pattern, value) == (pattern == value),
    decreases pattern.len(),
{
    if pattern.len() == 0 {
        assert(value.len() == 0 ==> pattern =~= value);
    } else if value.len() > 0 {
        assert(pattern[0] != 42 && pattern[0] != 63);
        let rest = pattern.skip(1);
        assert forall|i: int| 0 <= i < rest.len() implies (#[trigger] rest[i]) != 42 && rest[i]
            != 63 by {
            assert(rest[i] == pattern[i + 1]);
        }
        literal_patterns_describe_themselves(rest, value.skip(1));
        if pattern[0] == value[0] && rest == value.skip(1) {
            assert(pattern =~= value) by {
                assert forall|i: int| 0 <= i < pattern.len() implies pattern[i] == value[i] by {
                    if i > 0 {
                        assert(rest[i - 1] == value.skip(1)[i - 1]);
                    }
                }
            }
        }
    }
}

/// A marker that is there or not.
pub open spec fn marker(there: bool, mark: char) -> Seq<char> {
    if there {
        seq![mark]
    } else {
        Seq::empty()
    }
}

/// A rule line says what it is with its markers: an exclamation mark in front negates, a
/// slash in front anchors, a slash behind restricts it to directories, and what is left is
/// the pattern.
pub proof fn rules_spell_their_markers(
    pattern: Seq<char>,
    negated: bool,
    anchored: bool,
    directory_only: bool,
)
    requires
        pattern.len() > 0,
        pattern[0] != '/',
        pattern.last() != '/',
        directory_only || pattern.last() != '\r',
        negated || anchored || pattern[0] != '#' && pattern[0] != '!',
    ensures
        rule_of(
            marker(negated, '!') + marker(anchored, '/') + pattern + marker(directory_only, '/'),
        ) == Some(RuleView { pattern, negated, directory_only, anchored }),
{
    let body = pattern + marker(directory_only, '/');
    let named = marker(anchored, '/') + body;
    let text = marker(negated, '!') + named;
    let line = marker(negated, '!') + marker(anchored, '/') + pattern + marker(
        directory_only,
        '/',
    );
    assert(line =~= text);
    assert(text.last() == body.last());
    assert(negated ==> text.skip(1) =~= named);
    assert(!negated ==> text =~= named);
    assert(anchored ==> named.skip(1) =~= body);
    assert(!anchored ==> named =~= body);
    if directory_only {
        assert(body.drop_last() =~= pattern);
    } else {
        assert(body =~= pattern);
    }
    assert(trim_back(pattern) == pattern);
    assert(trim_back(body) == pattern);
}

/// Blank lines and comments spell no rule.
pub proof fn comments_spell_no_rule(rest: Seq<char>)
    ensures
        rule_of(Seq::empty()) is None,
        rule_of(seq!['\r']) is None,
        rule_of(seq!['#'] + rest) is None,
{
    assert(seq!['\r'].drop_last() =~= Seq::<char>::empty());
    assert(super::ignore::without_returns(Seq::<char>::empty()).len() == 0);
    assert(super::ignore::without_returns(seq!['\r']) == super::ignore::without_returns(
        Seq::<char>::empty(),
    ));
    let text = seq!['#'] + rest;
    lemma_returns_behind(text);
}

proof fn lemma_returns_behind(text: Seq<char>)
    requires
        text.len() > 0,
        text[0] != '\r',
    ensures
        super::ignore::without_returns(text).len() > 0,
        super::ignore::without_returns(text)[0] == text[0],
    decreases text.len(),
{
    if text.last() == '\r' {
        lemma_returns_behind(text.drop_last());
    }
}

/// Rules come in the order of their lines, one for each line that spells one.
pub proof fn rules_follow_their_lines(a: Seq<Seq<char>>, b: Seq<Seq<char>>, line: Seq<char>)
    ensures
        rules_of(a + b) == rules_of(a) + rules_of(b),
        rules_of(seq![line]) == (match rule_of(line) {
            Some(rule) => seq![rule],
            None => Seq::empty(),
        }),
    decreases b.len(),
{
    let none = Seq::<Seq<char>>::empty();
    assert(seq![line].drop_last() =~= none);
    assert(rules_of(none) =~= Seq::<RuleView>::empty());
    assert(rules_of(seq![line]) =~= match rule_of(line) {
        Some(rule) => seq![rule],
        None => Seq::empty(),
    });
    if b.len() == 0 {
        assert(a + b =~= a);
        assert(rules_of(a) + rules_of(b) =~= rules_of(a));
    } else {
        rules_follow_their_lines(a, b.drop_last(), line);
        assert((a + b).drop_last() =~= a + b.drop_last());
        assert((a + b).last() == b.last());
        assert(rules_of(a + b) =~= rules_of(a) + rules_of(b));
    }
}

/// Whether bytes from one index to another are a component: no slash within, and nothing
/// or a slash on either side.
pub open spec fn is_component(bytes: Seq<u8>, from: int, to: int) -> bool {
    &&& 0 <= from <= to <= bytes.len()
    &&& from == 0 || bytes[from - 1] == 47
    &&& to == bytes.len() || bytes[to] == 47
    &&& forall|i: int| from <= i < to ==> (#[trigger] bytes[i]) != 47
}

/// Whether a pattern describes a component of a path, up to an end.
pub open spec fn describes_component(pattern: Seq<u8>, bytes: Seq<u8>, end: int) -> bool {
    exists|from: int, to: int|
        #[trigger] is_component(bytes, from, to) && to <= end && glob(
            pattern,
            bytes.subrange(from, to),
        )
}

/// Whether an index is the end of a path or of a directory above it.
pub open spec fn ends_directory(bytes: Seq<u8>, end: int, is_directory: bool) -> bool {
    (end == bytes.len() && is_directory) || (0 <= end < bytes.len() && bytes[end] == 47)
}

/// Whether a pattern describes a path up to an end: the whole of it, or a component.
pub open spec fn describes_upto(pattern: Seq<u8>, bytes: Seq<u8>, end: int, whole: bool) -> bool {
    if whole {
        glob(pattern, bytes.take(end))
    } else {
        describes_component(pattern, bytes, end)
    }
}

proof fn lemma_joined(pieces: Seq<Seq<u8>>)
    ensures
        joined(pieces) == rejoined(pieces, 47u8),
    decreases pieces.len(),
{
    if pieces.len() > 1 {
        lemma_joined(pieces.drop_last());
        assert(joined(pieces) =~= rejoined(pieces, 47u8));
    }
}

/// The first components are those of the bytes up to a slash or the end.
proof fn lemma_components_upto(bytes: Seq<u8>, count: int) -> (end: int)
    requires
        1 <= count <= split_on(bytes, 47u8).len(),
    ensures
        0 <= end <= bytes.len(),
        split_on(bytes.take(end), 47u8) == split_on(bytes, 47u8).take(count),
        (count == split_on(bytes, 47u8).len()) == (end == bytes.len()),
        end < bytes.len() ==> bytes[end] == 47,
    decreases bytes.len(),
{
    let whole = split_on(bytes, 47u8);
    if count == whole.len() {
        assert(bytes.take(bytes.len() as int) =~= bytes);
        assert(whole.take(count) =~= whole);
        bytes.len() as int
    } else {
        let front = bytes.drop_last();
        let parts = split_on(front, 47u8);
        pieces_make_up_the_whole(front, 47u8);
        let end = lemma_components_upto(front, count);
        assert(bytes.take(end) =~= front.take(end));
        assert(whole.take(count) =~= parts.take(count));
        if end < front.len() {
            assert(bytes[end] == front[end]);
        }
        end
    }
}

/// The bytes up to a slash or the end have the first components.
proof fn lemma_components_at(bytes: Seq<u8>, end: int) -> (count: int)
    requires
        0 <= end <= bytes.len(),
        end < bytes.len() ==> bytes[end] == 47,
    ensures
        1 <= count <= split_on(bytes, 47u8).len(),
        split_on(bytes.take(end), 47u8) == split_on(bytes, 47u8).take(count),
        (count == split_on(bytes, 47u8).len()) == (end == bytes.len()),
    decreases bytes.len(),
{
    let whole = split_on(bytes, 47u8);
    pieces_make_up_the_whole(bytes, 47u8);
    if end == bytes.len() {
        assert(bytes.take(end) =~= bytes);
        assert(whole.take(whole.len() as int) =~= whole);
        whole.len() as int
    } else {
        let front = bytes.drop_last();
        let parts = split_on(front, 47u8);
        pieces_make_up_the_whole(front, 47u8);
        assert(bytes.take(end) =~= front.take(end));
        if end == front.len() {
            assert(front.take(end) =~= front);
            assert(whole.take(parts.len() as int) =~= parts);
            parts.len() as int
        } else {
            assert(front[end] == bytes[end]);
            let count = lemma_components_at(front, end);
            assert(whole.take(count) =~= parts.take(count));
            count
        }
    }
}

/// The last component stands behind the last slash.
proof fn lemma_last_component(bytes: Seq<u8>) -> (from: int)
    ensures
        is_component(bytes, from, bytes.len() as int),
        split_on(bytes, 47u8).len() > 0,
        split_on(bytes, 47u8).last() == bytes.subrange(from, bytes.len() as int),
    decreases bytes.len(),
{
    pieces_make_up_the_whole(bytes, 47u8);
    if bytes.len() == 0 {
        assert(bytes.subrange(0, 0) =~= Seq::<u8>::empty());
        0
    } else if bytes.last() == 47 {
        assert(bytes.subrange(bytes.len() as int, bytes.len() as int) =~= Seq::<u8>::empty());
        bytes.len() as int
    } else {
        let front = bytes.drop_last();
        let from = lemma_last_component(front);
        assert forall|i: int| from <= i < bytes.len() implies (#[trigger] bytes[i]) != 47 by {
            if i < front.len() {
                assert(front[i] != 47);
            }
        }
        if from > 0 {
            assert(front[from - 1] == bytes[from - 1]);
        }
        assert(bytes.subrange(from, bytes.len() as int) =~= front.subrange(
            from,
            front.len() as int,
        ).push(bytes.last()));
        from
    }
}

/// A path has one of its first components described exactly where one of the components
/// up to the same place is.
proof fn lemma_described(pattern: Seq<u8>, bytes: Seq<u8>, count: int, end: int)
    requires
        1 <= count <= split_on(bytes, 47u8).len(),
        0 <= end <= bytes.len(),
        split_on(bytes.take(end), 47u8) == split_on(bytes, 47u8).take(count),
        end < bytes.len() ==> bytes[end] == 47,
    ensures
        component_matches(pattern, split_on(bytes, 47u8), count) == describes_component(
            pattern,
            bytes,
            end,
        ),
{
    let parts = split_on(bytes, 47u8);
    let upto = bytes.take(end);
    if component_matches(pattern, parts, count) {
        let i = choose|i: int| 0 <= i < count && glob(pattern, #[trigger] parts[i]);
        let to = lemma_components_upto(upto, i + 1);
        let head = upto.take(to);
        let from = lemma_last_component(head);
        assert(split_on(head, 47u8).last() == parts[i]);
        assert(head =~= bytes.take(to));
        assert(bytes.subrange(from, to) =~= head.subrange(from, to));
        assert(is_component(bytes, from, to)) by {
            if to < end {
                assert(upto[to] == bytes[to]);
            }
            if from > 0 {
                assert(head[from - 1] == bytes[from - 1]);
            }
            assert forall|k: int| from <= k < to implies (#[trigger] bytes[k]) != 47 by {
                assert(head[k] != 47);
            }
        }
    }
    if describes_component(pattern, bytes, end) {
        let (from, to) = choose|from: int, to: int|
            #[trigger] is_component(bytes, from, to) && to <= end && glob(
                pattern,
                bytes.subrange(from, to),
            );
        if to < end {
            assert(upto[to] == bytes[to]);
        }
        let k = lemma_components_at(upto, to);
        let head = upto.take(to);
        let first = lemma_last_component(head);
        assert(split_on(head, 47u8).last() == parts[k - 1]);
        assert(first == from) by {
            if first < from {
                assert(head[from - 1] == bytes[from - 1]);
                assert(head[from - 1] != 47);
            }
            if from < first {
                assert(head[first - 1] == bytes[first - 1]);
                assert(bytes[first - 1] != 47);
            }
        }
        assert(head.subrange(from, to) =~= bytes.subrange(from, to));
        assert(glob(pattern, parts[k - 1]));
    }
}

/// Whether a rule is held against whole paths: where it is anchored or its pattern holds a
/// slash.
pub open spec fn held_against_paths(rule: RuleView) -> bool {
    rule.anchored || exists|i: int|
        0 <= i < rule.pattern.len() && #[trigger] rule.pattern[i] == '/'
}

/// Whether a rule for directories names a directory above a path, or the path where it is
/// one itself.
pub open spec fn names_directory(rule: RuleView, bytes: Seq<u8>, is_directory: bool) -> bool {
    exists|end: int| #[trigger]
        ends_directory(bytes, end, is_directory) && describes_upto(
            encode_utf8(rule.pattern),
            bytes,
            end,
            held_against_paths(rule),
        )
}

proof fn lemma_directory_found(rule: RuleView, path: Seq<char>, is_directory: bool, k: int)
    requires
        ({
            let pattern = encode_utf8(rule.pattern);
            let parts = split_on(encode_utf8(path), 47u8);
            let count = if is_directory {
                parts.len() as int
            } else {
                parts.len() - 1
            };
            1 <= k <= count && if held_against_paths(rule) {
                glob(pattern, joined(parts.take(k)))
            } else {
                component_matches(pattern, parts, k)
            }
        }),
    ensures
        names_directory(rule, encode_utf8(path), is_directory),
{
    let pattern = encode_utf8(rule.pattern);
    let bytes = encode_utf8(path);
    let parts = split_on(bytes, 47u8);
    let end = lemma_components_upto(bytes, k);
    lemma_described(pattern, bytes, k, end);
    lemma_joined(parts.take(k));
    pieces_make_up_the_whole(bytes.take(end), 47u8);
    assert(joined(parts.take(k)) == bytes.take(end));
    assert(ends_directory(bytes, end, is_directory));
    assert(describes_upto(pattern, bytes, end, held_against_paths(rule)));
}

proof fn lemma_directory_matches(rule: RuleView, path: Seq<char>, is_directory: bool) -> (k: int)
    requires
        names_directory(rule, encode_utf8(path), is_directory),
    ensures
        ({
            let pattern = encode_utf8(rule.pattern);
            let parts = split_on(encode_utf8(path), 47u8);
            let count = if is_directory {
                parts.len() as int
            } else {
                parts.len() - 1
            };
            1 <= k <= count && if held_against_paths(rule) {
                glob(pattern, joined(parts.take(k)))
            } else {
                component_matches(pattern, parts, k)
            }
        }),
{
    let pattern = encode_utf8(rule.pattern);
    let bytes = encode_utf8(path);
    let parts = split_on(bytes, 47u8);
    let end = choose|end: int| #[trigger]
        ends_directory(bytes, end, is_directory) && describes_upto(
            pattern,
            bytes,
            end,
            held_against_paths(rule),
        );
    let k = lemma_components_at(bytes, end);
    lemma_described(pattern, bytes, k, end);
    lemma_joined(parts.take(k));
    pieces_make_up_the_whole(bytes.take(end), 47u8);
    assert(joined(parts.take(k)) == bytes.take(end));
    k
}

/// Which paths a rule matches. A pattern that is anchored or holds a slash is held against
/// whole paths, any other against each component. A rule for directories is held against
/// the directories above a path, and against the path where it is one itself.
pub proof fn rules_match_what_they_name(rule: RuleView, path: Seq<char>, is_directory: bool)
    ensures
        ({
            let pattern = encode_utf8(rule.pattern);
            let bytes = encode_utf8(path);
            rule_matches(rule, path, is_directory) == (if rule.directory_only {
                names_directory(rule, bytes, is_directory)
            } else if held_against_paths(rule) {
                glob(pattern, bytes)
            } else {
                describes_component(pattern, bytes, bytes.len() as int)
            })
        }),
{
    let pattern = encode_utf8(rule.pattern);
    let bytes = encode_utf8(path);
    let parts = split_on(bytes, 47u8);
    assert(held_against_paths(rule) == whole_path(rule));
    pieces_make_up_the_whole(bytes, 47u8);
    if rule.directory_only {
        let count = if is_directory {
            parts.len() as int
        } else {
            parts.len() - 1
        };
        if rule_matches(rule, path, is_directory) {
            let k = choose|k: int|
                1 <= k <= count && if whole_path(rule) {
                    glob(pattern, joined(#[trigger] parts.take(k)))
                } else {
                    component_matches(pattern, parts, k)
                };
            lemma_directory_found(rule, path, is_directory, k);
        }
        if names_directory(rule, bytes, is_directory) {
            let k = lemma_directory_matches(rule, path, is_directory);
            assert(parts.take(k) == parts.take(k));
        }
    } else {
        assert(parts.take(parts.len() as int) =~= parts);
        assert(bytes.take(bytes.len() as int) =~= bytes);
        lemma_described(pattern, bytes, parts.len() as int, bytes.len() as int);
    }
}

/// A path that no rule matches is eligible.
pub proof fn unmatched_paths_stay_eligible(
    rules: Seq<RuleView>,
    path: Seq<char>,
    is_directory: bool,
    ignored: bool,
)
    requires
        forall|i: int|
            0 <= i < rules.len() ==> !rule_matches(
                #[trigger] rules[i],
                trim_front(path),
                is_directory,
            ),
    ensures
        ignored_by(rules, trim_front(path), is_directory, ignored) == ignored,
        admits(rules, path, is_directory, false),
    decreases rules.len(),
{
    if rules.len() > 0 {
        let front = rules.drop_last();
        assert(!rule_matches(rules[rules.len() - 1], trim_front(path), is_directory));
        assert forall|i: int| 0 <= i < front.len() implies !rule_matches(
            #[trigger] front[i],
            trim_front(path),
            is_directory,
        ) by {
            assert(front[i] == rules[i]);
        }
        unmatched_paths_stay_eligible(front, path, is_directory, ignored);
        unmatched_paths_stay_eligible(front, path, is_directory, false);
    }
}

/// A slash in front of a path makes no difference.
pub proof fn leading_slashes_do_not_count(
    rules: Seq<RuleView>,
    nested: Nested,
    path: Seq<char>,
    is_directory: bool,
    already_tracked: bool,
)
    ensures
        admits(rules, seq!['/'] + path, is_directory, already_tracked) == admits(
            rules,
            path,
            is_directory,
            already_tracked,
        ),
        path_admitted(rules, nested, seq!['/'] + path, is_directory, already_tracked)
            == path_admitted(rules, nested, path, is_directory, already_tracked),
{
    assert((seq!['/'] + path).skip(1) =~= path);
}

proof fn lemma_encoded(a: Seq<char>, b: Seq<char>)
    ensures
        encode_utf8(a + b) == encode_utf8(a) + encode_utf8(b),
    decreases a.len(),
{
    if a.len() == 0 {
        assert(a + b =~= b);
        assert(encode_utf8(a) + encode_utf8(b) =~= encode_utf8(b));
    } else {
        lemma_encoded(a.drop_first(), b);
        assert((a + b).drop_first() =~= a.drop_first() + b);
        assert((a + b)[0] == a[0]);
        assert(encode_utf8(a + b) =~= encode_utf8(a) + encode_utf8(b));
    }
}

proof fn lemma_plain_bytes(name: Seq<char>)
    requires
        plain_name(name),
    ensures
        encode_utf8(name).len() == name.len(),
        encode_utf8(seq!['/']) == seq![47u8],
        forall|i: int|
            0 <= i < name.len() ==> (#[trigger] encode_utf8(name)[i]) != 42 && encode_utf8(name)[i]
                != 63 && encode_utf8(name)[i] != 47,
{
    assert(is_ascii_chars(name)) by {
        assert forall|i: int| 0 <= i < name.len() implies 0 <= #[trigger] name[i] < 128 by {
            assert(plain_char(name[i]));
        }
    }
    is_ascii_chars_encode_utf8(name);
    assert(is_ascii_chars(seq!['/']));
    is_ascii_chars_encode_utf8(seq!['/']);
    assert(encode_utf8(seq!['/']) =~= seq![47u8]);
    assert forall|i: int| 0 <= i < name.len() implies (#[trigger] encode_utf8(name)[i]) != 42
        && encode_utf8(name)[i] != 63 && encode_utf8(name)[i] != 47 by {
        assert(plain_char(name[i]));
    }
}

/// A rule text that ends with a name ignores the name wherever it stands, as a file or a
/// directory. One that ends with a slash and the name ignores the name at the root, and
/// leaves the decision on the name in any directory to the text in front.
pub proof fn anchored_names_match_at_the_root(
    text: Seq<char>,
    name: Seq<char>,
    directory: Seq<char>,
    is_directory: bool,
)
    requires
        plain_name(name),
        directory.len() > 0,
        directory[0] != '/',
    ensures
        ({
            let anchored = rules_of(lines(text.push('\n') + (seq!['/'] + name)));
            let free = rules_of(lines(text.push('\n') + name));
            let inner = directory + seq!['/'] + name;
            &&& !admits(anchored, name, is_directory, false)
            &&& admits(anchored, inner, is_directory, false) == admits(
                rules_of(lines(text.push('\n'))),
                inner,
                is_directory,
                false,
            )
            &&& !admits(free, name, is_directory, false)
            &&& !admits(free, inner, is_directory, false)
        }),
{
    let marked = seq!['/'] + name;
    let inner = directory + seq!['/'] + name;
    let held = RuleView { pattern: name, negated: false, directory_only: false, anchored: true };
    let loose = RuleView { pattern: name, negated: false, directory_only: false, anchored: false };
    assert(plain_char(name[0]));
    assert(plain_char(name[name.len() - 1]));
    rules_spell_their_markers(name, false, true, false);
    rules_spell_their_markers(name, false, false, false);
    assert(marker(false, '!') + marker(true, '/') + name + marker(false, '/') =~= marked);
    assert(marker(false, '!') + marker(false, '/') + name + marker(false, '/') =~= name);
    assert forall|i: int| 0 <= i < name.len() implies (#[trigger] name[i]) != '\n' by {
        assert(plain_char(name[i]));
    }
    assert forall|i: int| 0 <= i < marked.len() implies (#[trigger] marked[i]) != '\n' by {
        if i > 0 {
            assert(marked[i] == name[i - 1]);
        }
    }
    lemma_last_rule(text, marked, held);
    lemma_last_rule(text, name, loose);
    let base = rules_of(lines(text.push('\n')));
    assert(base.push(held).drop_last() =~= base);
    assert(base.push(loose).drop_last() =~= base);
    assert(trim_front(name) == name);
    assert(inner[0] == directory[0]);
    assert(trim_front(inner) == inner);
    lemma_root_and_inner(name, directory, is_directory);
}

/// An anchored name matches the name and not the name in a directory; a free one both.
proof fn lemma_root_and_inner(name: Seq<char>, directory: Seq<char>, is_directory: bool)
    requires
        plain_name(name),
    ensures
        ({
            let held = RuleView {
                pattern: name,
                negated: false,
                directory_only: false,
                anchored: true,
            };
            let loose = RuleView { anchored: false, ..held };
            let inner = directory + seq!['/'] + name;
            &&& rule_matches(held, name, is_directory)
            &&& !rule_matches(held, inner, is_directory)
            &&& rule_matches(loose, name, is_directory)
            &&& rule_matches(loose, inner, is_directory)
        }),
{
    let held = RuleView { pattern: name, negated: false, directory_only: false, anchored: true };
    let loose = RuleView { anchored: false, ..held };
    let inner = directory + seq!['/'] + name;
    let bytes = encode_utf8(name);
    let deep = encode_utf8(inner);
    lemma_plain_bytes(name);
    lemma_encoded(directory, seq!['/']);
    lemma_encoded(directory + seq!['/'], name);
    let start = (encode_utf8(directory).len() + 1) as int;
    assert(deep =~= encode_utf8(directory) + seq![47u8] + bytes);
    assert forall|i: int| 0 <= i < name.len() implies #[trigger] name[i] != '/' by {
        assert(plain_char(name[i]));
    }
    rules_match_what_they_name(held, name, is_directory);
    rules_match_what_they_name(held, inner, is_directory);
    rules_match_what_they_name(loose, name, is_directory);
    rules_match_what_they_name(loose, inner, is_directory);
    literal_patterns_describe_themselves(bytes, bytes);
    literal_patterns_describe_themselves(bytes, deep);
    assert(bytes.len() < deep.len());
    assert(bytes.subrange(0, bytes.len() as int) =~= bytes);
    assert(is_component(bytes, 0, bytes.len() as int));
    assert(deep.subrange(start, deep.len() as int) =~= bytes);
    assert(is_component(deep, start, deep.len() as int)) by {
        assert forall|i: int| start <= i < deep.len() implies (#[trigger] deep[i]) != 47 by {
            assert(deep[i] == bytes[i - start]);
        }
    }
}

/// A rule text that ends with a name and a slash ignores directories of the name and
/// everything below them, and leaves the decision on a file of the name at the root to
/// the text in front.
pub proof fn directory_rules_cover_what_is_below(
    text: Seq<char>,
    name: Seq<char>,
    below: Seq<char>,
    is_directory: bool,
)
    requires
        plain_name(name),
    ensures
        ({
            let rules = rules_of(lines(text.push('\n') + (name + seq!['/'])));
            &&& !admits(rules, name, true, false)
            &&& !admits(rules, name + seq!['/'] + below, is_directory, false)
            &&& admits(rules, name, false, false) == admits(
                rules_of(lines(text.push('\n'))),
                name,
                false,
                false,
            )
        }),
{
    let marked = name + seq!['/'];
    let inner = name + seq!['/'] + below;
    let rule = RuleView { pattern: name, negated: false, directory_only: true, anchored: false };
    assert(plain_char(name[0]));
    assert(plain_char(name[name.len() - 1]));
    rules_spell_their_markers(name, false, false, true);
    assert(marker(false, '!') + marker(false, '/') + name + marker(true, '/') =~= marked);
    assert forall|i: int| 0 <= i < marked.len() implies (#[trigger] marked[i]) != '\n' by {
        if i < name.len() {
            assert(plain_char(name[i]));
        }
    }
    lemma_last_rule(text, marked, rule);
    let base = rules_of(lines(text.push('\n')));
    assert(base.push(rule).drop_last() =~= base);
    assert(trim_front(name) == name);
    assert(inner[0] == name[0]);
    assert(trim_front(inner) == inner);
    let bytes = encode_utf8(name);
    let deep = encode_utf8(inner);
    lemma_plain_bytes(name);
    lemma_encoded(name, seq!['/']);
    lemma_encoded(marked, below);
    assert(deep =~= bytes + seq![47u8] + encode_utf8(below));
    assert forall|i: int| 0 <= i < name.len() implies #[trigger] name[i] != '/' by {
        assert(plain_char(name[i]));
    }
    rules_match_what_they_name(rule, name, true);
    rules_match_what_they_name(rule, name, false);
    rules_match_what_they_name(rule, inner, is_directory);
    lemma_glob_self(bytes);
    let end = bytes.len() as int;
    assert(bytes.subrange(0, end) =~= bytes);
    assert(is_component(bytes, 0, end));
    assert(describes_component(bytes, bytes, end));
    assert(ends_directory(bytes, end, true));
    assert(bytes.take(end) =~= bytes);
    assert(deep.subrange(0, end) =~= bytes);
    assert(is_component(deep, 0, end)) by {
        assert forall|i: int| 0 <= i < end implies (#[trigger] deep[i]) != 47 by {
            assert(deep[i] == bytes[i]);
        }
    }
    assert(describes_component(bytes, deep, end));
    assert(ends_directory(deep, end, is_directory));
    assert(deep.take(end) =~= bytes);
    assert(describes_upto(bytes, bytes, end, held_against_paths(rule)));
    assert(describes_upto(bytes, deep, end, held_against_paths(rule)));
    assert forall|other: int| !#[trigger] ends_directory(bytes, other, false) by {
        if 0 <= other < bytes.len() {
            assert(bytes[other] != 47);
        }
    }
}

/// Whether a policy of a directory above a path has a rule that matches the path below it.
pub open spec fn has_match(nested: Nested, path: Seq<char>, at: int, is_directory: bool) -> bool {
    path[at] == '/' && nested.dom().contains(path.take(at)) && exists|i: int|
        0 <= i < nested[path.take(at)].len() && rule_matches(
            #[trigger] nested[path.take(at)][i],
            path.skip(at + 1),
            is_directory,
        )
}

proof fn lemma_no_match(
    nested: Nested,
    path: Seq<char>,
    is_directory: bool,
    from: nat,
    upto: nat,
    ignored: bool,
)
    requires
        from <= upto <= path.len(),
        forall|at: int| from <= at < upto ==> !#[trigger] has_match(nested, path, at, is_directory),
    ensures
        nested_ignored(nested, path, is_directory, upto, ignored) == nested_ignored(
            nested,
            path,
            is_directory,
            from,
            ignored,
        ),
    decreases upto,
{
    if from < upto {
        lemma_no_match(nested, path, is_directory, from, (upto - 1) as nat, ignored);
        let at = upto - 1;
        assert(!has_match(nested, path, at, is_directory));
        if path[at] == '/' && nested.dom().contains(path.take(at)) {
            let rules = nested[path.take(at)];
            lemma_none_decides(
                rules,
                path.skip(at + 1),
                is_directory,
                nested_ignored(nested, path, is_directory, (upto - 1) as nat, ignored),
            );
        }
    }
}

proof fn lemma_none_decides(
    rules: Seq<RuleView>,
    path: Seq<char>,
    is_directory: bool,
    ignored: bool,
)
    requires
        forall|i: int|
            0 <= i < rules.len() ==> !rule_matches(#[trigger] rules[i], path, is_directory),
    ensures
        ignored_by(rules, path, is_directory, ignored) == ignored,
    decreases rules.len(),
{
    if rules.len() > 0 {
        let front = rules.drop_last();
        assert(!rule_matches(rules[rules.len() - 1], path, is_directory));
        assert forall|i: int| 0 <= i < front.len() implies !rule_matches(
            #[trigger] front[i],
            path,
            is_directory,
        ) by {
            assert(front[i] == rules[i]);
        }
        lemma_none_decides(front, path, is_directory, ignored);
    }
}

proof fn lemma_last_decides(
    rules: Seq<RuleView>,
    last: int,
    path: Seq<char>,
    is_directory: bool,
    ignored: bool,
)
    requires
        0 <= last < rules.len(),
        rule_matches(rules[last], path, is_directory),
        forall|i: int|
            last < i < rules.len() ==> !rule_matches(#[trigger] rules[i], path, is_directory),
    ensures
        ignored_by(rules, path, is_directory, ignored) == !rules[last].negated,
    decreases rules.len(),
{
    if last < rules.len() - 1 {
        let front = rules.drop_last();
        assert(!rule_matches(rules[rules.len() - 1], path, is_directory));
        assert(front[last] == rules[last]);
        assert forall|i: int| last < i < front.len() implies !rule_matches(
            #[trigger] front[i],
            path,
            is_directory,
        ) by {
            assert(front[i] == rules[i]);
        }
        lemma_last_decides(front, last, path, is_directory, ignored);
    }
}

/// The policy of the innermost directory with a rule that matches decides on an untracked
/// path, by the last such rule, which sees the path below its directory.
pub proof fn the_innermost_policy_decides(
    root: Seq<RuleView>,
    nested: Nested,
    path: Seq<char>,
    is_directory: bool,
    at: int,
    last: int,
)
    requires
        path.len() > 0 ==> path[0] != '/',
        0 <= at < path.len(),
        path[at] == '/',
        nested.dom().contains(path.take(at)),
        0 <= last < nested[path.take(at)].len(),
        rule_matches(nested[path.take(at)][last], path.skip(at + 1), is_directory),
        forall|i: int|
            last < i < nested[path.take(at)].len() ==> !rule_matches(
                #[trigger] nested[path.take(at)][i],
                path.skip(at + 1),
                is_directory,
            ),
        forall|deeper: int|
            at < deeper < path.len() ==> !#[trigger] has_match(
                nested,
                path,
                deeper,
                is_directory,
            ),
    ensures
        path_admitted(root, nested, path, is_directory, false)
            == nested[path.take(at)][last].negated,
{
    assert(trim_front(path) == path);
    let first = ignored_by(root, path, is_directory, false);
    lemma_no_match(nested, path, is_directory, (at + 1) as nat, path.len(), first);
    lemma_last_decides(
        nested[path.take(at)],
        last,
        path.skip(at + 1),
        is_directory,
        nested_ignored(nested, path, is_directory, at as nat, first),
    );
}

/// Where no policy of a directory above an untracked path has a rule that matches, the
/// root policy decides.
pub proof fn the_root_policy_decides_otherwise(
    root: Seq<RuleView>,
    nested: Nested,
    path: Seq<char>,
    is_directory: bool,
)
    requires
        path.len() > 0 ==> path[0] != '/',
        forall|at: int|
            0 <= at < path.len() ==> !#[trigger] has_match(nested, path, at, is_directory),
    ensures
        path_admitted(root, nested, path, is_directory, false) == admits(
            root,
            path,
            is_directory,
            false,
        ),
{
    assert(trim_front(path) == path);
    let first = ignored_by(root, path, is_directory, false);
    lemma_no_match(nested, path, is_directory, 0, path.len(), first);
}

} // verus!
