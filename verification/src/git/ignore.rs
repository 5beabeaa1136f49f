//! Ignore rules and the paths they select.

use super::paths::{back_of, trim_back, trim_front};
use crate::order::{OrderedMap, Replicate};
use crate::text::{
    char_lists, chars_of, chomp, has_char, lines, split_bytes, split_inclusive, split_lines,
    split_on, text_between,
};
use vstd::prelude::*;
use vstd::string::*;
use vstd::utf8::{encode_utf8, is_ascii_chars, is_ascii_chars_encode_utf8};

verus! {

/// A pattern byte that stands for exactly the given byte.
pub open spec fn stands_for(pattern: u8, value: u8) -> bool {
    pattern == 63 || pattern == value
}

/// Whether a pattern describes a value. A question mark stands for any one
/// byte and an asterisk for any bytes.
pub open spec fn glob(pattern: Seq<u8>, value: Seq<u8>) -> bool
    decreases pattern.len(),
{
    if pattern.len() == 0 {
        value.len() == 0
    } else if pattern[0] == 42 {
        exists|k: int| 0 <= k <= value.len() && glob(pattern.skip(1), #[trigger] value.skip(k))
    } else {
        value.len() > 0 && stands_for(pattern[0], value[0]) && glob(pattern.skip(1), value.skip(1))
    }
}

/// Whether the pattern from `p` on describes the value from `v` on.
spec fn rest_matches(pattern: Seq<u8>, value: Seq<u8>, p: int, v: int) -> bool {
    glob(pattern.skip(p), value.skip(v))
}

proof fn lemma_rest_literal(pattern: Seq<u8>, value: Seq<u8>, p: int, v: int)
    requires
        0 <= p < pattern.len(),
        0 <= v < value.len(),
        pattern[p] != 42,
        stands_for(pattern[p], value[v]),
    ensures
        rest_matches(pattern, value, p, v) == rest_matches(pattern, value, p + 1, v + 1),
{
    assert(pattern.skip(p)[0] == pattern[p]);
    assert(value.skip(v)[0] == value[v]);
    assert(pattern.skip(p).skip(1) =~= pattern.skip(p + 1));
    assert(value.skip(v).skip(1) =~= value.skip(v + 1));
}

proof fn lemma_rest_star(pattern: Seq<u8>, value: Seq<u8>, p: int, v: int)
    requires
        0 <= p < pattern.len(),
        0 <= v <= value.len(),
        pattern[p] == 42,
    ensures
        rest_matches(pattern, value, p, v) == exists|k: int|
            v <= k <= value.len() && #[trigger] rest_matches(pattern, value, p + 1, k),
{
    let pat = pattern.skip(p);
    let val = value.skip(v);
    assert(pat[0] == pattern[p]);
    assert(pat.skip(1) =~= pattern.skip(p + 1));
    if rest_matches(pattern, value, p, v) {
        let k = choose|k: int| 0 <= k <= val.len() && glob(pat.skip(1), #[trigger] val.skip(k));
        assert(val.skip(k) =~= value.skip(v + k));
        assert(rest_matches(pattern, value, p + 1, v + k));
    }
    if exists|k: int| v <= k <= value.len() && #[trigger] rest_matches(pattern, value, p + 1, k) {
        let k = choose|k: int|
            v <= k <= value.len() && #[trigger] rest_matches(pattern, value, p + 1, k);
        assert(val.skip(k - v) =~= value.skip(k));
        assert(glob(pat.skip(1), val.skip(k - v)));
    }
}

/// A run of pattern bytes that describes the value at `y` byte for byte is
/// passed no earlier when it is tried further on.
proof fn lemma_rest_catches_up(
    pattern: Seq<u8>,
    value: Seq<u8>,
    p: int,
    y: int,
    x: int,
    length: int,
) -> (past: int)
    requires
        0 <= length,
        0 <= p,
        p + length <= pattern.len(),
        0 <= y <= x <= value.len(),
        y + length <= value.len(),
        forall|t: int|
            0 <= t < length ==> (#[trigger] pattern[p + t]) != 42 && stands_for(
                pattern[p + t],
                value[y + t],
            ),
        rest_matches(pattern, value, p, x),
    ensures
        y + length <= past <= value.len(),
        rest_matches(pattern, value, p + length, past),
    decreases length,
{
    if length == 0 {
        x
    } else {
        assert(pattern[p + 0] != 42);
        assert forall|t: int| 0 <= t < length - 1 implies (#[trigger] pattern[p + 1 + t]) != 42
            && stands_for(pattern[p + 1 + t], value[y + 1 + t]) by {
            assert(pattern[p + (t + 1)] != 42 && stands_for(
                pattern[p + (t + 1)],
                value[y + (t + 1)],
            ));
        }
        assert(pattern.skip(p)[0] == pattern[p]);
        if x < value.len() {
            assert(value.skip(x)[0] == value[x]);
        }
        lemma_rest_literal(pattern, value, p, x);
        lemma_rest_catches_up(pattern, value, p + 1, y + 1, x + 1, length - 1)
    }
}

/// Whether the part of a pattern after its last asterisk can still be tried
/// further on than `checkpoint`.
spec fn retry_matches(
    pattern: Seq<u8>,
    value: Seq<u8>,
    star: Option<usize>,
    checkpoint: int,
) -> bool {
    star is Some && exists|k: int|
        checkpoint < k <= value.len() && #[trigger] rest_matches(pattern, value, star->0 + 1, k)
}

/// Tells whether a pattern describes a value.
pub fn wildcard_matches(pattern: &[u8], value: &[u8]) -> (r: bool)
    ensures
        r == glob(pattern@, value@),
{
    let ghost pat = pattern@;
    let ghost val = value@;
    let mut pattern_index: usize = 0;
    let mut value_index: usize = 0;
    let mut star: Option<usize> = None;
    let mut checkpoint: usize = 0;
    proof {
        assert(pat.skip(0) =~= pat);
        assert(val.skip(0) =~= val);
    }
    while value_index < value.len()
        invariant
            pat == pattern@,
            val == value@,
            pattern_index <= pat.len(),
            value_index <= val.len(),
            checkpoint <= value_index,
            star is None ==> checkpoint == 0 && pattern_index == value_index,
            star matches Some(s) ==> s < pattern_index && pattern_index - (s + 1) == value_index
                - checkpoint && forall|t: int|
                0 <= t < value_index - checkpoint ==> (#[trigger] pat[s + 1 + t]) != 42
                    && stands_for(pat[s + 1 + t], val[checkpoint + t]),
            glob(pat, val) == (rest_matches(pat, val, pattern_index as int, value_index as int)
                || retry_matches(pat, val, star, checkpoint as int)),
        decreases
                (match star {
                    Some(s) => pat.len() - s,
                    None => pat.len() + 1int,
                }),
                val.len() - checkpoint,
                val.len() - value_index,
    {
        if pattern_index < pattern.len() && pattern[pattern_index] == 42 {
            proof {
                let p = pattern_index as int;
                let v = value_index as int;
                lemma_rest_star(pat, val, p, v);
                if retry_matches(pat, val, star, checkpoint as int) {
                    let s = star->0 as int;
                    let k = choose|k: int|
                        checkpoint < k <= val.len() && #[trigger] rest_matches(pat, val, s + 1, k);
                    let past = lemma_rest_catches_up(
                        pat,
                        val,
                        s + 1,
                        checkpoint as int,
                        k,
                        v - checkpoint,
                    );
                    lemma_rest_star(pat, val, p, past);
                    let later = choose|later: int|
                        past <= later <= val.len() && #[trigger] rest_matches(
                            pat,
                            val,
                            p + 1,
                            later,
                        );
                    assert(v <= later && rest_matches(pat, val, p + 1, later));
                    assert(rest_matches(pat, val, p, v));
                }
                let next = Some(pattern_index);
                if rest_matches(pat, val, p, v) {
                    let k = choose|k: int|
                        v <= k <= val.len() && #[trigger] rest_matches(pat, val, p + 1, k);
                    if k > v {
                        assert(rest_matches(pat, val, next->0 + 1, k));
                        assert(retry_matches(pat, val, next, v));
                    }
                }
            }
            star = Some(pattern_index);
            pattern_index = pattern_index + 1;
            checkpoint = value_index;
        } else if pattern_index < pattern.len() && (pattern[pattern_index] == 63
            || pattern[pattern_index] == value[value_index]) {
            proof {
                lemma_rest_literal(pat, val, pattern_index as int, value_index as int);
                if let Some(s) = star {
                    assert(pat[s + 1 + (value_index - checkpoint)] == pat[pattern_index as int]);
                }
            }
            pattern_index = pattern_index + 1;
            value_index = value_index + 1;
        } else {
            proof {
                let p = pattern_index as int;
                if p < pat.len() {
                    assert(pat.skip(p)[0] == pat[p]);
                    assert(val.skip(value_index as int)[0] == val[value_index as int]);
                }
                assert(!rest_matches(pat, val, p, value_index as int));
            }
            match star {
                Some(star_index) => {
                    proof {
                        let c = checkpoint as int;
                        if retry_matches(pat, val, star, c) {
                            let k = choose|k: int|
                                c < k <= val.len() && #[trigger] rest_matches(
                                    pat,
                                    val,
                                    star_index + 1,
                                    k,
                                );
                            if k > c + 1 {
                                assert(retry_matches(pat, val, star, c + 1));
                            }
                        }
                    }
                    pattern_index = star_index + 1;
                    checkpoint = checkpoint + 1;
                    value_index = checkpoint;
                },
                None => {
                    return false;
                },
            }
        }
    }
    proof {
        if retry_matches(pat, val, star, checkpoint as int) {
            let s = star->0 as int;
            let k = choose|k: int|
                checkpoint < k <= val.len() && #[trigger] rest_matches(pat, val, s + 1, k);
            let past = lemma_rest_catches_up(
                pat,
                val,
                s + 1,
                checkpoint as int,
                k,
                value_index - checkpoint,
            );
            assert(past == value_index);
        }
    }
    while pattern_index < pattern.len() && pattern[pattern_index] == 42
        invariant
            pat == pattern@,
            val == value@,
            value_index == val.len(),
            pattern_index <= pat.len(),
            glob(pat, val) == rest_matches(pat, val, pattern_index as int, val.len() as int),
        decreases pat.len() - pattern_index,
    {
        proof {
            lemma_rest_star(pat, val, pattern_index as int, val.len() as int);
            if rest_matches(pat, val, pattern_index + 1, val.len() as int) {
                assert(exists|k: int|
                    val.len() <= k <= val.len() && #[trigger] rest_matches(
                        pat,
                        val,
                        pattern_index + 1,
                        k,
                    ));
            }
        }
        pattern_index = pattern_index + 1;
    }
    proof {
        if pattern_index < pat.len() {
            assert(pat.skip(pattern_index as int)[0] == pat[pattern_index as int]);
        }
    }
    pattern_index == pattern.len()
}

/// One ignore rule.
#[derive(Debug, PartialEq, Eq)]
pub struct GitIgnoreRule {
    /// Pattern without its markers.
    pub pattern: String,
    /// Whether a match readmits a path.
    pub negated: bool,
    /// Whether only directories match.
    pub directory_only: bool,
    /// Whether the pattern is matched against whole paths.
    pub anchored: bool,
}

/// Abstract value of [`GitIgnoreRule`].
#[verifier::ext_equal]
pub struct RuleView {
    /// Pattern without its markers.
    pub pattern: Seq<char>,
    /// Whether a match readmits a path.
    pub negated: bool,
    /// Whether only directories match.
    pub directory_only: bool,
    /// Whether the pattern is matched against whole paths.
    pub anchored: bool,
}

impl View for GitIgnoreRule {
    type V = RuleView;

    open spec fn view(&self) -> RuleView {
        RuleView {
            pattern: self.pattern@,
            negated: self.negated,
            directory_only: self.directory_only,
            anchored: self.anchored,
        }
    }
}

/// Ignore policy used by commit and parent-join capture.
///
/// Already tracked paths always remain eligible. Rules are evaluated in order;
/// later matches win and `!` negates an ignore rule. The matcher covers a
/// portable subset: `*`, `?`, directory suffixes, and anchored paths.
#[derive(Debug, PartialEq, Eq)]
pub struct GitIgnorePolicy {
    rules: Vec<GitIgnoreRule>,
}

impl View for GitIgnorePolicy {
    type V = Seq<RuleView>;

    closed spec fn view(&self) -> Seq<RuleView> {
        crate::order::views(self.rules@)
    }
}

/// A line without trailing carriage returns.
pub open spec fn without_returns(line: Seq<char>) -> Seq<char>
    decreases line.len(),
{
    if line.len() > 0 && line.last() == '\r' {
        without_returns(line.drop_last())
    } else {
        line
    }
}

/// The text after a marker, where it starts with one.
pub open spec fn after_marker(text: Seq<char>, marker: char) -> Seq<char> {
    if crate::text::begins(text, marker) {
        text.skip(1)
    } else {
        text
    }
}

/// The rule that a line spells; blank lines, comments and bare markers spell none.
pub open spec fn rule_of(line: Seq<char>) -> Option<RuleView> {
    let text = without_returns(line);
    if text.len() == 0 || text[0] == '#' {
        None
    } else {
        let named = after_marker(text, '!');
        let body = after_marker(named, '/');
        let pattern = trim_back(body);
        if pattern.len() == 0 {
            None
        } else {
            Some(
                RuleView {
                    pattern,
                    negated: text[0] == '!',
                    directory_only: body.last() == '/',
                    anchored: crate::text::begins(named, '/'),
                },
            )
        }
    }
}

/// The rules that lines spell, in order.
pub open spec fn rules_of(lines: Seq<Seq<char>>) -> Seq<RuleView>
    decreases lines.len(),
{
    if lines.len() == 0 {
        Seq::empty()
    } else {
        match rule_of(lines.last()) {
            Some(rule) => rules_of(lines.drop_last()).push(rule),
            None => rules_of(lines.drop_last()),
        }
    }
}

/// Path components joined by slashes.
pub open spec fn joined(components: Seq<Seq<u8>>) -> Seq<u8>
    decreases components.len(),
{
    if components.len() == 0 {
        Seq::empty()
    } else if components.len() == 1 {
        components[0]
    } else {
        joined(components.drop_last()) + seq![47u8] + components.last()
    }
}

/// Whether the pattern of a rule is matched against whole paths.
pub open spec fn whole_path(rule: RuleView) -> bool {
    rule.anchored || rule.pattern.contains('/')
}

/// Whether one of the first `count` components matches.
pub open spec fn component_matches(pattern: Seq<u8>, components: Seq<Seq<u8>>, count: int) -> bool {
    exists|i: int| 0 <= i < count && glob(pattern, #[trigger] components[i])
}

/// Whether a rule matches a path.
pub open spec fn rule_matches(rule: RuleView, path: Seq<char>, is_directory: bool) -> bool {
    let pattern = encode_utf8(rule.pattern);
    let components = split_on(encode_utf8(path), 47u8);
    if rule.directory_only {
        let count = if is_directory {
            components.len() as int
        } else {
            components.len() - 1
        };
        exists|end: int|
            1 <= end <= count && if whole_path(rule) {
                glob(pattern, joined(#[trigger] components.take(end)))
            } else {
                component_matches(pattern, components, end)
            }
    } else if whole_path(rule) {
        glob(pattern, encode_utf8(path))
    } else {
        component_matches(pattern, components, components.len() as int)
    }
}

/// Whether rules leave a path ignored; the last match decides.
pub open spec fn ignored_by(
    rules: Seq<RuleView>,
    path: Seq<char>,
    is_directory: bool,
    ignored: bool,
) -> bool
    decreases rules.len(),
{
    if rules.len() == 0 {
        ignored
    } else if rule_matches(rules.last(), path, is_directory) {
        !rules.last().negated
    } else {
        ignored_by(rules.drop_last(), path, is_directory, ignored)
    }
}

/// Whether a path takes part in compatibility history.
pub open spec fn admits(
    rules: Seq<RuleView>,
    path: Seq<char>,
    is_directory: bool,
    already_tracked: bool,
) -> bool {
    already_tracked || !ignored_by(rules, trim_front(path), is_directory, false)
}

fn component_found(pattern: &[u8], components: &Vec<Vec<u8>>, count: usize) -> (r: bool)
    requires
        count <= components@.len(),
    ensures
        r == exists|i: int| 0 <= i < count && glob(pattern@, (#[trigger] components@[i])@),
{
    let mut i: usize = 0;
    while i < count
        invariant
            i <= count <= components@.len(),
            forall|k: int| 0 <= k < i ==> !glob(pattern@, (#[trigger] components@[k])@),
        decreases count - i,
    {
        if wildcard_matches(pattern, components[i].as_slice()) {
            assert(glob(pattern@, components@[i as int]@));
            return true;
        }
        i = i + 1;
    }
    false
}

/// Tells whether a rule matches a path.
pub fn ignore_matches(rule: &GitIgnoreRule, path: &str, is_directory: bool) -> (r: bool)
    ensures
        r == rule_matches(rule@, path@, is_directory),
{
    let pattern = rule.pattern.as_str().as_bytes();
    let value = path.as_bytes();
    let letters = chars_of(rule.pattern.as_str());
    let whole = rule.anchored || has_char(letters.as_slice(), '/');
    let components = split_bytes(value, 47);
    let ghost parts = split_on(value@, 47u8);
    assert forall|i: int| 0 <= i < components@.len() implies (#[trigger] components@[i])@
        == parts[i] by {}
    if rule.directory_only {
        let count: usize = if is_directory {
            components.len()
        } else {
            components.len() - 1
        };
        let mut directory: Vec<u8> = Vec::new();
        let mut end: usize = 0;
        assert(directory@ =~= joined(parts.take(0)));
        while end < count
            invariant
                end <= count <= components@.len(),
                components@.len() == parts.len(),
                parts == split_on(encode_utf8(path@), 47u8),
                forall|i: int|
                    0 <= i < components@.len() ==> (#[trigger] components@[i])@ == parts[i],
                pattern@ == encode_utf8(rule@.pattern),
                whole == whole_path(rule@),
                rule.directory_only,
                count == if is_directory {
                    parts.len() as int
                } else {
                    parts.len() - 1
                },
                directory@ == joined(parts.take(end as int)),
                forall|k: int|
                    1 <= k <= end ==> !(if whole {
                        glob(pattern@, joined(#[trigger] parts.take(k)))
                    } else {
                        component_matches(pattern@, parts, k)
                    }),
            decreases count - end,
        {
            let ghost before = directory@;
            if end > 0 {
                directory.push(47);
            }
            let ghost middle = directory@;
            directory.extend_from_slice(components[end].as_slice());
            proof {
                let next = parts.take(end + 1);
                assert(directory@ =~= middle + parts[end as int]);
                assert(next.drop_last() =~= parts.take(end as int));
                assert(next.last() == parts[end as int]);
                if end == 0 {
                    assert(directory@ =~= next[0]);
                } else {
                    assert(directory@ =~= before + seq![47u8] + next.last());
                }
                assert(directory@ =~= joined(next));
            }
            end = end + 1;
            let hit = if whole {
                wildcard_matches(pattern, directory.as_slice())
            } else {
                let found = component_found(pattern, &components, end);
                proof {
                    if found {
                        let i = choose|i: int|
                            0 <= i < end && glob(pattern@, (#[trigger] components@[i])@);
                        assert(glob(pattern@, parts[i]));
                    }
                    if component_matches(pattern@, parts, end as int) {
                        let i = choose|i: int| 0 <= i < end && glob(pattern@, #[trigger] parts[i]);
                        assert(glob(pattern@, components@[i]@));
                    }
                }
                found
            };
            if hit {
                assert(parts.take(end as int) == parts.take(end as int));
                return true;
            }
        }
        return false;
    }
    if whole {
        wildcard_matches(pattern, value)
    } else {
        let found = component_found(pattern, &components, components.len());
        proof {
            if found {
                let i = choose|i: int|
                    0 <= i < components@.len() && glob(pattern@, (#[trigger] components@[i])@);
                assert(glob(pattern@, parts[i]));
            }
            if component_matches(pattern@, parts, parts.len() as int) {
                let i = choose|i: int| 0 <= i < parts.len() && glob(pattern@, #[trigger] parts[i]);
                assert(glob(pattern@, components@[i]@));
            }
        }
        found
    }
}

/// Length of a line without trailing carriage returns.
fn length_without_returns(line: &[char]) -> (end: usize)
    ensures
        end <= line@.len(),
        line@.take(end as int) == without_returns(line@),
{
    let mut end: usize = line.len();
    assert(line@.take(end as int) =~= line@);
    while end > 0 && line[end - 1] == '\r'
        invariant
            end <= line@.len(),
            without_returns(line@.take(end as int)) == without_returns(line@),
        decreases end,
    {
        assert(line@.take(end as int).drop_last() =~= line@.take(end - 1));
        end = end - 1;
    }
    end
}

/// Parses one line.
fn parse_rule(line: &[char]) -> (r: Option<GitIgnoreRule>)
    ensures
        match r {
            Some(rule) => rule_of(line@) == Some(rule@),
            None => rule_of(line@) is None,
        },
{
    let end = length_without_returns(line);
    let text = vstd::slice::slice_subrange(line, 0, end);
    assert(text@ =~= line@.take(end as int));
    if text.len() == 0 || text[0] == '#' {
        return None;
    }
    let negated = text[0] == '!';
    let named = vstd::slice::slice_subrange(
        text,
        if negated {
            1
        } else {
            0
        },
        text.len(),
    );
    assert(named@ =~= after_marker(text@, '!'));
    let anchored = named.len() > 0 && named[0] == '/';
    let body = vstd::slice::slice_subrange(
        named,
        if anchored {
            1
        } else {
            0
        },
        named.len(),
    );
    assert(body@ =~= after_marker(named@, '/'));
    let stop = back_of(body, 0);
    assert(body@.skip(0) =~= body@);
    if stop == 0 {
        return None;
    }
    let directory_only = body[body.len() - 1] == '/';
    let pattern = text_between(body, 0, stop);
    Some(GitIgnoreRule { pattern, negated, directory_only, anchored })
}

impl Default for GitIgnorePolicy {
    fn default() -> (r: Self)
        ensures
            r@ == Seq::<RuleView>::empty(),
    {
        let r = GitIgnorePolicy { rules: Vec::new() };
        assert(r@ =~= Seq::<RuleView>::empty());
        r
    }
}

impl Replicate for GitIgnorePolicy {
    fn replicate(&self) -> (r: Self) {
        let mut rules: Vec<GitIgnoreRule> = Vec::new();
        let mut i: usize = 0;
        while i < self.rules.len()
            invariant
                i <= self.rules@.len(),
                rules@.len() == i,
                forall|k: int| 0 <= k < i ==> (#[trigger] rules@[k])@ == self.rules@[k]@,
            decreases self.rules@.len() - i,
        {
            let rule = &self.rules[i];
            rules.push(
                GitIgnoreRule {
                    pattern: rule.pattern.clone(),
                    negated: rule.negated,
                    directory_only: rule.directory_only,
                    anchored: rule.anchored,
                },
            );
            i = i + 1;
        }
        let r = GitIgnorePolicy { rules };
        assert(r@ =~= self@);
        r
    }
}

impl Clone for GitIgnorePolicy {
    fn clone(&self) -> (r: Self)
        ensures
            r@ == self@,
    {
        self.replicate()
    }
}

impl GitIgnorePolicy {
    /// Parses ignore lines.
    pub fn parse(contents: &str) -> (r: Self)
        ensures
            r@ == rules_of(lines(contents@)),
    {
        let chars = chars_of(contents);
        let pieces = split_lines(chars.as_slice());
        let ghost all = lines(contents@);
        let mut rules: Vec<GitIgnoreRule> = Vec::new();
        let mut i: usize = 0;
        assert(char_lists(pieces@).len() == pieces@.len());
        assert(crate::order::views(rules@) =~= rules_of(all.take(0)));
        while i < pieces.len()
            invariant
                i <= pieces@.len(),
                char_lists(pieces@) == split_inclusive(contents@),
                all == lines(contents@),
                all.len() == pieces@.len(),
                crate::order::views(rules@) == rules_of(all.take(i as int)),
            decreases pieces@.len() - i,
        {
            let piece = &pieces[i];
            let mut end: usize = piece.len();
            assert(piece@ == char_lists(pieces@)[i as int]);
            if end > 0 && piece[end - 1] == '\n' {
                end = end - 1;
                if end > 0 && piece[end - 1] == '\r' {
                    end = end - 1;
                }
            }
            let line = vstd::slice::slice_subrange(piece.as_slice(), 0, end);
            proof {
                assert(line@ =~= chomp(piece@));
                assert(line@ == all[i as int]);
                assert(all.take(i + 1).drop_last() =~= all.take(i as int));
                assert(all.take(i + 1).last() == all[i as int]);
            }
            let ghost before = crate::order::views(rules@);
            if let Some(rule) = parse_rule(line) {
                let ghost added = rule@;
                rules.push(rule);
                assert(crate::order::views(rules@) =~= before.push(added));
            }
            i = i + 1;
        }
        assert(all.take(i as int) =~= all);
        GitIgnorePolicy { rules }
    }

    /// Tells whether a path takes part in compatibility history.
    pub fn eligible(&self, path: &str, is_directory: bool, already_tracked: bool) -> (r: bool)
        ensures
            r == admits(self@, path@, is_directory, already_tracked),
    {
        if already_tracked {
            return true;
        }
        let trimmed = super::paths::trim_leading_slashes(path);
        !self.apply(trimmed.as_str(), is_directory, false)
    }

    /// Applies the rules in order to a path that is ignored or not so far.
    pub fn apply(&self, path: &str, is_directory: bool, ignored: bool) -> (r: bool)
        ensures
            r == ignored_by(self@, path@, is_directory, ignored),
    {
        let mut now = ignored;
        let mut i: usize = 0;
        let ghost rules = self@;
        assert(rules.take(0) =~= Seq::<RuleView>::empty());
        while i < self.rules.len()
            invariant
                i <= self.rules@.len(),
                rules == crate::order::views(self.rules@),
                now == ignored_by(rules.take(i as int), path@, is_directory, ignored),
            decreases self.rules@.len() - i,
        {
            proof {
                assert(rules.take(i + 1).drop_last() =~= rules.take(i as int));
                assert(rules.take(i + 1).last() == rules[i as int]);
            }
            if ignore_matches(&self.rules[i], path, is_directory) {
                now = !self.rules[i].negated;
            }
            i = i + 1;
        }
        assert(rules.take(i as int) =~= rules);
        now
    }
}

/// Nested policies by directory.
pub type Nested = Map<Seq<char>, Seq<RuleView>>;

/// Whether a path is still ignored after the policies of all directories
/// above it, outermost first; each sees the path relative to its directory.
pub open spec fn nested_ignored(
    nested: Nested,
    path: Seq<char>,
    is_directory: bool,
    upto: nat,
    ignored: bool,
) -> bool
    decreases upto,
{
    if upto == 0 {
        ignored
    } else {
        let before = nested_ignored(nested, path, is_directory, (upto - 1) as nat, ignored);
        let at = upto - 1;
        if path[at] == '/' && nested.dom().contains(path.take(at)) {
            ignored_by(nested[path.take(at)], path.skip(at + 1), is_directory, before)
        } else {
            before
        }
    }
}

/// Whether a path takes part in history under a root policy and nested ones.
pub open spec fn path_admitted(
    root: Seq<RuleView>,
    nested: Nested,
    path: Seq<char>,
    is_directory: bool,
    already_tracked: bool,
) -> bool {
    let relative = trim_front(path);
    already_tracked || !nested_ignored(
        nested,
        relative,
        is_directory,
        relative.len(),
        ignored_by(root, relative, is_directory, false),
    )
}

/// Tells whether a path takes part in history under a root policy and nested ones.
pub fn git_path_eligible(
    root: &GitIgnorePolicy,
    nested: &OrderedMap<String, GitIgnorePolicy>,
    path: &str,
    is_directory: bool,
    already_tracked: bool,
) -> (r: bool)
    ensures
        r == path_admitted(root@, nested@, path@, is_directory, already_tracked),
{
    if already_tracked {
        return true;
    }
    let relative = super::paths::trim_leading_slashes(path);
    let first = root.apply(relative.as_str(), is_directory, false);
    let mut ignored = first;
    let chars = chars_of(relative.as_str());
    let mut at: usize = 0;
    while at < chars.len()
        invariant
            at <= chars@.len(),
            chars@ == relative@,
            ignored == nested_ignored(nested@, relative@, is_directory, at as nat, first),
        decreases chars@.len() - at,
    {
        if chars[at] == '/' {
            let directory = text_between(chars.as_slice(), 0, at);
            assert(directory@ =~= relative@.take(at as int));
            if let Some(policy) = nested.get(&directory) {
                let rest = text_between(chars.as_slice(), at + 1, chars.len());
                assert(rest@ =~= relative@.skip(at + 1));
                ignored = policy.apply(rest.as_str(), is_directory, ignored);
            }
        }
        at = at + 1;
    }
    !ignored
}

/// Tracked paths stay eligible whatever the rules say.
pub proof fn tracked_paths_stay_eligible(
    root: Seq<RuleView>,
    nested: Nested,
    path: Seq<char>,
    is_directory: bool,
)
    ensures
        admits(root, path, is_directory, true),
        path_admitted(root, nested, path, is_directory, true),
{
}

/// The last rule that matches a path decides on it.
pub proof fn last_match_decides(
    rules: Seq<RuleView>,
    last: int,
    path: Seq<char>,
    is_directory: bool,
)
    requires
        0 <= last < rules.len(),
        rule_matches(rules[last], trim_front(path), is_directory),
        forall|i: int|
            last < i < rules.len() ==> !rule_matches(
                #[trigger] rules[i],
                trim_front(path),
                is_directory,
            ),
    ensures
        admits(rules, path, is_directory, false) == rules[last].negated,
    decreases rules.len(),
{
    let relative = trim_front(path);
    if last < rules.len() - 1 {
        let front = rules.drop_last();
        assert(!rule_matches(rules[rules.len() - 1], relative, is_directory));
        assert(front[last] == rules[last]);
        assert forall|i: int| last < i < front.len() implies !rule_matches(
            #[trigger] front[i],
            relative,
            is_directory,
        ) by {
            assert(front[i] == rules[i]);
        }
        last_match_decides(front, last, path, is_directory);
    }
}

/// Whether a name is made of ASCII letters and digits.
pub open spec fn plain_name(name: Seq<char>) -> bool {
    name.len() > 0 && forall|i: int|
        0 <= i < name.len() ==> plain_char(#[trigger] name[i])
}

/// Whether a character is an ASCII letter or digit.
pub open spec fn plain_char(c: char) -> bool {
    'a' <= c <= 'z' || 'A' <= c <= 'Z' || '0' <= c <= '9'
}

/// A text that goes on with a line has that line last.
proof fn lemma_last_line(text: Seq<char>, line: Seq<char>)
    requires
        line.len() > 0,
        forall|i: int| 0 <= i < line.len() ==> (#[trigger] line[i]) != '\n',
    ensures
        split_inclusive(text.push('\n') + line) == split_inclusive(text.push('\n')).push(line),
    decreases line.len(),
{
    let base = text.push('\n');
    let whole = base + line;
    let front = line.drop_last();
    assert(whole.drop_last() =~= base + front);
    if line.len() == 1 {
        assert(front =~= Seq::<char>::empty());
        assert(base + front =~= base);
        assert(whole[whole.len() - 2] == '\n');
        assert(seq![whole.last()] =~= line);
    } else {
        lemma_last_line(text, front);
        let shorter = split_inclusive(base).push(front);
        assert(whole[whole.len() - 2] == line[line.len() - 2]);
        assert(shorter.drop_last() =~= split_inclusive(base));
        assert(front.push(whole.last()) =~= line);
    }
}

/// The rules of a text that goes on with a line are its rules and that of the line.
pub(crate) proof fn lemma_last_rule(text: Seq<char>, line: Seq<char>, rule: RuleView)
    requires
        line.len() > 0,
        forall|i: int| 0 <= i < line.len() ==> (#[trigger] line[i]) != '\n',
        rule_of(line) == Some(rule),
    ensures
        rules_of(lines(text.push('\n') + line)) == rules_of(lines(text.push('\n'))).push(rule),
{
    lemma_last_line(text, line);
    let all = lines(text.push('\n') + line);
    assert(all.drop_last() =~= lines(text.push('\n')));
    assert(all.last() == chomp(line));
    assert(line[line.len() - 1] != '\n');
}

/// A pattern describes itself.
pub(crate) proof fn lemma_glob_self(bytes: Seq<u8>)
    ensures
        glob(bytes, bytes),
    decreases bytes.len(),
{
    if bytes.len() > 0 {
        lemma_glob_self(bytes.skip(1));
    }
}

proof fn lemma_one_component(bytes: Seq<u8>)
    requires
        forall|i: int| 0 <= i < bytes.len() ==> (#[trigger] bytes[i]) != 47,
    ensures
        split_on(bytes, 47u8) == seq![bytes],
    decreases bytes.len(),
{
    if bytes.len() > 0 {
        lemma_one_component(bytes.drop_last());
        let front = seq![bytes.drop_last()];
        assert(bytes[bytes.len() - 1] != 47);
        assert(bytes.drop_last().push(bytes.last()) =~= bytes);
        assert(front.drop_last().push(bytes) =~= seq![bytes]);
    } else {
        assert(bytes =~= Seq::<u8>::empty());
    }
}

/// The rule that a plain name spells matches the name.
proof fn lemma_plain_rule(name: Seq<char>, is_directory: bool)
    requires
        plain_name(name),
    ensures
        rule_of(name) == Some(
            RuleView { pattern: name, negated: false, directory_only: false, anchored: false },
        ),
        rule_of(seq!['!'] + name) == Some(
            RuleView { pattern: name, negated: true, directory_only: false, anchored: false },
        ),
        trim_front(name) == name,
        rule_matches(rule_of(name)->0, name, is_directory),
        rule_matches(rule_of(seq!['!'] + name)->0, name, is_directory),
{
    let marked = seq!['!'] + name;
    assert(plain_char(name[0]));
    assert(plain_char(name[name.len() - 1]));
    assert(marked.skip(1) =~= name);
    assert(marked.last() == name[name.len() - 1]);
    let bytes = encode_utf8(name);
    assert(is_ascii_chars(name)) by {
        assert forall|i: int| 0 <= i < name.len() implies 0 <= #[trigger] name[i] < 128 by {
            assert(plain_char(name[i]));
        }
    }
    is_ascii_chars_encode_utf8(name);
    assert forall|i: int| 0 <= i < bytes.len() implies (#[trigger] bytes[i]) != 47 by {
        assert(plain_char(name[i]));
    }
    lemma_one_component(bytes);
    lemma_glob_self(bytes);
    assert(!name.contains('/')) by {
        if name.contains('/') {
            let i = name.index_of('/');
            assert(plain_char(name[i]));
        }
    }
    assert(glob(bytes, split_on(bytes, 47u8)[0]));
    assert(component_matches(bytes, split_on(bytes, 47u8), 1));
}

/// A rule text that ends with a name ignores the name, one that goes on to readmit it
/// keeps it, and a tracked name stays eligible whatever the text says.
pub proof fn parsed_names_decide(text: Seq<char>, name: Seq<char>, is_directory: bool)
    requires
        plain_name(name),
    ensures
        !admits(rules_of(lines(text.push('\n') + name)), name, is_directory, false),
        admits(
            rules_of(lines((text.push('\n') + name).push('\n') + (seq!['!'] + name))),
            name,
            is_directory,
            false,
        ),
        admits(rules_of(lines(text)), name, is_directory, true),
{
    let marked = seq!['!'] + name;
    lemma_plain_rule(name, is_directory);
    assert forall|i: int| 0 <= i < name.len() implies (#[trigger] name[i]) != '\n' by {
        assert(plain_char(name[i]));
    }
    assert forall|i: int| 0 <= i < marked.len() implies (#[trigger] marked[i]) != '\n' by {
        if i > 0 {
            assert(marked[i] == name[i - 1]);
        }
    }
    let ignoring = rule_of(name)->0;
    let keeping = rule_of(marked)->0;
    lemma_last_rule(text, name, ignoring);
    lemma_last_rule(text.push('\n') + name, marked, keeping);
}

} // verus!
