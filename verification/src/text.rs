//! Text taken apart and put together character by character.

use crate::order::same_bytes;
use vstd::prelude::*;
use vstd::string::*;

verus! {

/// `String::push` appends one character to the text.
pub assume_specification[ String::push ](text: &mut String, character: char)
    ensures
        final(text)@ == old(text)@.push(character),
;

/// Decodes UTF-8 bytes with `String::from_utf8`, which accepts exactly the
/// valid encodings and returns the text that those bytes encode.
#[verifier::external_body]
pub(crate) fn decode_text(bytes: Vec<u8>) -> (r: Option<String>)
    ensures
        r is Some == vstd::utf8::valid_utf8(bytes@),
        r matches Some(text) ==> vstd::utf8::encode_utf8(text@) == bytes@,
{
    String::from_utf8(bytes).ok()
}

/// Tells whether two texts are equal.
pub fn text_is(a: &str, b: &str) -> (r: bool)
    ensures
        r == (a@ == b@),
{
    let r = same_bytes(a.as_bytes(), b.as_bytes());
    proof {
        vstd::utf8::encode_utf8_decode_utf8(a@);
        vstd::utf8::encode_utf8_decode_utf8(b@);
    }
    r
}

/// Tells whether two texts held as character lists are equal.
pub fn same_chars(a: &[char], b: &[char]) -> (r: bool)
    ensures
        r == (a@ == b@),
{
    if a.len() != b.len() {
        return false;
    }
    let mut i: usize = 0;
    while i < a.len()
        invariant
            i <= a@.len(),
            a@.len() == b@.len(),
            forall|k: int| 0 <= k < i ==> a@[k] == b@[k],
        decreases a@.len() - i,
    {
        if a[i] != b[i] {
            return false;
        }
        i = i + 1;
    }
    assert(a@ =~= b@);
    true
}

/// Lists the characters of a text.
pub fn chars_of(text: &str) -> (r: Vec<char>)
    ensures
        r@ == text@,
{
    let mut r: Vec<char> = Vec::new();
    for c in it: text.chars()
        invariant
            it.seq() == text@,
            r@ == text@.take(it.index() as int),
    {
        r.push(c);
        assert(text@.take(it.index() + 1) =~= text@.take(it.index() as int).push(c));
    }
    assert(text@.take(text@.len() as int) =~= text@);
    r
}

/// Builds a text from part of a character list.
pub fn text_between(chars: &[char], start: usize, end: usize) -> (r: String)
    requires
        start <= end <= chars@.len(),
    ensures
        r@ == chars@.subrange(start as int, end as int),
{
    let mut r = String::new();
    let mut i: usize = start;
    while i < end
        invariant
            start <= i <= end <= chars@.len(),
            r@ == chars@.subrange(start as int, i as int),
        decreases end - i,
    {
        r.push(chars[i]);
        assert(chars@.subrange(start as int, i + 1) =~= chars@.subrange(
            start as int,
            i as int,
        ).push(chars@[i as int]));
        i = i + 1;
    }
    r
}

/// Builds a text from a character list.
pub fn text_of(chars: &[char]) -> (r: String)
    ensures
        r@ == chars@,
{
    assert(chars@.subrange(0, chars@.len() as int) =~= chars@);
    text_between(chars, 0, chars.len())
}

/// Concatenates two texts.
pub fn text_pair(a: &str, b: &str) -> (r: String)
    ensures
        r@ == a@ + b@,
{
    let mut r = a.to_owned();
    r.append(b);
    r
}

/// Concatenates three texts.
pub fn text_triple(a: &str, b: &str, c: &str) -> (r: String)
    ensures
        r@ == a@ + b@ + c@,
{
    let mut r = a.to_owned();
    r.append(b);
    r.append(c);
    r
}

/// Tells whether a text starts with `first`.
pub open spec fn begins(text: Seq<char>, first: char) -> bool {
    text.len() > 0 && text[0] == first
}

/// Tells whether a text starts with `first`.
pub fn begins_with(text: &str, first: char) -> (r: bool)
    ensures
        r == begins(text@, first),
{
    !text.is_empty() && text.get_char(0) == first
}

/// Tells whether a text starts with `prefix`.
pub fn has_prefix(chars: &[char], prefix: &[char]) -> (r: bool)
    ensures
        r == prefix@.is_prefix_of(chars@),
{
    if prefix.len() > chars.len() {
        return false;
    }
    let mut i: usize = 0;
    while i < prefix.len()
        invariant
            i <= prefix@.len() <= chars@.len(),
            forall|k: int| 0 <= k < i ==> prefix@[k] == chars@[k],
        decreases prefix@.len() - i,
    {
        if prefix[i] != chars[i] {
            assert(chars@.subrange(0, prefix@.len() as int)[i as int] == chars@[i as int]);
            return false;
        }
        i = i + 1;
    }
    assert(prefix@ =~= chars@.subrange(0, prefix@.len() as int));
    true
}

/// Position of the first `wanted` at or after `from`, or the length.
pub open spec fn first_index<A>(items: Seq<A>, wanted: A, from: int) -> int
    decreases items.len() - from,
{
    if from < 0 || from >= items.len() {
        items.len() as int
    } else if items[from] == wanted {
        from
    } else {
        first_index(items, wanted, from + 1)
    }
}

/// Where the first `wanted` stands.
pub proof fn lemma_first_index<A>(items: Seq<A>, wanted: A, from: int)
    requires
        0 <= from <= items.len(),
    ensures
        from <= first_index(items, wanted, from) <= items.len(),
        first_index(items, wanted, from) < items.len() ==> items[first_index(items, wanted, from)]
            == wanted,
        forall|i: int| from <= i < first_index(items, wanted, from) ==> items[i] != wanted,
        items.contains(wanted) && from == 0 ==> first_index(items, wanted, from) < items.len(),
    decreases items.len() - from,
{
    if from < items.len() && items[from] != wanted {
        lemma_first_index(items, wanted, from + 1);
        if items.contains(wanted) && from == 0 {
            let i = items.index_of(wanted);
            assert(items[i] == wanted);
        }
    }
}

/// Finds the first `wanted` character at or after `from`.
pub fn find_char(chars: &[char], wanted: char, from: usize) -> (r: usize)
    requires
        from <= chars@.len(),
    ensures
        r == first_index(chars@, wanted, from as int),
        from <= r <= chars@.len(),
        r < chars@.len() ==> chars@[r as int] == wanted,
{
    proof {
        lemma_first_index(chars@, wanted, from as int);
    }
    let mut i: usize = from;
    while i < chars.len()
        invariant
            from <= i <= chars@.len(),
            first_index(chars@, wanted, from as int) == first_index(chars@, wanted, i as int),
        decreases chars@.len() - i,
    {
        if chars[i] == wanted {
            return i;
        }
        i = i + 1;
    }
    i
}

/// Tells whether `wanted` occurs in a text.
pub fn has_char(chars: &[char], wanted: char) -> (r: bool)
    ensures
        r == chars@.contains(wanted),
{
    proof {
        lemma_first_index(chars@, wanted, 0);
    }
    find_char(chars, wanted, 0) < chars.len()
}

/// Tells whether `part` occurs in `whole` at position `at`.
pub open spec fn occurs_at<A>(whole: Seq<A>, part: Seq<A>, at: int) -> bool {
    0 <= at && at + part.len() <= whole.len() && whole.subrange(at, at + part.len()) == part
}

/// Tells whether `part` occurs in `whole`.
pub open spec fn occurs<A>(whole: Seq<A>, part: Seq<A>) -> bool {
    exists|at: int| occurs_at(whole, part, at)
}

/// Tells whether `part` occurs in `whole`.
pub fn has_part(whole: &[char], part: &[char]) -> (r: bool)
    ensures
        r == occurs(whole@, part@),
{
    if part.len() > whole.len() {
        return false;
    }
    let last: usize = whole.len() - part.len();
    let mut at: usize = 0;
    while at <= last
        invariant
            at <= last + 1,
            last + part.len() == whole.len(),
            forall|k: int| 0 <= k < at ==> !occurs_at(whole@, part@, k),
        decreases last + 1 - at,
    {
        let window = vstd::slice::slice_subrange(whole, at, at + part.len());
        if same_chars(window, part) {
            assert(occurs_at(whole@, part@, at as int));
            return true;
        }
        assert(!occurs_at(whole@, part@, at as int));
        if at == last {
            assert forall|k: int| !occurs_at(whole@, part@, k) by {
                if k > last {
                    assert(k + part@.len() > whole@.len());
                }
            }
            return false;
        }
        at = at + 1;
    }
    false
}

/// The pieces of a sequence between separators.
pub open spec fn split_on<A>(items: Seq<A>, separator: A) -> Seq<Seq<A>>
    decreases items.len(),
{
    if items.len() == 0 {
        seq![Seq::<A>::empty()]
    } else {
        let front = split_on(items.drop_last(), separator);
        if items.last() == separator {
            front.push(Seq::<A>::empty())
        } else {
            front.drop_last().push(front.last().push(items.last()))
        }
    }
}

/// The lines of a text, each with its terminating newline where it has one.
pub open spec fn split_inclusive(text: Seq<char>) -> Seq<Seq<char>>
    decreases text.len(),
{
    if text.len() == 0 {
        Seq::<Seq<char>>::empty()
    } else {
        let front = split_inclusive(text.drop_last());
        if text.len() == 1 || text[text.len() - 2] == '\n' {
            front.push(seq![text.last()])
        } else {
            front.drop_last().push(front.last().push(text.last()))
        }
    }
}

/// A line without its newline, or carriage return and newline.
pub open spec fn chomp(line: Seq<char>) -> Seq<char> {
    if line.len() > 0 && line.last() == '\n' {
        if line.len() > 1 && line[line.len() - 2] == '\r' {
            line.take(line.len() - 2)
        } else {
            line.drop_last()
        }
    } else {
        line
    }
}

/// The lines of a text without their terminators.
pub open spec fn lines(text: Seq<char>) -> Seq<Seq<char>> {
    Seq::new(split_inclusive(text).len(), |i: int| chomp(split_inclusive(text)[i]))
}

/// A nonempty text has a nonempty list of nonempty lines.
pub proof fn lemma_split_inclusive(text: Seq<char>)
    ensures
        text.len() > 0 ==> split_inclusive(text).len() > 0,
        split_inclusive(text).len() <= text.len(),
        forall|i: int|
            0 <= i < split_inclusive(text).len() ==> (#[trigger] split_inclusive(text)[i]).len()
                > 0,
    decreases text.len(),
{
    if text.len() > 0 {
        lemma_split_inclusive(text.drop_last());
        let front = split_inclusive(text.drop_last());
        assert forall|i: int| 0 <= i < split_inclusive(text).len() implies (
        #[trigger] split_inclusive(text)[i]).len() > 0 by {
            if i < front.len() {
                assert(front[i].len() > 0);
            }
        }
    }
}

/// Concatenation of all pieces.
pub open spec fn flatten(pieces: Seq<Seq<char>>) -> Seq<char>
    decreases pieces.len(),
{
    if pieces.len() == 0 {
        Seq::<char>::empty()
    } else {
        flatten(pieces.drop_last()) + pieces.last()
    }
}

/// The lines of a text, put together again, are the text.
pub proof fn lemma_split_inclusive_flatten(text: Seq<char>)
    ensures
        flatten(split_inclusive(text)) == text,
    decreases text.len(),
{
    if text.len() == 0 {
        assert(flatten(split_inclusive(text)) =~= text);
    } else {
        let front_text = text.drop_last();
        lemma_split_inclusive_flatten(front_text);
        lemma_split_inclusive(front_text);
        let front = split_inclusive(front_text);
        let whole = split_inclusive(text);
        if text.len() == 1 || text[text.len() - 2] == '\n' {
            assert(whole.drop_last() =~= front);
            assert(whole.last() =~= seq![text.last()]);
        } else {
            assert(front_text.len() > 0);
            assert(whole.drop_last() =~= front.drop_last());
            assert(whole.last() =~= front.last().push(text.last()));
            assert(flatten(front) == flatten(front.drop_last()) + front.last());
        }
        assert(whole.len() > 0);
        assert(flatten(whole) == flatten(whole.drop_last()) + whole.last());
        assert(text =~= front_text.push(text.last()));
        assert(flatten(whole) =~= text);
    }
}

/// Character lists of a sequence of texts.
pub open spec fn char_lists(pieces: Seq<Vec<char>>) -> Seq<Seq<char>> {
    Seq::new(pieces.len(), |i: int| pieces[i]@)
}

/// Splits a text into lines that keep their newlines.
pub fn split_lines(chars: &[char]) -> (r: Vec<Vec<char>>)
    ensures
        char_lists(r@) == split_inclusive(chars@),
{
    let mut r: Vec<Vec<char>> = Vec::new();
    let mut piece: Vec<char> = Vec::new();
    let mut i: usize = 0;
    assert(char_lists(r@) =~= split_inclusive(chars@.take(0)));
    while i < chars.len()
        invariant
            i <= chars@.len(),
            piece@.len() == 0 ==> (i == 0 || chars@[i - 1] == '\n') && char_lists(r@)
                == split_inclusive(chars@.take(i as int)),
            piece@.len() > 0 ==> i > 0 && chars@[i - 1] != '\n' && char_lists(r@).push(piece@)
                == split_inclusive(chars@.take(i as int)),
        decreases chars@.len() - i,
    {
        let c = chars[i];
        let ghost before = char_lists(r@);
        let ghost held = piece@;
        piece.push(c);
        proof {
            let t = chars@.take(i + 1);
            assert(t.drop_last() =~= chars@.take(i as int));
            assert(t.last() == c);
            if i > 0 {
                assert(t[t.len() - 2] == chars@[i - 1]);
            }
            if held.len() > 0 {
                assert(split_inclusive(t.drop_last()).drop_last() =~= before);
            } else {
                assert(piece@ =~= seq![c]);
            }
            assert(split_inclusive(t) =~= before.push(piece@));
        }
        if c == '\n' {
            let ghost done = piece@;
            let mut fresh: Vec<char> = Vec::new();
            core::mem::swap(&mut fresh, &mut piece);
            r.push(fresh);
            assert(char_lists(r@) =~= before.push(done));
        }
        i = i + 1;
    }
    assert(chars@.take(i as int) =~= chars@);
    if piece.len() > 0 {
        let ghost before = char_lists(r@);
        let ghost done = piece@;
        r.push(piece);
        assert(char_lists(r@) =~= before.push(done));
    }
    r
}

/// Splits a byte string at every separator.
pub fn split_bytes(items: &[u8], separator: u8) -> (r: Vec<Vec<u8>>)
    ensures
        r@.len() > 0,
        r@.len() == split_on(items@, separator).len(),
        forall|k: int| 0 <= k < r@.len() ==> (#[trigger] r@[k])@ == split_on(items@, separator)[k],
{
    let mut r: Vec<Vec<u8>> = Vec::new();
    let mut piece: Vec<u8> = Vec::new();
    let mut i: usize = 0;
    let ghost mut model: Seq<Seq<u8>> = Seq::empty();
    assert(split_on(items@.take(0), separator) =~= model.push(piece@));
    while i < items.len()
        invariant
            i <= items@.len(),
            model.len() == r@.len(),
            forall|k: int| 0 <= k < r@.len() ==> (#[trigger] r@[k])@ == model[k],
            split_on(items@.take(i as int), separator) == model.push(piece@),
        decreases items@.len() - i,
    {
        let b = items[i];
        proof {
            let t = items@.take(i + 1);
            assert(t.drop_last() =~= items@.take(i as int));
            assert(t.last() == b);
            assert(model.push(piece@).drop_last() =~= model);
        }
        if b == separator {
            let ghost held = piece@;
            let mut fresh: Vec<u8> = Vec::new();
            core::mem::swap(&mut fresh, &mut piece);
            r.push(fresh);
            proof {
                model = model.push(held);
                assert(piece@ =~= Seq::<u8>::empty());
            }
        } else {
            piece.push(b);
        }
        i = i + 1;
    }
    assert(items@.take(i as int) =~= items@);
    r.push(piece);
    r
}

/// Value of a string of decimal digits.
pub open spec fn digits_value(digits: Seq<char>) -> nat
    decreases digits.len(),
{
    if digits.len() == 0 {
        0
    } else {
        digits_value(digits.drop_last()) * 10 + (digits.last() as u32 - '0' as u32) as nat
    }
}

/// Decimal digits only, and at least one.
pub open spec fn is_decimal(digits: Seq<char>) -> bool {
    digits.len() > 0 && forall|i: int| 0 <= i < digits.len() ==> '0' <= #[trigger] digits[i] <= '9'
}

/// Digits of a number that may carry a plus sign.
pub open spec fn unsigned_digits(text: Seq<char>) -> Seq<char> {
    if text.len() > 0 && text[0] == '+' {
        text.skip(1)
    } else {
        text
    }
}

/// The number that a text spells, if it spells one up to `maximum`.
pub open spec fn unsigned_number(text: Seq<char>, maximum: nat) -> Option<nat> {
    let digits = unsigned_digits(text);
    if is_decimal(digits) && digits_value(digits) <= maximum {
        Some(digits_value(digits))
    } else {
        None
    }
}

proof fn lemma_digits_value_grows(digits: Seq<char>, n: int)
    requires
        0 <= n <= digits.len(),
    ensures
        digits_value(digits.take(n)) <= digits_value(digits),
    decreases digits.len() - n,
{
    if n < digits.len() {
        lemma_digits_value_grows(digits, n + 1);
        assert(digits.take(n + 1).drop_last() =~= digits.take(n));
    } else {
        assert(digits.take(n) =~= digits);
    }
}

/// Parses an unsigned decimal number with an optional plus sign.
pub fn parse_unsigned(chars: &[char], maximum: u64) -> (r: Option<u64>)
    ensures
        r is Some == unsigned_number(chars@, maximum as nat) is Some,
        r matches Some(n) ==> unsigned_number(chars@, maximum as nat) == Some(n as nat),
{
    let start: usize = if chars.len() > 0 && chars[0] == '+' {
        1
    } else {
        0
    };
    let ghost digits = unsigned_digits(chars@);
    assert(digits =~= chars@.skip(start as int));
    if start == chars.len() {
        return None;
    }
    let mut value: u64 = 0;
    let mut i: usize = start;
    assert(digits.take(0) =~= Seq::<char>::empty());
    while i < chars.len()
        invariant
            start <= i <= chars@.len(),
            digits == unsigned_digits(chars@),
            digits == chars@.skip(start as int),
            forall|k: int| 0 <= k < i - start ==> '0' <= #[trigger] digits[k] <= '9',
            value == digits_value(digits.take(i - start)),
            value <= maximum,
        decreases chars@.len() - i,
    {
        let c = chars[i];
        proof {
            let n = i - start;
            assert(digits[n] == c);
            assert(digits.take(n + 1).drop_last() =~= digits.take(n));
            assert(digits.take(n + 1).last() == c);
            lemma_digits_value_grows(digits, n + 1);
        }
        if c < '0' || c > '9' {
            return None;
        }
        let digit: u64 = (c as u32 - '0' as u32) as u64;
        if value > (u64::MAX - digit) / 10 {
            assert(value * 10 + digit > u64::MAX);
            return None;
        }
        value = value * 10 + digit;
        if value > maximum {
            return None;
        }
        i = i + 1;
    }
    assert(digits.take(i - start) =~= digits);
    Some(value)
}

/// Decimal digit.
pub open spec fn digit_char(value: nat) -> char {
    ('0' as u32 + value) as char
}

/// Decimal spelling of a number.
pub open spec fn decimal(value: nat) -> Seq<char>
    decreases value,
{
    if value < 10 {
        seq![digit_char(value)]
    } else {
        decimal(value / 10).push(digit_char(value % 10))
    }
}

/// Spells a number in decimal.
pub fn decimal_text(value: u64) -> (r: String)
    ensures
        r@ == decimal(value as nat),
    decreases value,
{
    let digit = (48u8 + (value % 10) as u8) as char;
    if value < 10 {
        let mut r = String::new();
        r.push(digit);
        assert(r@ =~= seq![digit_char(value as nat)]);
        r
    } else {
        let mut r = decimal_text(value / 10);
        r.push(digit);
        r
    }
}

/// Whether pieces are the lines of a text: none is empty, a newline stands only at the end
/// of a line, and every line but the last has one.
pub open spec fn are_lines(pieces: Seq<Seq<char>>) -> bool {
    &&& forall|i: int| 0 <= i < pieces.len() ==> (#[trigger] pieces[i]).len() > 0
    &&& forall|i: int, j: int|
        0 <= i < pieces.len() && 0 <= j < pieces[i].len() - 1 ==> #[trigger] pieces[i][j] != '\n'
    &&& forall|i: int| 0 <= i < pieces.len() - 1 ==> (#[trigger] pieces[i]).last() == '\n'
}

/// Texts put together one after the other: nothing from nothing, a text from itself, and
/// two lists in turn.
pub proof fn flatten_joins(a: Seq<Seq<char>>, b: Seq<Seq<char>>, one: Seq<char>)
    ensures
        flatten(Seq::<Seq<char>>::empty()) == Seq::<char>::empty(),
        flatten(seq![one]) == one,
        flatten(a + b) == flatten(a) + flatten(b),
    decreases b.len(),
{
    let none = Seq::<Seq<char>>::empty();
    assert(seq![one].drop_last() =~= none);
    assert(flatten(none) + one =~= one);
    if b.len() == 0 {
        assert(a + b =~= a);
        assert(flatten(a) + flatten(b) =~= flatten(a));
    } else {
        flatten_joins(a, b.drop_last(), one);
        assert((a + b).drop_last() =~= a + b.drop_last());
        assert(flatten(a) + (flatten(b.drop_last()) + b.last()) =~= flatten(a) + flatten(
            b.drop_last(),
        ) + b.last());
    }
}

/// A text behind which a line goes on has the lines of the text and that line.
proof fn lemma_split_line(front: Seq<char>, line: Seq<char>)
    requires
        line.len() > 0,
        front.len() > 0 ==> front.last() == '\n',
        forall|j: int| 0 <= j < line.len() - 1 ==> #[trigger] line[j] != '\n',
    ensures
        split_inclusive(front + line) == split_inclusive(front).push(line),
    decreases line.len(),
{
    let whole = front + line;
    let shorter = line.drop_last();
    assert(whole.drop_last() =~= front + shorter);
    if line.len() == 1 {
        assert(front + shorter =~= front);
        assert(seq![whole.last()] =~= line);
        if whole.len() > 1 {
            assert(whole[whole.len() - 2] == front.last());
        }
    } else {
        lemma_split_line(front, shorter);
        assert(whole[whole.len() - 2] == line[line.len() - 2]);
        let parts = split_inclusive(front).push(shorter);
        assert(parts.drop_last() =~= split_inclusive(front));
        assert(shorter.push(whole.last()) =~= line);
    }
}

/// The lines of a text are lines, and make up the text.
pub proof fn lines_make_up_their_text(text: Seq<char>)
    ensures
        are_lines(split_inclusive(text)),
        flatten(split_inclusive(text)) == text,
        text.len() > 0 ==> split_inclusive(text).len() > 0 && split_inclusive(text).last().last()
            == text.last(),
    decreases text.len(),
{
    lemma_split_inclusive_flatten(text);
    lemma_split_inclusive(text);
    if text.len() > 0 {
        let front_text = text.drop_last();
        lines_make_up_their_text(front_text);
        lemma_split_inclusive(front_text);
        let front = split_inclusive(front_text);
        let whole = split_inclusive(text);
        if front_text.len() > 0 {
            assert(front.last().last() == front_text.last());
            assert(front_text.last() == text[text.len() - 2]);
        }
        assert forall|i: int, j: int|
            0 <= i < whole.len() && 0 <= j < whole[i].len() - 1 implies #[trigger] whole[i][j]
            != '\n' by {
            if i < front.len() && whole[i] == front[i] {
                assert(front[i][j] != '\n');
            } else if whole.len() == front.len() {
                let last = front.last();
                assert(i == front.len() - 1);
                assert(whole[i] =~= last.push(text.last()));
                if j < last.len() - 1 {
                    assert(front[i][j] != '\n');
                } else {
                    assert(last.last() == front_text.last());
                }
            }
        }
        assert forall|i: int| 0 <= i < whole.len() - 1 implies (#[trigger] whole[i]).last()
            == '\n' by {
            if i < front.len() - 1 {
                assert(whole[i] == front[i]);
                assert(front[i].last() == '\n');
            } else {
                assert(whole[i] == front.last());
            }
        }
    }
}

/// Lines put together to a text are the lines of that text.
pub proof fn lines_are_found_again(pieces: Seq<Seq<char>>)
    requires
        are_lines(pieces),
    ensures
        split_inclusive(flatten(pieces)) == pieces,
        pieces.len() > 0 ==> flatten(pieces).len() > 0 && flatten(pieces).last()
            == pieces.last().last(),
    decreases pieces.len(),
{
    if pieces.len() == 0 {
        assert(split_inclusive(flatten(pieces)) =~= pieces);
    } else {
        let front = pieces.drop_last();
        let line = pieces.last();
        assert(are_lines(front)) by {
            assert forall|i: int, j: int|
                0 <= i < front.len() && 0 <= j < front[i].len() - 1 implies #[trigger] front[i][j]
                != '\n' by {
                assert(pieces[i][j] != '\n');
            }
        }
        lines_are_found_again(front);
        assert(line == pieces[pieces.len() - 1]);
        if front.len() > 0 {
            assert(pieces[front.len() - 1].last() == '\n');
        }
        assert forall|j: int| 0 <= j < line.len() - 1 implies #[trigger] line[j] != '\n' by {
            assert(pieces[pieces.len() - 1][j] != '\n');
        }
        lemma_split_line(flatten(front), line);
        assert(front.push(line) =~= pieces);
    }
}

/// A line without its terminator holds no newline, and is followed in its text by
/// nothing, by a newline, or by a carriage return and a newline, of which nothing is kept.
pub proof fn lines_lose_only_their_terminators(text: Seq<char>, i: int)
    requires
        0 <= i < split_inclusive(text).len(),
    ensures
        lines(text).len() == split_inclusive(text).len(),
        ({
            let whole = split_inclusive(text)[i];
            let line = lines(text)[i];
            &&& !line.contains('\n')
            &&& whole.last() != '\n' ==> line == whole
            &&& whole.last() == '\n' ==> {
                ||| whole == line + seq!['\r', '\n']
                ||| whole == line.push('\n') && (line.len() == 0 || line.last() != '\r')
            }
        }),
{
    lines_make_up_their_text(text);
    let whole = split_inclusive(text)[i];
    let line = lines(text)[i];
    assert(whole.len() > 0);
    assert(line =~= chomp(whole));
    if line.contains('\n') {
        let j = choose|j: int| 0 <= j < line.len() && line[j] == '\n';
        assert(whole[j] == line[j]);
        if j < whole.len() - 1 {
            assert(split_inclusive(text)[i][j] != '\n');
        }
    }
    if whole.last() == '\n' {
        if whole.len() > 1 && whole[whole.len() - 2] == '\r' {
            assert(whole =~= line + seq!['\r', '\n']);
        } else {
            assert(whole =~= line.push('\n'));
        }
    }
}

/// Pieces with a separator between any two.
pub open spec fn rejoined<A>(pieces: Seq<Seq<A>>, separator: A) -> Seq<A>
    decreases pieces.len(),
{
    if pieces.len() == 0 {
        Seq::empty()
    } else if pieces.len() == 1 {
        pieces[0]
    } else {
        rejoined(pieces.drop_last(), separator).push(separator) + pieces.last()
    }
}

/// The pieces between separators hold no separator, and with separators between them make
/// up the whole.
pub proof fn pieces_make_up_the_whole<A>(items: Seq<A>, separator: A)
    ensures
        split_on(items, separator).len() > 0,
        forall|i: int|
            0 <= i < split_on(items, separator).len() ==> !(#[trigger] split_on(
                items,
                separator,
            )[i]).contains(separator),
        rejoined(split_on(items, separator), separator) == items,
    decreases items.len(),
{
    let whole = split_on(items, separator);
    if items.len() == 0 {
        assert(rejoined(whole, separator) =~= items);
        assert(!whole[0].contains(separator));
    } else {
        let rest = items.drop_last();
        pieces_make_up_the_whole(rest, separator);
        let front = split_on(rest, separator);
        if items.last() == separator {
            assert(whole.drop_last() =~= front);
            assert(rejoined(whole, separator) =~= items);
            assert forall|i: int| 0 <= i < whole.len() implies !(#[trigger] whole[i]).contains(
                separator,
            ) by {
                if i < front.len() {
                    assert(!front[i].contains(separator));
                }
            }
        } else {
            let longer = front.last().push(items.last());
            assert(whole.drop_last() =~= front.drop_last());
            assert(whole.last() == longer);
            assert(items =~= rest.push(items.last()));
            if front.len() == 1 {
                assert(rejoined(front, separator) == front[0]);
                assert(whole[0] == longer);
            } else {
                assert(rejoined(front, separator) == rejoined(
                    front.drop_last(),
                    separator,
                ).push(separator) + front.last());
            }
            assert(rejoined(whole, separator) =~= items);
            assert forall|i: int| 0 <= i < whole.len() implies !(#[trigger] whole[i]).contains(
                separator,
            ) by {
                assert(!front[i].contains(separator));
                if i == front.len() - 1 && whole[i].contains(separator) {
                    let j = whole[i].index_of(separator);
                    assert(whole[i] == longer);
                    assert(front[i][j] == separator);
                }
            }
        }
    }
}

/// Pieces without separators, with separators between them, are the pieces found.
pub proof fn pieces_are_found_again<A>(pieces: Seq<Seq<A>>, separator: A)
    requires
        pieces.len() > 0,
        forall|i: int| 0 <= i < pieces.len() ==> !(#[trigger] pieces[i]).contains(separator),
    ensures
        split_on(rejoined(pieces, separator), separator) == pieces,
    decreases pieces.len(), pieces.last().len(),
{
    let last = pieces.last();
    assert(last == pieces[pieces.len() - 1]);
    if last.len() == 0 {
        if pieces.len() == 1 {
            assert(rejoined(pieces, separator) =~= Seq::<A>::empty());
            assert(split_on(rejoined(pieces, separator), separator) =~= pieces);
        } else {
            let front = pieces.drop_last();
            pieces_are_found_again(front, separator);
            let whole = rejoined(pieces, separator);
            assert(whole =~= rejoined(front, separator).push(separator));
            assert(whole.drop_last() =~= rejoined(front, separator));
            assert(last =~= Seq::<A>::empty());
            assert(front.push(Seq::<A>::empty()) =~= pieces);
        }
    } else {
        let shorter = pieces.drop_last().push(last.drop_last());
        assert forall|i: int| 0 <= i < shorter.len() implies !(#[trigger] shorter[i]).contains(
            separator,
        ) by {
            if shorter[i].contains(separator) {
                let j = shorter[i].index_of(separator);
                assert(pieces[i][j] == separator);
            }
        }
        pieces_are_found_again(shorter, separator);
        let whole = rejoined(pieces, separator);
        assert(shorter.drop_last() =~= pieces.drop_last());
        assert(whole.drop_last() =~= rejoined(shorter, separator));
        assert(whole.last() == last.last());
        assert(last[last.len() - 1] != separator) by {
            if last[last.len() - 1] == separator {
                assert(pieces[pieces.len() - 1].contains(separator));
            }
        }
        assert(last.drop_last().push(last.last()) =~= last);
        assert(shorter.drop_last().push(last) =~= pieces);
    }
}

/// A number spelled in decimal is read back, where it is not too large.
pub proof fn decimals_read_back(value: nat, maximum: nat)
    requires
        value <= maximum,
    ensures
        unsigned_number(decimal(value), maximum) == Some(value),
{
    lemma_decimal(value);
    let digits = decimal(value);
    assert('0' <= digits[0] <= '9');
}

pub(crate) proof fn lemma_decimal(value: nat)
    ensures
        is_decimal(decimal(value)),
        digits_value(decimal(value)) == value,
    decreases value,
{
    let digit = digit_char(value % 10);
    assert('0' <= digit <= '9' && digit as u32 - '0' as u32 == value % 10);
    if value < 10 {
        assert(decimal(value).drop_last() =~= Seq::<char>::empty());
        assert(digits_value(decimal(value).drop_last()) == 0);
    } else {
        lemma_decimal(value / 10);
        let front = decimal(value / 10);
        let whole = decimal(value);
        assert(whole.drop_last() =~= front);
        assert forall|i: int| 0 <= i < whole.len() implies '0' <= #[trigger] whole[i] <= '9' by {
            if i < front.len() {
                assert('0' <= front[i] <= '9');
            }
        }
    }
}

} // verus!
