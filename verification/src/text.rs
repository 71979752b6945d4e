//! Text as the rest of the crate needs it: scanning, splitting into lines, trimming, and decimal
//! numbers.
//!
//! A text is modelled by its sequence of characters.

use vstd::prelude::*;

verus! {

/// The position of the first `wanted` in `items`, or the length of `items` if there is none.
pub open spec fn find<T>(items: Seq<T>, wanted: T) -> nat
    decreases items.len(),
{
    if items.len() == 0 {
        0
    } else if items[0] == wanted {
        0
    } else {
        1 + find(items.skip(1), wanted)
    }
}

/// What `find` promises, and that this determines it.
pub proof fn lemma_find<T>(items: Seq<T>, wanted: T, at: int)
    requires
        0 <= at <= items.len(),
        forall|k: int| 0 <= k < at ==> items[k] != wanted,
        at < items.len() ==> items[at] == wanted,
    ensures
        find(items, wanted) == at,
    decreases items.len(),
{
    if at > 0 {
        let rest = items.skip(1);
        assert forall|k: int| 0 <= k < at - 1 implies rest[k] != wanted by {
            assert(rest[k] == items[k + 1]);
        }
        lemma_find(rest, wanted, at - 1);
    }
}

/// Everything before `find` differs from what is looked for.
pub proof fn lemma_find_bounds<T>(items: Seq<T>, wanted: T)
    ensures
        find(items, wanted) <= items.len(),
        forall|k: int| 0 <= k < find(items, wanted) ==> items[k] != wanted,
        find(items, wanted) < items.len() ==> items[find(items, wanted) as int] == wanted,
    decreases items.len(),
{
    if items.len() > 0 && items[0] != wanted {
        let rest = items.skip(1);
        lemma_find_bounds(rest, wanted);
        assert forall|k: int| 0 <= k < find(items, wanted) implies items[k] != wanted by {
            if k > 0 {
                assert(rest[k - 1] == items[k]);
            }
        }
    }
}

/// Whether `text` begins with `prefix`.
pub open spec fn begins<T>(text: Seq<T>, prefix: Seq<T>) -> bool {
    prefix.len() <= text.len() && text.take(prefix.len() as int) == prefix
}

/// Whether `text` ends with `suffix`.
pub open spec fn ends<T>(text: Seq<T>, suffix: Seq<T>) -> bool {
    suffix.len() <= text.len() && text.skip(text.len() - suffix.len()) == suffix
}

/// The characters of `text`, in order.
pub fn chars_of(text: &str) -> (chars: Vec<char>)
    ensures
        chars@ == text@,
{
    let mut chars: Vec<char> = Vec::new();
    for c in it: text.chars()
        invariant
            it.seq() == text@,
            chars@ == text@.take(it.index() as int),
    {
        chars.push(c);
    }
    chars
}

/// Whether two texts are equal.
pub fn same(left: &str, right: &str) -> (equal: bool)
    ensures
        equal == (left@ == right@),
{
    left.to_owned() == right.to_owned()
}

/// Whether `text` begins with `prefix`.
pub fn starts_with(text: &str, prefix: &str) -> (yes: bool)
    ensures
        yes == begins(text@, prefix@),
{
    let length: usize = prefix.unicode_len();
    if text.unicode_len() < length {
        return false;
    }
    same(text.substring_char(0, length), prefix)
}

/// Whether `text` ends with `suffix`.
pub fn ends_with(text: &str, suffix: &str) -> (yes: bool)
    ensures
        yes == ends(text@, suffix@),
{
    let length: usize = text.unicode_len();
    let tail: usize = suffix.unicode_len();
    if length < tail {
        return false;
    }
    same(text.substring_char(length - tail, length), suffix)
}

/// What follows `prefix` in `text`, if `text` begins with it.
pub fn strip_prefix<'a>(text: &'a str, prefix: &str) -> (rest: Option<&'a str>)
    ensures
        match rest {
            Some(rest) => text@ == prefix@ + rest@,
            None => !begins(text@, prefix@),
        },
{
    if starts_with(text, prefix) {
        let rest = text.substring_char(prefix.unicode_len(), text.unicode_len());
        assert(text@ =~= prefix@ + rest@);
        Some(rest)
    } else {
        None
    }
}

/// A line without the carriage return of a line ending `\r\n`.
pub open spec fn without_return(line: Seq<char>) -> Seq<char> {
    if line.len() > 0 && line.last() == '\r' {
        line.drop_last()
    } else {
        line
    }
}

/// The lines of `text`: each ends with `\n` or `\r\n`, the last one also with the text itself,
/// and the ending is not part of the line. A text that ends with a line ending has no further,
/// empty line.
pub open spec fn lines(text: Seq<char>) -> Seq<Seq<char>>
    decreases text.len(),
{
    let end = find(text, '\n') as int;
    if text.len() == 0 {
        seq![]
    } else if end < text.len() {
        seq![without_return(text.take(end))] + lines(text.skip(end + 1))
    } else {
        seq![text]
    }
}

/// The contents of each text in a list.
pub open spec fn contents(texts: Seq<String>) -> Seq<Seq<char>> {
    texts.map_values(|text: String| text@)
}

/// Splits `text` into its lines.
pub fn split_lines(text: &str) -> (found: Vec<String>)
    ensures
        contents(found@) == lines(text@),
{
    let chars = chars_of(text);
    let mut found: Vec<String> = Vec::new();
    let mut start: usize = 0;
    assert(text@.skip(0) =~= text@);
    assert(contents(found@) =~= seq![]);
    while start < chars.len()
        invariant
            chars@ == text@,
            start <= chars.len(),
            contents(found@) + lines(text@.skip(start as int)) == lines(text@),
        decreases chars.len() - start,
    {
        let ghost rest = text@.skip(start as int);
        let mut end: usize = start;
        while end < chars.len() && chars[end] != '\n'
            invariant
                chars@ == text@,
                start <= end <= chars.len(),
                rest == text@.skip(start as int),
                forall|k: int| 0 <= k < end - start ==> rest[k] != '\n',
            decreases chars.len() - end,
        {
            end = end + 1;
        }
        proof {
            lemma_find(rest, '\n', end - start);
        }
        let ghost before = contents(found@);
        if end < chars.len() {
            let mut stop: usize = end;
            if stop > start && chars[stop - 1] == '\r' {
                stop = stop - 1;
            }
            let line = text.substring_char(start, stop).to_owned();
            assert(line@ =~= without_return(rest.take(end - start)));
            found.push(line);
            assert(contents(found@) =~= before + seq![line@]);
            assert(rest.skip(end - start + 1) =~= text@.skip(end + 1));
            assert(before + (seq![line@] + lines(text@.skip(end + 1))) =~= contents(found@)
                + lines(text@.skip(end + 1)));
            start = end + 1;
        } else {
            let line = text.substring_char(start, end).to_owned();
            assert(line@ =~= rest);
            found.push(line);
            assert(contents(found@) =~= before + seq![line@]);
            assert(text@.skip(end as int) =~= seq![]);
            assert(before + seq![rest] =~= contents(found@) + lines(text@.skip(end as int)));
            start = end;
        }
    }
    assert(text@.skip(start as int) =~= seq![]);
    assert(contents(found@) + lines(text@.skip(start as int)) =~= contents(found@));
    found
}

/// Whether `line` comes back unchanged when it is read as a line.
pub open spec fn is_line(line: Seq<char>) -> bool {
    &&& forall|k: int| 0 <= k < line.len() ==> line[k] != '\n'
    &&& line.len() > 0 ==> line.last() != '\r'
}

/// A line that is written before a text is its first line.
pub proof fn lemma_first_line(line: Seq<char>, rest: Seq<char>)
    requires
        is_line(line),
    ensures
        lines(line + "\n"@ + rest) == seq![line] + lines(rest),
{
    reveal_strlit("\n");
    let text = line + "\n"@ + rest;
    assert(text[line.len() as int] == '\n');
    lemma_find(text, '\n', line.len() as int);
    assert(text.take(line.len() as int) =~= line);
    assert(text.skip(line.len() as int + 1) =~= rest);
}

/// `text` cut at its first `separator`: what stands before it and what stands behind it.
pub open spec fn cut(text: Seq<char>, separator: char) -> Option<(Seq<char>, Seq<char>)> {
    let at = find(text, separator) as int;
    if at < text.len() {
        Some((text.take(at), text.skip(at + 1)))
    } else {
        None
    }
}

/// A text is cut behind a part without the separator that precedes it.
pub proof fn lemma_cut(before: Seq<char>, after: Seq<char>, separator: char)
    requires
        forall|k: int| 0 <= k < before.len() ==> before[k] != separator,
    ensures
        cut(before.push(separator) + after, separator) == Some((before, after)),
{
    let text = before.push(separator) + after;
    assert(text[before.len() as int] == separator);
    lemma_find(text, separator, before.len() as int);
    assert(text.take(before.len() as int) =~= before);
    assert(text.skip(before.len() as int + 1) =~= after);
}

/// Cuts `text` at its first `separator`.
pub fn split_once<'a>(text: &'a str, separator: char) -> (parts: Option<(&'a str, &'a str)>)
    ensures
        match parts {
            Some((before, after)) => cut(text@, separator) == Some((before@, after@)),
            None => cut(text@, separator) is None,
        },
{
    let chars = chars_of(text);
    let mut at: usize = 0;
    while at < chars.len() && chars[at] != separator
        invariant
            chars@ == text@,
            at <= chars.len(),
            forall|k: int| 0 <= k < at ==> text@[k] != separator,
        decreases chars.len() - at,
    {
        at = at + 1;
    }
    proof {
        lemma_find(text@, separator, at as int);
    }
    if at < chars.len() {
        let before = text.substring_char(0, at);
        let after = text.substring_char(at + 1, chars.len());
        assert(before@ =~= text@.take(at as int));
        assert(after@ =~= text@.skip(at + 1));
        Some((before, after))
    } else {
        None
    }
}

/// Whether `c` is a control character (Unicode category Cc).
pub open spec fn is_control(c: char) -> bool {
    c <= '\u{1f}' || '\u{7f}' <= c <= '\u{9f}'
}

/// Whether `c` is white space (Unicode property White_Space).
pub open spec fn is_space(c: char) -> bool {
    ||| '\u{9}' <= c <= '\u{d}'
    ||| c == ' '
    ||| c == '\u{85}'
    ||| c == '\u{a0}'
    ||| c == '\u{1680}'
    ||| '\u{2000}' <= c <= '\u{200a}'
    ||| c == '\u{2028}'
    ||| c == '\u{2029}'
    ||| c == '\u{202f}'
    ||| c == '\u{205f}'
    ||| c == '\u{3000}'
}

fn control(c: char) -> (yes: bool)
    ensures
        yes == is_control(c),
{
    c <= '\u{1f}' || ('\u{7f}' <= c && c <= '\u{9f}')
}

fn space(c: char) -> (yes: bool)
    ensures
        yes == is_space(c),
{
    ('\u{9}' <= c && c <= '\u{d}') || c == ' ' || c == '\u{85}' || c == '\u{a0}' || c == '\u{1680}'
        || ('\u{2000}' <= c && c <= '\u{200a}') || c == '\u{2028}' || c == '\u{2029}' || c
        == '\u{202f}' || c == '\u{205f}' || c == '\u{3000}'
}

/// Whether some character of `text` is a control character.
pub open spec fn has_control(text: Seq<char>) -> bool {
    exists|k: int| 0 <= k < text.len() && is_control(#[trigger] text[k])
}

/// Whether some character of `text` is a control character.
pub fn contains_control(text: &str) -> (yes: bool)
    ensures
        yes == has_control(text@),
{
    let chars = chars_of(text);
    let mut at: usize = 0;
    while at < chars.len()
        invariant
            chars@ == text@,
            at <= chars.len(),
            forall|k: int| 0 <= k < at ==> !is_control(#[trigger] text@[k]),
        decreases chars.len() - at,
    {
        if control(chars[at]) {
            assert(is_control(text@[at as int]));
            return true;
        }
        at = at + 1;
    }
    false
}

/// `text` without the white space at its beginning.
pub open spec fn trimmed_start(text: Seq<char>) -> Seq<char>
    decreases text.len(),
{
    if text.len() > 0 && is_space(text[0]) {
        trimmed_start(text.skip(1))
    } else {
        text
    }
}

/// `text` without the white space at its end.
pub open spec fn trimmed_end(text: Seq<char>) -> Seq<char>
    decreases text.len(),
{
    if text.len() > 0 && is_space(text.last()) {
        trimmed_end(text.drop_last())
    } else {
        text
    }
}

/// `text` without the white space around it.
pub open spec fn trimmed(text: Seq<char>) -> Seq<char> {
    trimmed_end(trimmed_start(text))
}

/// Takes the white space around `text` away.
pub fn trim<'a>(text: &'a str) -> (inner: &'a str)
    ensures
        inner@ == trimmed(text@),
{
    let chars = chars_of(text);
    let mut start: usize = 0;
    assert(text@.skip(0) =~= text@);
    while start < chars.len() && space(chars[start])
        invariant
            chars@ == text@,
            start <= chars.len(),
            trimmed_start(text@.skip(start as int)) == trimmed_start(text@),
        decreases chars.len() - start,
    {
        assert(text@.skip(start as int).skip(1) =~= text@.skip(start + 1));
        start = start + 1;
    }
    let ghost inner = text@.skip(start as int);
    let mut end: usize = chars.len();
    assert(text@.subrange(start as int, end as int) =~= inner);
    while end > start && space(chars[end - 1])
        invariant
            chars@ == text@,
            start <= end <= chars.len(),
            inner == text@.skip(start as int),
            trimmed_end(text@.subrange(start as int, end as int)) == trimmed_end(inner),
        decreases end,
    {
        assert(text@.subrange(start as int, end as int).drop_last() =~= text@.subrange(
            start as int,
            end - 1,
        ));
        end = end - 1;
    }
    text.substring_char(start, end)
}

/// How many characters `text` has before its first white space.
pub open spec fn word_length(text: Seq<char>) -> nat
    decreases text.len(),
{
    if text.len() == 0 || is_space(text[0]) {
        0
    } else {
        1 + word_length(text.skip(1))
    }
}

/// The first word of `text`: the longest piece without white space that follows the leading white
/// space, if it is not empty.
pub open spec fn first_word(text: Seq<char>) -> Option<Seq<char>> {
    let rest = trimmed_start(text);
    if rest.len() == 0 {
        None
    } else {
        Some(rest.take(word_length(rest) as int))
    }
}

/// Gives the first word of `text`.
pub fn leading_word<'a>(text: &'a str) -> (word: Option<&'a str>)
    ensures
        match word {
            Some(word) => first_word(text@) == Some(word@),
            None => first_word(text@) is None,
        },
{
    let chars = chars_of(text);
    let mut start: usize = 0;
    assert(text@.skip(0) =~= text@);
    while start < chars.len() && space(chars[start])
        invariant
            chars@ == text@,
            start <= chars.len(),
            trimmed_start(text@.skip(start as int)) == trimmed_start(text@),
        decreases chars.len() - start,
    {
        assert(text@.skip(start as int).skip(1) =~= text@.skip(start + 1));
        start = start + 1;
    }
    if start == chars.len() {
        return None;
    }
    let ghost rest = text@.skip(start as int);
    let mut end: usize = start;
    while end < chars.len() && !space(chars[end])
        invariant
            chars@ == text@,
            start <= end <= chars.len(),
            rest == text@.skip(start as int),
            word_length(rest) == end - start + word_length(text@.skip(end as int)),
        decreases chars.len() - end,
    {
        assert(text@.skip(end as int).skip(1) =~= text@.skip(end + 1));
        end = end + 1;
    }
    let word = text.substring_char(start, end);
    assert(word@ =~= rest.take(end - start));
    Some(word)
}

/// The decimal digit of a value below ten.
pub open spec fn digit(value: nat) -> char {
    (48 + value) as char
}

/// A number in decimal notation, without leading zeros.
pub open spec fn decimal(value: nat) -> Seq<char>
    decreases value,
{
    if value < 10 {
        seq![digit(value)]
    } else {
        decimal(value / 10).push(digit(value % 10))
    }
}

/// A possibly negative number in decimal notation.
pub open spec fn signed_decimal(value: int) -> Seq<char> {
    if value < 0 {
        "-"@ + decimal((-value) as nat)
    } else {
        decimal(value as nat)
    }
}

/// Writes a number in decimal notation.
pub fn decimal_of(value: u128) -> (text: String)
    ensures
        text@ == decimal(value as nat),
    decreases value,
{
    proof {
        reveal_strlit("0123456789");
    }
    let last: usize = (value % 10) as usize;
    let digit_text = "0123456789".substring_char(last, last + 1);
    assert(digit_text@ =~= seq![digit(value as nat % 10)]);
    if value < 10 {
        digit_text.to_owned()
    } else {
        let text = decimal_of(value / 10).concat(digit_text);
        assert(text@ =~= decimal(value as nat));
        text
    }
}

/// Writes a possibly negative number in decimal notation.
pub fn signed_decimal_of(value: i32) -> (text: String)
    ensures
        text@ == signed_decimal(value as int),
{
    if value < 0 {
        let size: u128 = (-(value as i64)) as u128;
        "-".to_owned().concat(decimal_of(size).as_str())
    } else {
        decimal_of(value as u128)
    }
}

/// Whether `c` is a decimal digit.
pub open spec fn is_digit(c: char) -> bool {
    '0' <= c <= '9'
}

/// Why a text is no number.
#[derive(Clone, Copy, Debug, PartialEq, Eq, Structural)]
pub enum NumberFault {
    Empty,
    InvalidDigit,
    TooLarge,
}

impl NumberFault {
    /// The fault in words.
    pub open spec fn message(self) -> Seq<char> {
        match self {
            NumberFault::Empty => "cannot parse integer from empty string"@,
            NumberFault::InvalidDigit => "invalid digit found in string"@,
            NumberFault::TooLarge => "number too large to fit in target type"@,
        }
    }

    /// The fault in words.
    pub fn describe(self) -> (text: String)
        ensures
            text@ == self.message(),
    {
        match self {
            NumberFault::Empty => "cannot parse integer from empty string".to_owned(),
            NumberFault::InvalidDigit => "invalid digit found in string".to_owned(),
            NumberFault::TooLarge => "number too large to fit in target type".to_owned(),
        }
    }
}

/// The number that the decimal digits of `text` stand for, read from the left; the first
/// character that is no digit, or that makes the number exceed 64 bits, is the fault.
pub open spec fn digits_value(text: Seq<char>) -> Result<nat, NumberFault>
    decreases text.len(),
{
    if text.len() == 0 {
        Ok(0)
    } else {
        match digits_value(text.drop_last()) {
            Err(fault) => Err(fault),
            Ok(value) => if !is_digit(text.last()) {
                Err(NumberFault::InvalidDigit)
            } else {
                let more = value * 10 + (text.last() as nat - 48) as nat;
                if more > u64::MAX {
                    Err(NumberFault::TooLarge)
                } else {
                    Ok(more as nat)
                }
            },
        }
    }
}

/// The unsigned 64-bit number that `text` stands for: digits, which a `+` may precede.
pub open spec fn number(text: Seq<char>) -> Result<nat, NumberFault> {
    if text.len() == 0 {
        Err(NumberFault::Empty)
    } else if text.len() > 1 && text[0] == '+' {
        digits_value(text.skip(1))
    } else {
        digits_value(text)
    }
}

/// A fault in the beginning of `text` is the fault of `text`.
proof fn lemma_digits_fault(text: Seq<char>, at: int)
    requires
        0 <= at <= text.len(),
        digits_value(text.take(at)) is Err,
    ensures
        digits_value(text) == digits_value(text.take(at)),
    decreases text.len() - at,
{
    if at < text.len() {
        assert(text.take(at + 1).drop_last() =~= text.take(at));
        lemma_digits_fault(text, at + 1);
    } else {
        assert(text.take(at) =~= text);
    }
}

/// Reads an unsigned 64-bit number.
pub fn parse_number(text: &str) -> (value: Result<u64, NumberFault>)
    ensures
        match value {
            Ok(value) => number(text@) == Ok::<nat, NumberFault>(value as nat),
            Err(fault) => number(text@) == Err::<nat, NumberFault>(fault),
        },
{
    let chars = chars_of(text);
    if chars.len() == 0 {
        return Err(NumberFault::Empty);
    }
    let start: usize = if chars.len() > 1 && chars[0] == '+' {
        1
    } else {
        0
    };
    let ghost digits = text@.skip(start as int);
    assert(start == 0 ==> digits =~= text@);
    let mut value: u64 = 0;
    let mut at: usize = start;
    assert(digits.take(0) =~= seq![]);
    while at < chars.len()
        invariant
            chars@ == text@,
            start <= at <= chars.len(),
            digits == text@.skip(start as int),
            number(text@) == digits_value(digits),
            digits_value(digits.take(at - start)) == Ok::<nat, NumberFault>(value as nat),
        decreases chars.len() - at,
    {
        let c: char = chars[at];
        let ghost next = digits.take(at - start + 1);
        assert(next.drop_last() =~= digits.take(at - start));
        assert(next.last() == c);
        if !('0' <= c && c <= '9') {
            proof {
                lemma_digits_fault(digits, at - start + 1);
            }
            return Err(NumberFault::InvalidDigit);
        }
        let more: u128 = value as u128 * 10 + (c as u32 - 48) as u128;
        if more > u64::MAX as u128 {
            proof {
                lemma_digits_fault(digits, at - start + 1);
            }
            return Err(NumberFault::TooLarge);
        }
        value = more as u64;
        at = at + 1;
    }
    assert(digits.take(at - start) =~= digits);
    Ok(value)
}

} // verus!
