//! What reading a text line by line and word by word gives.

use vstd::prelude::*;

use crate::text::{
    decimal, first_word, is_space, lemma_find, lines, signed_decimal, trimmed, trimmed_end,
    trimmed_start, word_length,
};

verus! {

/// A text is cut into lines at its line feeds: what stands before a line feed is the first line, a
/// carriage return right before the line feed not being part of it, and what stands behind the line
/// feed is cut in the same way. A text without a line feed is one line, and an empty text none.
pub proof fn lines_end_at_line_feeds(line: Seq<char>, rest: Seq<char>)
    requires
        !line.contains('\n'),
    ensures
        lines(line + seq!['\r', '\n'] + rest) == seq![line] + lines(rest),
        line.len() == 0 || line.last() != '\r' ==> lines(line + seq!['\n'] + rest) == seq![line]
            + lines(rest),
        line.len() > 0 ==> lines(line) == seq![line],
        line.len() == 0 ==> lines(line).len() == 0,
{
    assert(forall|k: int| 0 <= k < line.len() ==> line[k] != '\n') by {
        assert forall|k: int| 0 <= k < line.len() implies line[k] != '\n' by {
            if line[k] == '\n' {
                assert(line.contains('\n'));
            }
        }
    }
    let one = line + seq!['\r', '\n'] + rest;
    let n = line.len() as int;
    assert(one[n] == '\r' && one[n + 1] == '\n');
    assert forall|k: int| 0 <= k < n + 1 implies one[k] != '\n' by {
        if k < n {
            assert(one[k] == line[k]);
        }
    }
    lemma_find(one, '\n', n + 1);
    assert(one.take(n + 1).drop_last() =~= line);
    assert(one.take(n + 1).last() == '\r');
    assert(one.skip(n + 2) =~= rest);
    let other = line + seq!['\n'] + rest;
    assert(other[n] == '\n');
    assert forall|k: int| 0 <= k < n implies other[k] != '\n' by {
        assert(other[k] == line[k]);
    }
    lemma_find(other, '\n', n);
    assert(other.take(n) =~= line);
    assert(other.skip(n + 1) =~= rest);
    lemma_find(line, '\n', n);
}

/// The characters that Unicode counts as white space.
pub open spec fn white(c: char) -> bool {
    let code = c as int;
    ||| 9 <= code <= 13
    ||| 8192 <= code <= 8202
    ||| seq![32int, 133, 160, 5760, 8232, 8233, 8239, 8287, 12288].contains(code)
}

/// Whether a text is nothing but white space.
pub open spec fn all_white(text: Seq<char>) -> bool {
    forall|k: int| 0 <= k < text.len() ==> white(#[trigger] text[k])
}

proof fn lemma_white(c: char)
    ensures
        is_space(c) == white(c),
{
    let list = seq![32int, 133, 160, 5760, 8232, 8233, 8239, 8287, 12288];
    let code = c as int;
    assert(list[0] == 32 && list[1] == 133 && list[2] == 160 && list[3] == 5760 && list[4] == 8232
        && list[5] == 8233 && list[6] == 8239 && list[7] == 8287 && list[8] == 12288);
    if list.contains(code) {
        let k = choose|k: int| 0 <= k < list.len() && list[k] == code;
        assert(k == 0 || k == 1 || k == 2 || k == 3 || k == 4 || k == 5 || k == 6 || k == 7 || k
            == 8);
    }
}

proof fn lemma_start(text: Seq<char>)
    ensures
        exists|front: Seq<char>| #[trigger]
            all_white(front) && text == front + trimmed_start(text),
        trimmed_start(text).len() > 0 ==> !white(trimmed_start(text)[0]),
    decreases text.len(),
{
    if text.len() > 0 {
        lemma_white(text[0]);
    }
    if text.len() > 0 && is_space(text[0]) {
        lemma_start(text.skip(1));
        let front = choose|front: Seq<char>| #[trigger]
            all_white(front) && text.skip(1) == front + trimmed_start(text.skip(1));
        let more = seq![text[0]] + front;
        assert(all_white(more)) by {
            assert forall|k: int| 0 <= k < more.len() implies white(#[trigger] more[k]) by {
                if k > 0 {
                    assert(more[k] == front[k - 1]);
                }
            }
        }
        assert(text =~= seq![text[0]] + text.skip(1));
        assert(text =~= more + trimmed_start(text.skip(1)));
    } else {
        let none: Seq<char> = seq![];
        assert(all_white(none));
        assert(text =~= none + trimmed_start(text));
    }
}

proof fn lemma_end(text: Seq<char>)
    ensures
        exists|back: Seq<char>| #[trigger] all_white(back) && text == trimmed_end(text) + back,
        trimmed_end(text).len() > 0 ==> !white(trimmed_end(text).last()),
        trimmed_end(text).len() > 0 ==> trimmed_end(text)[0] == text[0],
    decreases text.len(),
{
    if text.len() > 0 {
        lemma_white(text.last());
    }
    if text.len() > 0 && is_space(text.last()) {
        lemma_end(text.drop_last());
        let back = choose|back: Seq<char>| #[trigger]
            all_white(back) && text.drop_last() == trimmed_end(text.drop_last()) + back;
        let more = back.push(text.last());
        assert(all_white(more)) by {
            assert forall|k: int| 0 <= k < more.len() implies white(#[trigger] more[k]) by {
                if k < back.len() {
                    assert(more[k] == back[k]);
                }
            }
        }
        assert(text =~= text.drop_last().push(text.last()));
        assert(text =~= trimmed_end(text.drop_last()) + more);
    } else {
        let none: Seq<char> = seq![];
        assert(all_white(none));
        assert(text =~= trimmed_end(text) + none);
    }
}

/// A trimmed text is what is left of the text without the white space around it: nothing but white
/// space is cut off, and none is left at either end.
pub proof fn trimming_cuts_white_space_alone(text: Seq<char>)
    ensures
        exists|front: Seq<char>, back: Seq<char>|
            #[trigger] all_white(front) && #[trigger] all_white(back) && text == front + trimmed(
                text,
            ) + back,
        trimmed(text).len() > 0 ==> !white(trimmed(text)[0]) && !white(trimmed(text).last()),
{
    let rest = trimmed_start(text);
    lemma_start(text);
    lemma_end(rest);
    let front = choose|front: Seq<char>| #[trigger] all_white(front) && text == front + rest;
    let back = choose|back: Seq<char>| #[trigger]
        all_white(back) && rest == trimmed_end(rest) + back;
    assert(all_white(front) && all_white(back));
    assert(text =~= front + trimmed(text) + back);
}

/// Whether a text begins with white space, or is empty.
pub open spec fn ends_a_word(text: Seq<char>) -> bool {
    text.len() == 0 || white(text[0])
}

/// Whether no character of a text is white space, and there is one.
pub open spec fn is_word(text: Seq<char>) -> bool {
    text.len() > 0 && forall|k: int| 0 <= k < text.len() ==> !white(#[trigger] text[k])
}

proof fn lemma_word_length(word: Seq<char>, back: Seq<char>)
    requires
        forall|k: int| 0 <= k < word.len() ==> !white(#[trigger] word[k]),
        ends_a_word(back),
    ensures
        word_length(word + back) == word.len(),
    decreases word.len(),
{
    let text = word + back;
    if word.len() > 0 {
        lemma_white(word[0]);
        assert(text[0] == word[0]);
        let rest = word.skip(1);
        assert forall|k: int| 0 <= k < rest.len() implies !white(#[trigger] rest[k]) by {
            assert(rest[k] == word[k + 1]);
        }
        lemma_word_length(rest, back);
        assert(text.skip(1) =~= rest + back);
    } else if back.len() > 0 {
        lemma_white(back[0]);
        assert(text[0] == back[0]);
    }
}

proof fn lemma_start_cut(front: Seq<char>, rest: Seq<char>)
    requires
        all_white(front),
        rest.len() > 0 ==> !white(rest[0]),
    ensures
        trimmed_start(front + rest) == rest,
    decreases front.len(),
{
    let text = front + rest;
    if front.len() > 0 {
        lemma_white(front[0]);
        assert(text[0] == front[0]);
        let more = front.skip(1);
        assert forall|k: int| 0 <= k < more.len() implies white(#[trigger] more[k]) by {
            assert(more[k] == front[k + 1]);
        }
        lemma_start_cut(more, rest);
        assert(text.skip(1) =~= more + rest);
    } else {
        assert(text =~= rest);
        if rest.len() > 0 {
            lemma_white(rest[0]);
        }
    }
}

/// The first word of a text is what follows the white space at its beginning up to the next white
/// space.
pub proof fn first_word_is_found(front: Seq<char>, word: Seq<char>, back: Seq<char>)
    requires
        all_white(front),
        is_word(word),
        ends_a_word(back),
    ensures
        first_word(front + word + back) == Some(word),
{
    let rest = word + back;
    assert(rest[0] == word[0]);
    assert(front + word + back =~= front + rest);
    lemma_start_cut(front, rest);
    lemma_word_length(word, back);
    assert(rest.take(word.len() as int) =~= word);
}

/// A text without a word is nothing but white space.
pub proof fn text_without_word_is_white(text: Seq<char>)
    ensures
        first_word(text) is None <==> all_white(text),
{
    lemma_start(text);
    let rest = trimmed_start(text);
    let front = choose|front: Seq<char>| #[trigger] all_white(front) && text == front + rest;
    if rest.len() > 0 {
        lemma_white(rest[0]);
        assert(text[front.len() as int] == rest[0]);
        assert(word_length(rest) > 0);
    } else {
        assert(text =~= front);
    }
}

/// A number is written without a leading zero, and a negative one with a minus in front.
pub proof fn numbers_have_no_leading_zero(value: nat)
    ensures
        decimal(value).len() > 0,
        value > 0 ==> decimal(value)[0] != '0',
        value == 0 ==> decimal(value) == "0"@,
        signed_decimal(value as int) == decimal(value),
        value > 0 ==> signed_decimal(-value) == "-"@ + decimal(value),
    decreases value,
{
    reveal_strlit("0");
    if value >= 10 {
        numbers_have_no_leading_zero(value / 10);
        assert(decimal(value)[0] == decimal(value / 10)[0]);
    } else {
        assert(decimal(value)[0] as int == 48 + value);
        if value == 0 {
            assert(decimal(value) =~= "0"@);
        }
    }
}

} // verus!
