//! What becomes of a text: its words, and the numbers that they spell.
use vstd::prelude::*;

#[allow(unused_imports)]
use crate::lexer::{
    digits_value, is_digit, law_words_are_not_empty, magnitude_of, number_of, read_as, reads_as,
    value_of_text, white_marks, white_space, words,
};
#[allow(unused_imports)]
use crate::types::{Token, Value};

verus! {

/// The words of a text.
pub open spec fn words_of(text: Seq<char>) -> Seq<Seq<char>> {
    words(text, white_marks(text))
}

proof fn lemma_one_more(text: Seq<char>, c: char)
    ensures
        text.push(c).drop_last() == text,
        white_marks(text.push(c)).drop_last() == white_marks(text),
        white_marks(text.push(c)).last() == white_space(c),
        text.len() > 0 ==> white_marks(text.push(c))[text.len() - 1] == white_space(text.last()),
        white_space(c) ==> words_of(text.push(c)) == words_of(text),
        !white_space(c) && text.len() > 0 && !white_space(text.last()) ==> words_of(text.push(c))
            == words_of(text).drop_last().push(words_of(text).last().push(c)),
        !white_space(c) && (text.len() == 0 || white_space(text.last())) ==> words_of(text.push(c))
            == words_of(text).push(seq![c]),
{
    let more = text.push(c);
    assert(more.drop_last() =~= text);
    assert(white_marks(more).drop_last() =~= white_marks(text));
}

/// White space parts a text: the words before it and those behind it are the words of the whole.
pub proof fn law_white_space_parts(a: Seq<char>, c: char, b: Seq<char>)
    requires
        white_space(c),
    ensures
        words_of(a.push(c) + b) == words_of(a) + words_of(b),
    decreases b.len(),
{
    if b.len() == 0 {
        assert(a.push(c) + b =~= a.push(c));
        lemma_one_more(a, c);
        assert(words_of(a) + words_of(b) =~= words_of(a));
    } else {
        let fewer = b.drop_last();
        let d = b.last();
        let text = a.push(c) + fewer;
        law_white_space_parts(a, c, fewer);
        assert(a.push(c) + b =~= text.push(d));
        assert(b =~= fewer.push(d));
        lemma_one_more(text, d);
        lemma_one_more(fewer, d);
        let before = words_of(fewer);
        if fewer.len() > 0 {
            assert(text.last() == fewer.last());
            law_words_are_not_empty(fewer, white_marks(fewer));
            assert(white_marks(fewer).last() == white_space(fewer.last()));
        } else {
            assert(text.last() == c);
        }
        if !white_space(d) {
            if fewer.len() > 0 && !white_space(fewer.last()) {
                assert((words_of(a) + before).drop_last() =~= words_of(a) + before.drop_last());
                assert((words_of(a) + before).last() == before.last());
                assert(words_of(a.push(c) + b) =~= words_of(a) + words_of(b));
            } else {
                assert(words_of(a.push(c) + b) =~= words_of(a) + words_of(b));
            }
        }
    }
}

/// A text without white space is one word.
pub proof fn law_solid_text_is_a_word(text: Seq<char>)
    requires
        text.len() > 0,
        forall|i: int| 0 <= i < text.len() ==> !white_space(#[trigger] text[i]),
    ensures
        words_of(text) == seq![text],
    decreases text.len(),
{
    let fewer = text.drop_last();
    let c = text.last();
    assert(text =~= fewer.push(c));
    assert(!white_space(text[text.len() - 1]));
    lemma_one_more(fewer, c);
    if fewer.len() > 0 {
        assert forall|i: int| 0 <= i < fewer.len() implies !white_space(#[trigger] fewer[i]) by {
            assert(!white_space(text[i]));
        }
        law_solid_text_is_a_word(fewer);
        assert(!white_space(fewer[fewer.len() - 1]));
        assert(words_of(text) =~= seq![text]);
    } else {
        assert(words_of(fewer) =~= Seq::<Seq<char>>::empty());
        assert(seq![c] =~= text);
        assert(words_of(text) =~= seq![text]);
    }
}

/// A text of nothing but white space has no words.
pub proof fn law_white_text_has_no_words(text: Seq<char>)
    requires
        forall|i: int| 0 <= i < text.len() ==> white_space(#[trigger] text[i]),
    ensures
        words_of(text) == Seq::<Seq<char>>::empty(),
    decreases text.len(),
{
    if text.len() > 0 {
        let fewer = text.drop_last();
        assert(text =~= fewer.push(text.last()));
        assert(white_space(text[text.len() - 1]));
        lemma_one_more(fewer, text.last());
        assert forall|i: int| 0 <= i < fewer.len() implies white_space(#[trigger] fewer[i]) by {
            assert(white_space(text[i]));
        }
        law_white_text_has_no_words(fewer);
    }
}

/// The tokens before white space and those behind it are the tokens of the whole.
pub proof fn law_white_space_parts_tokens(
    a: Seq<char>,
    c: char,
    b: Seq<char>,
    first: Seq<Token>,
    second: Seq<Token>,
)
    requires
        white_space(c),
        read_as(words_of(a), first),
        read_as(words_of(b), second),
    ensures
        read_as(words_of(a.push(c) + b), first + second),
{
    law_white_space_parts(a, c, b);
    let all = first + second;
    let texts = words_of(a) + words_of(b);
    assert forall|i: int| 0 <= i < all.len() implies reads_as(texts[i], #[trigger] all[i]) by {
        if i < first.len() {
            assert(all[i] == first[i]);
            assert(texts[i] == words_of(a)[i]);
            assert(reads_as(words_of(a)[i], first[i]));
        } else {
            let j = i - first.len();
            assert(all[i] == second[j]);
            assert(texts[i] == words_of(b)[j]);
            assert(reads_as(words_of(b)[j], second[j]));
        }
    }
}

/// A digit is a number.
pub proof fn law_digit_is_a_number(c: char)
    requires
        '0' <= c <= '9',
    ensures
        value_of_text(seq![c]) == Some((c as int - '0' as int) as i64),
{
    let text = seq![c];
    assert(text.drop_last() =~= Seq::<char>::empty());
    assert(digits_value(text.drop_last()) == 0);
    assert(digits_value(text) == c as int - '0' as int);
}

/// Appending a digit to digits makes ten times the number and the digit, if a cell can hold that;
/// it is no number otherwise.
pub proof fn law_another_digit(text: Seq<char>, n: Value, c: char)
    requires
        text.len() > 0,
        text[0] != '-',
        value_of_text(text) == Some(n),
        '0' <= c <= '9',
    ensures
        ({
            let more = 10 * n + (c as int - '0' as int);
            value_of_text(text.push(c)) == if more <= i64::MAX {
                Some(more as i64)
            } else {
                None
            }
        }),
{
    let more = text.push(c);
    assert(more[0] == text[0]);
    if text[0] == '+' {
        assert(more.skip(1) =~= text.skip(1).push(c));
        lemma_magnitude_grows(text.skip(1), c);
    } else {
        lemma_magnitude_grows(text, c);
    }
}

/// A number with a minus sign is the negative one, as far as cells reach.
pub proof fn law_minus_sign(text: Seq<char>, n: int)
    requires
        magnitude_of(text) == Some(n),
    ensures
        value_of_text(seq!['-'] + text) == if n <= -(i64::MIN as int) {
            Some((-n) as i64)
        } else {
            None
        },
        value_of_text(seq!['+'] + text) == value_of_text(text),
        n >= 0,
{
    let minus = seq!['-'] + text;
    let plus = seq!['+'] + text;
    assert(minus.skip(1) =~= text);
    assert(plus.skip(1) =~= text);
    assert(is_digit(text[0]));
    lemma_not_negative(text);
}

proof fn lemma_not_negative(digits: Seq<char>)
    requires
        forall|i: int| 0 <= i < digits.len() ==> is_digit(#[trigger] digits[i]),
    ensures
        digits_value(digits) >= 0,
    decreases digits.len(),
{
    if digits.len() > 0 {
        assert(is_digit(digits[digits.len() - 1]));
        assert forall|i: int| 0 <= i < digits.drop_last().len() implies is_digit(
            #[trigger] digits.drop_last()[i],
        ) by {
            assert(is_digit(digits[i]));
        }
        lemma_not_negative(digits.drop_last());
    }
}

proof fn lemma_magnitude_grows(digits: Seq<char>, c: char)
    requires
        magnitude_of(digits) is Some,
        is_digit(c),
    ensures
        magnitude_of(digits)->0 >= 0,
        magnitude_of(digits.push(c)) == Some(
            10 * magnitude_of(digits)->0 + (c as int - '0' as int),
        ),
{
    let more = digits.push(c);
    assert(more.drop_last() =~= digits);
    assert forall|i: int| 0 <= i < more.len() implies is_digit(#[trigger] more[i]) by {
        if i < digits.len() {
            assert(is_digit(digits[i]));
        }
    }
    lemma_not_negative(digits);
}

/// Leading digits count for more: digits of any length that are followed by one more digit are ten
/// times what they were and the digit, and the first digit is the number that it is alone.
pub proof fn law_digits(digits: Seq<char>, c: char)
    requires
        magnitude_of(digits) is Some,
        '0' <= c <= '9',
    ensures
        magnitude_of(digits.push(c)) == Some(
            10 * magnitude_of(digits)->0 + (c as int - '0' as int),
        ),
        magnitude_of(seq![c]) == Some(c as int - '0' as int),
{
    lemma_magnitude_grows(digits, c);
    let one = seq![c];
    assert(one.drop_last() =~= Seq::<char>::empty());
    assert(digits_value(one.drop_last()) == 0);
    assert(digits_value(one) == c as int - '0' as int);
}

/// A text that holds anything but digits behind its first character spells no number, nor does one
/// that starts with neither a digit nor a sign, nor one without a digit.
pub proof fn law_what_is_no_number(text: Seq<char>, i: int)
    requires
        text.len() == 0 || (0 <= i < text.len() && !('0' <= text[i] <= '9') && (i > 0 || (text[0]
            != '-' && text[0] != '+'))) || (text.len() == 1 && !('0' <= text[0] <= '9')),
    ensures
        value_of_text(text) is None,
{
    if text.len() == 0 {
        assert(magnitude_of(text) is None);
    } else if text[0] == '-' || text[0] == '+' {
        if text.len() == 1 {
            assert(text.skip(1).len() == 0);
        } else {
            assert(text.skip(1)[i - 1] == text[i]);
            assert(!is_digit(text.skip(1)[i - 1]));
        }
    } else {
        if text.len() == 1 {
            assert(!is_digit(text[0]));
        } else {
            assert(!is_digit(text[i]));
        }
    }
}

} // verus!
