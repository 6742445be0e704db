//! From text to tokens.
use vstd::prelude::*;

use crate::builtins::same_text;
use crate::types::{Token, Value};

verus! {

/// Whether a character separates words: whether it has the Unicode property `White_Space`.
pub open spec fn white_space(c: char) -> bool {
    let n = c as u32;
    ||| 0x9 <= n <= 0xd
    ||| n == 0x20
    ||| n == 0x85
    ||| n == 0xa0
    ||| n == 0x1680
    ||| 0x2000 <= n <= 0x200a
    ||| n == 0x2028
    ||| n == 0x2029
    ||| n == 0x202f
    ||| n == 0x205f
    ||| n == 0x3000
}

/// `char::is_whitespace`: whether the character has the Unicode property `White_Space`.
#[verifier::external_body]
fn is_whitespace(c: char) -> (r: bool)
    ensures
        r == white_space(c),
{
    c.is_whitespace()
}

/// `String::push`: the character goes to the end of the string.
pub assume_specification[ String::push ](s: &mut String, c: char)
    ensures
        final(s)@ == old(s)@.push(c),
;

/// Whether a character is a decimal digit.
pub open spec fn is_digit(c: char) -> bool {
    '0' <= c <= '9'
}

/// The number that decimal digits spell.
pub open spec fn digits_value(digits: Seq<char>) -> int
    decreases digits.len(),
{
    if digits.len() == 0 {
        0
    } else {
        digits_value(digits.drop_last()) * 10 + (digits.last() as int - '0' as int)
    }
}

/// The number that at least one decimal digit spells.
pub open spec fn magnitude_of(digits: Seq<char>) -> Option<int> {
    if digits.len() > 0 && forall|i: int| 0 <= i < digits.len() ==> is_digit(#[trigger] digits[i]) {
        Some(digits_value(digits))
    } else {
        None
    }
}

/// The number that a text spells: decimal digits, with a sign before them or not.
pub open spec fn number_of(text: Seq<char>) -> Option<int> {
    if text.len() > 0 && text[0] == '-' {
        match magnitude_of(text.skip(1)) {
            Some(n) => Some(-n),
            None => None,
        }
    } else if text.len() > 0 && text[0] == '+' {
        magnitude_of(text.skip(1))
    } else {
        magnitude_of(text)
    }
}

/// The value that a text spells, if a cell can hold it.
pub open spec fn value_of_text(text: Seq<char>) -> Option<Value> {
    match number_of(text) {
        Some(n) => if i64::MIN <= n <= i64::MAX {
            Some(n as i64)
        } else {
            None
        },
        None => None,
    }
}

/// `str::parse::<i64>`: decimal digits with an optional sign before them, and nothing else, are
/// read as a number; anything else is an error, and so is a number that does not fit.
#[verifier::external_body]
fn parse_value(text: &str) -> (r: Option<Value>)
    ensures
        r == value_of_text(text@),
{
    text.parse().ok()
}

/// Whether a word is read as the given token.
pub open spec fn reads_as(text: Seq<char>, token: Token) -> bool {
    if text == "print"@ {
        token is Print
    } else if text == "quit"@ {
        token is Quit
    } else if text == "drop"@ {
        token is Drop
    } else if text == "swap"@ {
        token is Swap
    } else if text == "rot"@ {
        token is Rot
    } else if text == "pick"@ {
        token is Pick
    } else if text == "if"@ {
        token is If
    } else if text == "skip"@ {
        token is Skip
    } else if text == ":"@ {
        token is Colon
    } else if text == ";"@ {
        token is Semicolon
    } else {
        match value_of_text(text) {
            Some(n) => token == Token::Literal(n),
            None => token is Identifier && token->Identifier_0@ == text,
        }
    }
}

/// The token that a word is read as.
pub fn parse(token: &str) -> (r: Token)
    ensures
        reads_as(token@, r),
{
    if same_text(token, "print") {
        Token::Print
    } else if same_text(token, "quit") {
        Token::Quit
    } else if same_text(token, "drop") {
        Token::Drop
    } else if same_text(token, "swap") {
        Token::Swap
    } else if same_text(token, "rot") {
        Token::Rot
    } else if same_text(token, "pick") {
        Token::Pick
    } else if same_text(token, "if") {
        Token::If
    } else if same_text(token, "skip") {
        Token::Skip
    } else if same_text(token, ":") {
        Token::Colon
    } else if same_text(token, ";") {
        Token::Semicolon
    } else {
        match parse_value(token) {
            Some(n) => Token::Literal(n),
            None => Token::Identifier(token.to_string()),
        }
    }
}

/// The words of a text, given which of its characters separate them: a character that does not
/// separate words goes to the word of the one before it, or starts a word.
pub open spec fn words(text: Seq<char>, white: Seq<bool>) -> Seq<Seq<char>>
    recommends
        text.len() == white.len(),
    decreases text.len(),
{
    if text.len() == 0 {
        Seq::empty()
    } else {
        let before = words(text.drop_last(), white.drop_last());
        if white.last() {
            before
        } else if text.len() > 1 && !white[white.len() - 2] {
            before.drop_last().push(before.last().push(text.last()))
        } else {
            before.push(seq![text.last()])
        }
    }
}

/// No word is empty; and behind a character that does not separate words there is one.
pub proof fn law_words_are_not_empty(text: Seq<char>, white: Seq<bool>)
    requires
        text.len() == white.len(),
    ensures
        forall|i: int| 0 <= i < words(text, white).len() ==> (#[trigger] words(text, white)[i]).len()
            > 0,
        text.len() > 0 && !white.last() ==> words(text, white).len() > 0,
    decreases text.len(),
{
    if text.len() > 0 {
        law_words_are_not_empty(text.drop_last(), white.drop_last());
        assert(text.len() > 1 ==> white.drop_last().last() == white[white.len() - 2]);
        let before = words(text.drop_last(), white.drop_last());
        assert forall|i: int| 0 <= i < words(text, white).len() implies (#[trigger] words(
            text,
            white,
        )[i]).len() > 0 by {
            if i < before.len() {
                assert(before[i].len() > 0);
            }
        }
    }
}

/// Words put together.
pub open spec fn joined(texts: Seq<Seq<char>>) -> Seq<char>
    decreases texts.len(),
{
    if texts.len() == 0 {
        Seq::empty()
    } else {
        joined(texts.drop_last()) + texts.last()
    }
}

/// The characters of a text that do not separate words.
pub open spec fn solid(text: Seq<char>, white: Seq<bool>) -> Seq<char>
    decreases text.len(),
{
    if text.len() == 0 {
        Seq::empty()
    } else if white.last() {
        solid(text.drop_last(), white.drop_last())
    } else {
        solid(text.drop_last(), white.drop_last()).push(text.last())
    }
}

/// The words of a text hold all of its characters that do not separate words, in their order, and
/// no others.
pub proof fn law_words_hold_the_text(text: Seq<char>, white: Seq<bool>)
    requires
        text.len() == white.len(),
    ensures
        joined(words(text, white)) == solid(text, white),
    decreases text.len(),
{
    if text.len() > 0 {
        let fewer = text.drop_last();
        let marks = white.drop_last();
        let before = words(fewer, marks);
        law_words_hold_the_text(fewer, marks);
        law_words_are_not_empty(fewer, marks);
        let c = text.last();
        if !white.last() {
            let now = words(text, white);
            if text.len() > 1 && !white[white.len() - 2] {
                assert(marks.last() == white[white.len() - 2]);
                assert(now.drop_last() =~= before.drop_last());
                assert(now.last() == before.last().push(c));
                assert(joined(before.drop_last()) + before.last().push(c) =~= (joined(
                    before.drop_last(),
                ) + before.last()).push(c));
            } else {
                assert(now.drop_last() =~= before);
                assert(joined(before) + seq![c] =~= joined(before).push(c));
            }
        }
    }
}

/// The texts of several strings.
pub open spec fn texts_of(strings: Seq<String>) -> Seq<Seq<char>> {
    strings.map_values(|s: String| s@)
}

/// The words of a text, given which of its characters separate them.
pub fn split_words(text: &Vec<char>, white: &Vec<bool>) -> (r: Vec<String>)
    requires
        text@.len() == white@.len(),
    ensures
        texts_of(r@) == words(text@, white@),
{
    let mut result: Vec<String> = Vec::new();
    let mut word = String::new();
    let mut i: usize = 0;
    assert(texts_of(result@) =~= Seq::<Seq<char>>::empty());
    while i < text.len()
        invariant
            text@.len() == white@.len(),
            i <= text@.len(),
            ({
                let found = words(text@.take(i as int), white@.take(i as int));
                if i > 0 && !white@[i - 1] {
                    &&& found == texts_of(result@).push(word@)
                    &&& word@.len() > 0
                } else {
                    &&& found == texts_of(result@)
                    &&& word@.len() == 0
                }
            }),
        decreases text@.len() - i,
    {
        let ghost at = text@.take(i + 1);
        let ghost marks = white@.take(i + 1);
        let ghost before = result@;
        assert(at.drop_last() =~= text@.take(i as int));
        assert(marks.drop_last() =~= white@.take(i as int));
        assert(at.last() == text@[i as int] && marks.last() == white@[i as int]);
        if white[i] {
            if i > 0 && !white[i - 1] {
                result.push(word);
                word = String::new();
                assert(texts_of(result@) =~= texts_of(before).push(result@.last()@));
            }
            assert(word@.len() == 0);
        } else {
            let ghost old_word = word@;
            word.push(text[i]);
            assert(texts_of(result@).push(old_word).drop_last() =~= texts_of(result@));
            assert(old_word.len() == 0 ==> word@ =~= seq![text@[i as int]]);
        }
        i = i + 1;
    }
    assert(text@.take(i as int) =~= text@);
    assert(white@.take(i as int) =~= white@);
    if i > 0 && !white[i - 1] {
        let ghost before = result@;
        result.push(word);
        assert(texts_of(result@) =~= texts_of(before).push(result@.last()@));
    }
    result
}

/// Which characters of a text separate words.
pub open spec fn white_marks(text: Seq<char>) -> Seq<bool> {
    text.map_values(|c: char| white_space(c))
}

/// Whether words are read as the given tokens, one by one.
pub open spec fn read_as(texts: Seq<Seq<char>>, tokens: Seq<Token>) -> bool {
    &&& tokens.len() == texts.len()
    &&& forall|i: int| 0 <= i < tokens.len() ==> reads_as(texts[i], #[trigger] tokens[i])
}

/// The tokens of several words.
pub fn parse_words(strings: &Vec<String>) -> (r: Vec<Token>)
    ensures
        read_as(texts_of(strings@), r@),
{
    let mut tokens: Vec<Token> = Vec::new();
    let mut i: usize = 0;
    while i < strings.len()
        invariant
            i <= strings@.len(),
            tokens@.len() == i,
            forall|k: int| 0 <= k < i ==> reads_as(strings@[k]@, #[trigger] tokens@[k]),
        decreases strings@.len() - i,
    {
        tokens.push(parse(strings[i].as_str()));
        i = i + 1;
    }
    tokens
}

/// The tokens of a text.
pub fn tokenize(line: &str) -> (r: Vec<Token>)
    ensures
        read_as(words(line@, white_marks(line@)), r@),
{
    let mut text: Vec<char> = Vec::new();
    let mut white: Vec<bool> = Vec::new();
    for c in iter: line.chars()
        invariant
            iter.seq() == line@,
            text@ == line@.take(iter.index()),
            white@ == white_marks(text@),
    {
        let ghost before = text@;
        text.push(c);
        white.push(is_whitespace(c));
        assert(white@ =~= white_marks(text@));
        assert(text@ =~= line@.take(iter.index() + 1));
    }
    assert(text@ =~= line@);
    let strings = split_words(&text, &white);
    parse_words(&strings)
}

} // verus!
