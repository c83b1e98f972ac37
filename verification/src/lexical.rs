//! The lexical structure of the language: where trivia, identifiers and
//! numerals end, and what they stand for.
//!
//! Positions are byte offsets into the source. Comments (`// ...`) and ASCII
//! whitespace are trivia; they may stand between any two tokens.

use crate::error::NEWLINE;
use crate::text::{all_ascii, ascii_text};
use vstd::prelude::*;

verus! {

// -----------------------------------------------------------------------------
// Bytes
// -----------------------------------------------------------------------------

/// Tab.
pub const TAB: u8 = 9;

/// Form feed.
pub const FORM_FEED: u8 = 12;

/// Carriage return.
pub const RETURN: u8 = 13;

/// Space.
pub const SPACE: u8 = 32;

/// `(`.
pub const LPAREN: u8 = 40;

/// `)`.
pub const RPAREN: u8 = 41;

/// `+`.
pub const PLUS: u8 = 43;

/// `,`.
pub const COMMA: u8 = 44;

/// `-`.
pub const MINUS: u8 = 45;

/// `.`.
pub const DOT: u8 = 46;

/// `/`.
pub const SLASH: u8 = 47;

/// `0`.
pub const ZERO: u8 = 48;

/// `9`.
pub const NINE: u8 = 57;

/// `;`.
pub const SEMICOLON: u8 = 59;

/// `=`.
pub const EQUALS: u8 = 61;

/// `A`.
pub const UPPER_A: u8 = 65;

/// `Z`.
pub const UPPER_Z: u8 = 90;

/// `_`.
pub const UNDERSCORE: u8 = 95;

/// `a`.
pub const LOWER_A: u8 = 97;

/// `z`.
pub const LOWER_Z: u8 = 122;

/// The byte `b` stands at `i`.
pub open spec fn byte_at(src: Seq<u8>, i: int, b: u8) -> bool {
    0 <= i < src.len() && src[i] == b
}

/// Space, tab, line feed, form feed or carriage return.
pub open spec fn is_space(b: u8) -> bool {
    b == SPACE || b == TAB || b == NEWLINE || b == FORM_FEED || b == RETURN
}

pub open spec fn is_digit(b: u8) -> bool {
    ZERO <= b <= NINE
}

/// A letter or an underscore.
pub open spec fn is_ident_start(b: u8) -> bool {
    LOWER_A <= b <= LOWER_Z || UPPER_A <= b <= UPPER_Z || b == UNDERSCORE
}

/// A letter, a digit or an underscore.
pub open spec fn is_ident_byte(b: u8) -> bool {
    is_ident_start(b) || is_digit(b)
}

// -----------------------------------------------------------------------------
// Trivia
// -----------------------------------------------------------------------------

/// Just past the end of the line that holds `i`, or the end of the source.
pub open spec fn next_line(src: Seq<u8>, i: int) -> int
    decreases src.len() - i,
{
    if i >= src.len() {
        i
    } else if src[i] == NEWLINE {
        i + 1
    } else {
        next_line(src, i + 1)
    }
}

pub proof fn lemma_next_line(src: Seq<u8>, i: int)
    requires
        0 <= i <= src.len(),
    ensures
        i <= next_line(src, i) <= src.len(),
        i < src.len() ==> i < next_line(src, i),
    decreases src.len() - i,
{
    if i < src.len() && src[i] != NEWLINE {
        lemma_next_line(src, i + 1);
    }
}

/// A comment begins at `i`.
pub open spec fn comment_at(src: Seq<u8>, i: int) -> bool {
    byte_at(src, i, SLASH) && byte_at(src, i + 1, SLASH)
}

/// Where the trivia that begins at `i` ends.
pub open spec fn skip(src: Seq<u8>, i: int) -> int
    decreases src.len() - i,
{
    if i < 0 || i >= src.len() {
        i
    } else if is_space(src[i]) {
        skip(src, i + 1)
    } else if comment_at(src, i) {
        proof {
            lemma_next_line(src, i);
        }
        skip(src, next_line(src, i))
    } else {
        i
    }
}

/// No trivia begins at `i`.
pub open spec fn at_token(src: Seq<u8>, i: int) -> bool {
    skip(src, i) == i
}

pub proof fn lemma_skip(src: Seq<u8>, i: int)
    requires
        0 <= i <= src.len(),
    ensures
        i <= skip(src, i) <= src.len(),
        at_token(src, skip(src, i)),
    decreases src.len() - i,
{
    if i < src.len() {
        if is_space(src[i]) {
            lemma_skip(src, i + 1);
        } else if comment_at(src, i) {
            lemma_next_line(src, i);
            lemma_skip(src, next_line(src, i));
        }
    }
}

// -----------------------------------------------------------------------------
// Identifiers and keywords
// -----------------------------------------------------------------------------

/// Where the run of identifier bytes that begins at `i` ends.
pub open spec fn ident_run_end(src: Seq<u8>, i: int) -> int
    decreases src.len() - i,
{
    if 0 <= i < src.len() && is_ident_byte(src[i]) {
        ident_run_end(src, i + 1)
    } else {
        i
    }
}

/// An identifier or a keyword begins at `i`.
pub open spec fn word_at(src: Seq<u8>, i: int) -> bool {
    0 <= i < src.len() && is_ident_start(src[i])
}

/// Where the word that begins at `i` ends.
pub open spec fn word_end(src: Seq<u8>, i: int) -> int {
    ident_run_end(src, i + 1)
}

/// The word that begins at `i`.
pub open spec fn word(src: Seq<u8>, i: int) -> Seq<char> {
    ascii_text(src.subrange(i, word_end(src, i)))
}

/// The word at `i` is `keyword`, whole.
pub open spec fn keyword_at(src: Seq<u8>, i: int, keyword: Seq<char>) -> bool {
    word_at(src, i) && word(src, i) == keyword
}

pub proof fn lemma_ident_run_end(src: Seq<u8>, i: int)
    requires
        0 <= i <= src.len(),
    ensures
        i <= ident_run_end(src, i) <= src.len(),
        forall|k: int| i <= k < ident_run_end(src, i) ==> is_ident_byte(#[trigger] src[k]),
    decreases src.len() - i,
{
    if i < src.len() && is_ident_byte(src[i]) {
        lemma_ident_run_end(src, i + 1);
    }
}

pub proof fn lemma_word(src: Seq<u8>, i: int)
    requires
        word_at(src, i),
    ensures
        i < word_end(src, i) <= src.len(),
        word(src, i).len() == word_end(src, i) - i,
        all_ascii(src.subrange(i, word_end(src, i))),
        forall|k: int| i <= k < word_end(src, i) ==> is_ident_byte(#[trigger] src[k]),
{
    lemma_ident_run_end(src, i + 1);
}

/// The words that cannot name a variable.
pub open spec fn is_reserved_word(text: Seq<char>) -> bool {
    ||| text == "let"@
    ||| text == "in"@
    ||| text == "linear"@
    ||| text == "shared"@
    ||| text == "ordinary"@
    ||| text == "method"@
    ||| text == "returns"@
    ||| text == "enum"@
    ||| text == "match"@
    ||| text == "inout"@
    ||| text == "int"@
}

// -----------------------------------------------------------------------------
// Numerals
// -----------------------------------------------------------------------------

/// Where the run of digits that begins at `i` ends.
pub open spec fn digits_end(src: Seq<u8>, i: int) -> int
    decreases src.len() - i,
{
    if 0 <= i < src.len() && is_digit(src[i]) {
        digits_end(src, i + 1)
    } else {
        i
    }
}

pub proof fn lemma_digits_end(src: Seq<u8>, i: int)
    requires
        0 <= i <= src.len(),
    ensures
        i <= digits_end(src, i) <= src.len(),
        i < src.len() && is_digit(src[i]) ==> i < digits_end(src, i),
        forall|k: int| i <= k < digits_end(src, i) ==> is_digit(#[trigger] src[k]),
    decreases src.len() - i,
{
    if i < src.len() && is_digit(src[i]) {
        lemma_digits_end(src, i + 1);
    }
}

/// The number that a run of decimal digits denotes.
pub open spec fn digits_value(digits: Seq<u8>) -> nat
    decreases digits.len(),
{
    if digits.len() == 0 {
        0
    } else {
        digits_value(digits.drop_last()) * 10 + (digits.last() - ZERO) as nat
    }
}

/// More digits do not make a smaller number.
pub proof fn lemma_digits_value_monotonic(digits: Seq<u8>, n: int)
    requires
        0 <= n <= digits.len(),
        forall|k: int| 0 <= k < digits.len() ==> is_digit(#[trigger] digits[k]),
    ensures
        digits_value(digits.take(n)) <= digits_value(digits),
    decreases digits.len(),
{
    if n == digits.len() {
        assert(digits.take(n) =~= digits);
    } else {
        let shorter = digits.drop_last();
        lemma_digits_value_monotonic(shorter, n);
        assert(shorter.take(n) =~= digits.take(n));
    }
}

/// A digit stands at `i`.
pub open spec fn digit_at(src: Seq<u8>, i: int) -> bool {
    0 <= i < src.len() && is_digit(src[i])
}

/// An integer literal, `-?[0-9]+`, begins at `i`.
pub open spec fn int_at(src: Seq<u8>, i: int) -> bool {
    digit_at(src, i) || byte_at(src, i, MINUS) && digit_at(src, i + 1)
}

/// Where the digits of the literal at `i` begin: after its sign, if it has one.
pub open spec fn int_digits_start(src: Seq<u8>, i: int) -> int {
    if byte_at(src, i, MINUS) {
        i + 1
    } else {
        i
    }
}

/// Where the literal at `i` ends.
pub open spec fn int_end(src: Seq<u8>, i: int) -> int {
    digits_end(src, int_digits_start(src, i))
}

/// The number that the literal at `i` denotes.
pub open spec fn int_value(src: Seq<u8>, i: int) -> int {
    let magnitude = digits_value(src.subrange(int_digits_start(src, i), int_end(src, i))) as int;
    if byte_at(src, i, MINUS) {
        -magnitude
    } else {
        magnitude
    }
}

pub proof fn lemma_int(src: Seq<u8>, i: int)
    requires
        int_at(src, i),
    ensures
        i < int_end(src, i) <= src.len(),
        int_digits_start(src, i) < int_end(src, i),
        all_ascii(src.subrange(i, int_end(src, i))),
        forall|k: int|
            int_digits_start(src, i) <= k < int_end(src, i) ==> is_digit(#[trigger] src[k]),
{
    let start = int_digits_start(src, i);
    lemma_digits_end(src, start);
    assert forall|k: int| 0 <= k < int_end(src, i) - i implies #[trigger] src.subrange(
        i,
        int_end(src, i),
    )[k] < 128 by {
        assert(i + k < start || is_digit(src[i + k]));
    }
}

} // verus!
