//! The grammar of a line typed at the client's prompt.
//!
//! A line is `<position>,<text>` for an insert or `<position>,delete<count>`
//! for a delete, with white space around the whole line ignored. Numbers are
//! decimal, with an optional `+` before the digits, and must fit the machine
//! word. This module says what each part means; the parser itself is in
//! [`crate::client`].

use vstd::prelude::*;

verus! {

/// The characters that count as white space: those that Unicode marks as
/// `White_Space`.
pub open spec fn is_white_space(c: char) -> bool {
    let code = c as u32;
    ||| 0x09 <= code <= 0x0d
    ||| code == 0x20
    ||| code == 0x85
    ||| code == 0xa0
    ||| code == 0x1680
    ||| 0x2000 <= code <= 0x200a
    ||| code == 0x2028
    ||| code == 0x2029
    ||| code == 0x202f
    ||| code == 0x205f
    ||| code == 0x3000
}

/// `text` without the white space it begins with.
pub open spec fn trim_start(text: Seq<char>) -> Seq<char>
    decreases text.len(),
{
    if text.len() > 0 && is_white_space(text.first()) {
        trim_start(text.drop_first())
    } else {
        text
    }
}

/// `text` without the white space it ends with.
pub open spec fn trim_end(text: Seq<char>) -> Seq<char>
    decreases text.len(),
{
    if text.len() > 0 && is_white_space(text.last()) {
        trim_end(text.drop_last())
    } else {
        text
    }
}

/// `text` without the white space at either end.
pub open spec fn trim(text: Seq<char>) -> Seq<char> {
    trim_end(trim_start(text))
}

/// One of the digits `0` to `9`.
pub open spec fn is_digit(c: char) -> bool {
    0x30 <= c as u32 <= 0x39
}

/// The number that a run of digits stands for, read in base ten.
pub open spec fn decimal_value(digits: Seq<char>) -> nat
    decreases digits.len(),
{
    if digits.len() == 0 {
        0
    } else {
        decimal_value(digits.drop_last()) * 10 + (digits.last() as u32 - 0x30) as nat
    }
}

/// The digits of a number as it is written: what follows the `+`, if it
/// begins with one.
pub open spec fn digits_of(text: Seq<char>) -> Seq<char> {
    if text.len() > 0 && text.first() == '+' {
        text.drop_first()
    } else {
        text
    }
}

/// The number that `text` is, if it is one: at least one digit and nothing
/// but digits after an optional `+`, and a value that fits the machine word.
pub open spec fn parse_number(text: Seq<char>) -> Option<nat> {
    let digits = digits_of(text);
    if digits.len() > 0 && (forall|i: int| 0 <= i < digits.len() ==> is_digit(#[trigger] digits[i]))
        && decimal_value(digits) <= usize::MAX {
        Some(decimal_value(digits))
    } else {
        None
    }
}

/// `text` holds a comma at `at` and nowhere else.
pub open spec fn is_sole_comma(text: Seq<char>, at: int) -> bool {
    &&& 0 <= at < text.len()
    &&& text[at] == ','
    &&& forall|j: int| 0 <= j < text.len() && j != at ==> #[trigger] text[j] != ','
}

/// The word that marks a delete.
pub open spec fn delete_word() -> Seq<char> {
    seq!['d', 'e', 'l', 'e', 't', 'e']
}

/// What is wrong with a line.
#[derive(Clone, Copy, Debug, PartialEq, Eq, Structural)]
pub enum InputError {
    /// The line does not hold exactly one comma.
    Format,
    /// What stands before the comma is not a number.
    Position,
    /// What follows `delete` is not a number.
    DeleteCount,
}

/// What a line asks for, as plain values.
pub struct EditView {
    pub position: nat,
    pub insert: Option<Seq<char>>,
    pub delete: Option<nat>,
}

/// The meaning of a line.
///
/// The line is trimmed and must then hold exactly one comma. What stands
/// before the comma is the position. Where what follows the comma begins with
/// `delete`, the rest of it, trimmed, is the number of bytes to delete;
/// otherwise all of it is the text to insert, which may be empty.
pub open spec fn parse_line(line: Seq<char>) -> Result<EditView, InputError> {
    let text = trim(line);
    if !exists|at: int| is_sole_comma(text, at) {
        Err(InputError::Format)
    } else {
        let at = choose|at: int| is_sole_comma(text, at);
        let left = text.subrange(0, at);
        let right = text.subrange(at + 1, text.len() as int);
        match parse_number(left) {
            None => Err(InputError::Position),
            Some(position) => {
                if delete_word().is_prefix_of(right) {
                    match parse_number(trim(right.subrange(6, right.len() as int))) {
                        None => Err(InputError::DeleteCount),
                        Some(count) => Ok(EditView { position, insert: None, delete: Some(count) }),
                    }
                } else {
                    Ok(EditView { position, insert: Some(right), delete: None })
                }
            },
        }
    }
}

/// Leading white space ends where the first other character stands.
pub proof fn lemma_trim_start_at(text: Seq<char>, from: int)
    requires
        0 <= from <= text.len(),
        forall|j: int| 0 <= j < from ==> is_white_space(#[trigger] text[j]),
        from < text.len() ==> !is_white_space(text[from]),
    ensures
        trim_start(text) == text.subrange(from, text.len() as int),
    decreases from,
{
    if from == 0 {
        assert(text.subrange(0, text.len() as int) =~= text);
    } else {
        let rest = text.drop_first();
        assert forall|j: int| 0 <= j < from - 1 implies is_white_space(#[trigger] rest[j]) by {
            assert(rest[j] == text[j + 1]);
        }
        lemma_trim_start_at(rest, from - 1);
        assert(rest.subrange(from - 1, rest.len() as int) =~= text.subrange(
            from,
            text.len() as int,
        ));
    }
}

/// Trailing white space begins after the last other character.
pub proof fn lemma_trim_end_at(text: Seq<char>, to: int)
    requires
        0 <= to <= text.len(),
        forall|j: int| to <= j < text.len() ==> is_white_space(#[trigger] text[j]),
        0 < to ==> !is_white_space(text[to - 1]),
    ensures
        trim_end(text) == text.subrange(0, to),
    decreases text.len() - to,
{
    if to == text.len() {
        assert(text.subrange(0, text.len() as int) =~= text);
    } else {
        let rest = text.drop_last();
        lemma_trim_end_at(rest, to);
        assert(rest.subrange(0, to) =~= text.subrange(0, to));
    }
}

/// Reading on can only make a number larger.
pub proof fn lemma_decimal_value_grows(digits: Seq<char>, upto: int)
    requires
        0 <= upto <= digits.len(),
    ensures
        decimal_value(digits.take(upto)) <= decimal_value(digits),
    decreases digits.len() - upto,
{
    if upto == digits.len() {
        assert(digits.take(upto) =~= digits);
    } else {
        lemma_decimal_value_grows(digits.drop_last(), upto);
        assert(digits.drop_last().take(upto) =~= digits.take(upto));
    }
}

} // verus!
