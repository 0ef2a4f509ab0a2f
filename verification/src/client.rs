//! The client's side: reading an edit from a typed line, and how long to wait
//! before trying to connect again.

use crate::input::{
    decimal_value, delete_word, digits_of, is_digit, is_sole_comma, is_white_space,
    lemma_decimal_value_grows, lemma_trim_end_at, lemma_trim_start_at, parse_line, parse_number,
    trim, EditView, InputError,
};
use std::time::Duration;
use vstd::arithmetic::power2::{lemma2_to64, lemma_pow2_strictly_increases, lemma_pow2_unfold, pow2};
use vstd::prelude::*;

verus! {

/// An edit as the user asks for it: where, and what to insert or how many
/// bytes to delete. It carries no version yet.
#[derive(Debug, PartialEq)]
pub struct Edit {
    pub position: usize,
    pub insert: Option<String>,
    pub delete: Option<usize>,
}

impl View for Edit {
    type V = EditView;

    open spec fn view(&self) -> EditView {
        EditView {
            position: self.position as nat,
            insert: match self.insert {
                Some(text) => Some(text@),
                None => None,
            },
            delete: match self.delete {
                Some(count) => Some(count as nat),
                None => None,
            },
        }
    }
}

impl InputError {
    /// The text of [`InputError::message`].
    pub open spec fn message_text(self) -> Seq<char> {
        match self {
            InputError::Format => "Invalid input format. Use 'position,insert' or 'position,delete'"@,
            InputError::Position => "Invalid position. Please enter a number."@,
            InputError::DeleteCount => "Invalid delete count. Please enter a number."@,
        }
    }

    /// What the user is told.
    pub fn message(&self) -> (text: &'static str)
        ensures
            text@ == self.message_text(),
    {
        match self {
            InputError::Format => "Invalid input format. Use 'position,insert' or 'position,delete'",
            InputError::Position => "Invalid position. Please enter a number.",
            InputError::DeleteCount => "Invalid delete count. Please enter a number.",
        }
    }
}

/// Whether `c` is white space.
pub fn is_white_space_char(c: char) -> (yes: bool)
    ensures
        yes == is_white_space(c),
{
    let code = c as u32;
    (0x09 <= code && code <= 0x0d) || code == 0x20 || code == 0x85 || code == 0xa0 || code
        == 0x1680 || (0x2000 <= code && code <= 0x200a) || code == 0x2028 || code == 0x2029 || code
        == 0x202f || code == 0x205f || code == 0x3000
}

/// The characters of `text`, one by one.
fn chars_of(text: &str) -> (chars: Vec<char>)
    ensures
        chars@ == text@,
{
    let mut chars: Vec<char> = Vec::new();
    for c in it: text.chars()
        invariant
            chars@ == it.seq().take(it.index() as int),
            it.seq() == text@,
    {
        chars.push(c);
    }
    chars
}

/// Where the trimmed part of `chars[from..to]` begins and ends.
fn trim_range(chars: &Vec<char>, from: usize, to: usize) -> (range: (usize, usize))
    requires
        from <= to <= chars.len(),
    ensures
        from <= range.0 <= range.1 <= to,
        chars@.subrange(range.0 as int, range.1 as int) == trim(
            chars@.subrange(from as int, to as int),
        ),
{
    let mut lo = from;
    while lo < to && is_white_space_char(chars[lo])
        invariant
            from <= lo <= to <= chars.len(),
            forall|j: int| from <= j < lo ==> is_white_space(#[trigger] chars@[j]),
        decreases to - lo,
    {
        lo = lo + 1;
    }
    let mut hi = to;
    while hi > lo && is_white_space_char(chars[hi - 1])
        invariant
            lo <= hi <= to <= chars.len(),
            forall|j: int| hi <= j < to ==> is_white_space(#[trigger] chars@[j]),
        decreases hi,
    {
        hi = hi - 1;
    }
    proof {
        let whole = chars@.subrange(from as int, to as int);
        lemma_trim_start_at(whole, lo - from);
        let started = whole.subrange(lo - from, whole.len() as int);
        assert(started =~= chars@.subrange(lo as int, to as int));
        lemma_trim_end_at(started, hi - lo);
        assert(started.subrange(0, hi - lo) =~= chars@.subrange(lo as int, hi as int));
    }
    (lo, hi)
}

/// The first comma of `chars[from..to]`, or `to` where it holds none.
fn find_comma(chars: &Vec<char>, from: usize, to: usize) -> (at: usize)
    requires
        from <= to <= chars.len(),
    ensures
        from <= at <= to,
        forall|j: int| from <= j < at ==> #[trigger] chars@[j] != ',',
        at < to ==> chars@[at as int] == ',',
{
    let mut at = from;
    while at < to && chars[at] != ','
        invariant
            from <= at <= to <= chars.len(),
            forall|j: int| from <= j < at ==> #[trigger] chars@[j] != ',',
        decreases to - at,
    {
        at = at + 1;
    }
    at
}

/// The number written in `chars[from..to]`, if it is one.
fn parse_number_range(chars: &Vec<char>, from: usize, to: usize) -> (number: Option<usize>)
    requires
        from <= to <= chars.len(),
    ensures
        match number {
            Some(n) => parse_number(chars@.subrange(from as int, to as int)) == Some(n as nat),
            None => parse_number(chars@.subrange(from as int, to as int)) is None,
        },
{
    let start = if from < to && chars[from] == '+' {
        from + 1
    } else {
        from
    };
    let ghost digits = chars@.subrange(start as int, to as int);
    proof {
        assert(digits_of(chars@.subrange(from as int, to as int)) =~= digits);
    }
    if start == to {
        return None;
    }
    let mut value: usize = 0;
    let mut i = start;
    while i < to
        invariant
            from <= start <= i <= to <= chars.len(),
            start < to,
            digits == chars@.subrange(start as int, to as int),
            digits_of(chars@.subrange(from as int, to as int)) == digits,
            forall|j: int| 0 <= j < i - start ==> is_digit(#[trigger] digits[j]),
            value == decimal_value(digits.take(i - start)),
        decreases to - i,
    {
        let c: char = chars[i];
        let code = c as u32;
        proof {
            assert(digits[i - start] == c);
        }
        if code < 0x30 || code > 0x39 {
            return None;
        }
        let digit = (code - 0x30) as usize;
        proof {
            assert(is_digit(digits[i - start]));
            assert(digits.take(i + 1 - start).drop_last() =~= digits.take(i - start));
            assert(decimal_value(digits.take(i + 1 - start)) == value * 10 + digit);
            lemma_decimal_value_grows(digits, i + 1 - start);
        }
        let tenfold = match value.checked_mul(10) {
            Some(tenfold) => tenfold,
            None => {
                return None;
            },
        };
        value = match tenfold.checked_add(digit) {
            Some(sum) => sum,
            None => {
                return None;
            },
        };
        i = i + 1;
    }
    proof {
        assert(digits.take(to - start) =~= digits);
    }
    Some(value)
}

/// Whether `chars[from..to]` begins with the word `delete`.
fn begins_with_delete(chars: &Vec<char>, from: usize, to: usize) -> (yes: bool)
    requires
        from <= to <= chars.len(),
    ensures
        yes == delete_word().is_prefix_of(chars@.subrange(from as int, to as int)),
{
    let ghost rest = chars@.subrange(from as int, to as int);
    if to - from < 6 {
        return false;
    }
    let yes = chars[from] == 'd' && chars[from + 1] == 'e' && chars[from + 2] == 'l' && chars[from
        + 3] == 'e' && chars[from + 4] == 't' && chars[from + 5] == 'e';
    proof {
        if yes {
            assert(rest.subrange(0, 6) =~= delete_word());
        } else {
            if delete_word().is_prefix_of(rest) {
                assert(rest.subrange(0, 6) == delete_word());
                assert(rest.subrange(0, 6)[0] == rest[0]);
                assert(rest.subrange(0, 6)[1] == rest[1]);
                assert(rest.subrange(0, 6)[2] == rest[2]);
                assert(rest.subrange(0, 6)[3] == rest[3]);
                assert(rest.subrange(0, 6)[4] == rest[4]);
                assert(rest.subrange(0, 6)[5] == rest[5]);
            }
        }
    }
    yes
}

/// Where the only comma of `chars[from..to]` stands, if it holds exactly one.
fn sole_comma(chars: &Vec<char>, from: usize, to: usize) -> (found: Option<usize>)
    requires
        from <= to <= chars.len(),
    ensures
        match found {
            Some(at) => from <= at < to && is_sole_comma(
                chars@.subrange(from as int, to as int),
                at - from,
            ),
            None => forall|k: int| !is_sole_comma(chars@.subrange(from as int, to as int), k),
        },
{
    let ghost text = chars@.subrange(from as int, to as int);
    let at = find_comma(chars, from, to);
    if at == to {
        proof {
            assert forall|k: int| !is_sole_comma(text, k) by {
                if 0 <= k < text.len() {
                    assert(text[k] == chars@[from + k]);
                }
            }
        }
        return None;
    }
    let second = find_comma(chars, at + 1, to);
    if second < to {
        proof {
            assert(text[at - from] == ',');
            assert(text[second - from] == ',');
            assert forall|k: int| !is_sole_comma(text, k) by {
                if k == at - from {
                    assert(second - from != k);
                }
            }
        }
        return None;
    }
    proof {
        assert forall|j: int| 0 <= j < text.len() && j != at - from implies #[trigger] text[j]
            != ',' by {
            assert(text[j] == chars@[from + j]);
        }
    }
    Some(at)
}

/// Reads what stands after the comma, in `chars[from..to]`, once the position
/// is known.
fn parse_operation(input: &str, chars: &Vec<char>, from: usize, to: usize, position: usize) -> (result:
    Result<Edit, InputError>)
    requires
        chars@ == input@,
        from <= to <= chars.len(),
    ensures
        ({
            let right = chars@.subrange(from as int, to as int);
            if delete_word().is_prefix_of(right) {
                match parse_number(trim(right.subrange(6, right.len() as int))) {
                    None => result matches Err(found) && found == InputError::DeleteCount,
                    Some(count) => result matches Ok(parsed) && parsed@ == (EditView {
                        position: position as nat,
                        insert: None,
                        delete: Some(count),
                    }),
                }
            } else {
                result matches Ok(parsed) && parsed@ == (EditView {
                    position: position as nat,
                    insert: Some(right),
                    delete: None,
                })
            }
        }),
{
    let ghost right = chars@.subrange(from as int, to as int);
    if begins_with_delete(chars, from, to) {
        proof {
            assert(right.subrange(6, right.len() as int) =~= chars@.subrange(from + 6, to as int));
        }
        let (start, end) = trim_range(chars, from + 6, to);
        match parse_number_range(chars, start, end) {
            Some(count) => Ok(Edit { position, insert: None, delete: Some(count) }),
            None => Err(InputError::DeleteCount),
        }
    } else {
        let piece = input.substring_char(from, to).to_owned();
        Ok(Edit { position, insert: Some(piece), delete: None })
    }
}

/// Reads a line, with the kind of mistake where it holds one.
fn parse_typed(input: &str) -> (result: Result<Edit, InputError>)
    ensures
        match parse_line(input@) {
            Ok(edit) => result matches Ok(parsed) && parsed@ == edit,
            Err(why) => result matches Err(found) && found == why,
        },
{
    let chars = chars_of(input);
    proof {
        assert(chars@.subrange(0, chars.len() as int) =~= chars@);
    }
    let (lo, hi) = trim_range(&chars, 0, chars.len());
    let ghost text = chars@.subrange(lo as int, hi as int);
    let at = match sole_comma(&chars, lo, hi) {
        Some(at) => at,
        None => {
            return Err(InputError::Format);
        },
    };
    proof {
        let chosen = choose|k: int| is_sole_comma(text, k);
        assert(chosen == at - lo);
        assert(text.subrange(0, at - lo) =~= chars@.subrange(lo as int, at as int));
        assert(text.subrange(at - lo + 1, text.len() as int) =~= chars@.subrange(
            at + 1,
            hi as int,
        ));
    }
    match parse_number_range(&chars, lo, at) {
        Some(position) => parse_operation(input, &chars, at + 1, hi, position),
        None => Err(InputError::Position),
    }
}

/// Reads one line typed at the prompt.
///
/// Gives the edit that the line asks for, or the sentence that tells the user
/// what is wrong with the line: that it does not hold exactly one comma, that
/// the position is no number, or that the delete count is no number. A line
/// that cannot be read is never a reason to stop.
pub fn parse_user_input(input: &str) -> (result: Result<Edit, String>)
    ensures
        match parse_line(input@) {
            Ok(edit) => result matches Ok(parsed) && parsed@ == edit,
            Err(why) => result matches Err(message) && message@ == why.message_text(),
        },
{
    match parse_typed(input) {
        Ok(edit) => Ok(edit),
        Err(why) => Err(why.message().to_owned()),
    }
}

/// How often a failed connection is tried again before the client gives up.
pub const MAX_RETRIES: u32 = 5;

/// The `Duration` that `Duration::from_secs` makes of a number of seconds.
pub uninterp spec fn duration_of_secs(secs: u64) -> Duration;

/// `Duration::from_secs`: the duration of `secs` whole seconds. It depends on
/// `secs` alone and cannot fail.
pub assume_specification[ Duration::from_secs ](secs: u64) -> (delay: Duration)
    ensures
        delay == duration_of_secs(secs),
;

/// What to do once an attempt to connect has failed.
#[derive(Debug, PartialEq)]
pub enum RetryDecision {
    /// Wait for `delay`, then make retry number `attempt`.
    Retry { attempt: u32, delay: Duration },
    /// The bound is spent: starting up has failed.
    GiveUp,
}

/// Two to the power of `exponent`.
fn power_of_two(exponent: u32) -> (value: u64)
    requires
        exponent < 64,
    ensures
        value == pow2(exponent as nat),
{
    let mut value: u64 = 1;
    let mut done: u32 = 0;
    proof {
        lemma2_to64();
    }
    while done < exponent
        invariant
            done <= exponent < 64,
            value == pow2(done as nat),
        decreases exponent - done,
    {
        proof {
            lemma_pow2_unfold((done + 1) as nat);
            lemma_pow2_strictly_increases((done + 1) as nat, 64);
            lemma2_to64();
        }
        value = value * 2;
        done = done + 1;
    }
    value
}

/// How long to wait before retry number `retry_count`: two to the power of
/// `retry_count` seconds, so that the wait doubles from one retry to the
/// next. The count must stay below 64 for the seconds to fit their type.
pub fn calculate_retry_delay(retry_count: u32) -> (delay: Duration)
    requires
        retry_count < 64,
    ensures
        delay == duration_of_secs(pow2(retry_count as nat) as u64),
{
    Duration::from_secs(power_of_two(retry_count))
}

/// Decides what follows a failed attempt to connect, given how many retries
/// were made before it. While fewer than [`MAX_RETRIES`] were made, the next
/// one is made after its delay; after that the client gives up.
pub fn after_failed_attempt(retries_made: u32) -> (decision: RetryDecision)
    ensures
        retries_made < MAX_RETRIES ==> decision == (RetryDecision::Retry {
            attempt: (retries_made + 1) as u32,
            delay: duration_of_secs(pow2((retries_made + 1) as nat) as u64),
        }),
        retries_made >= MAX_RETRIES ==> decision == RetryDecision::GiveUp,
{
    if retries_made < MAX_RETRIES {
        let attempt = retries_made + 1;
        RetryDecision::Retry { attempt, delay: calculate_retry_delay(attempt) }
    } else {
        RetryDecision::GiveUp
    }
}

} // verus!
