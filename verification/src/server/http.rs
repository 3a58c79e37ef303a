//! What is said over HTTP: the revision a client has, and what an answer comes
//! to.

use super::state::{ServerLogResult, ServerUnitResult};
use crate::app::AppDispatch;
use crate::error::AppError;
use crate::util::text;
use crate::util::text::one_char;
use vstd::prelude::*;
use vstd::string::*;

verus! {

/// The character a revision is quoted with.
pub const QUOTE: char = '"';

/// Everything went as asked.
pub const STATUS_OK: u16 = 200;

/// What was asked for is noted, and will be done.
pub const STATUS_ACCEPTED: u16 = 202;

/// What the client has is current.
pub const STATUS_NOT_MODIFIED: u16 = 304;

/// Nothing is declared under that key.
pub const STATUS_NOT_FOUND: u16 = 404;

/// The answer could not be written.
pub const STATUS_INTERNAL_SERVER_ERROR: u16 = 500;

/// How many of the characters that `text` opens with are quotes.
pub open spec fn leading_quotes(text: Seq<char>) -> int
    decreases text.len(),
{
    if text.len() == 0 || text[0] != QUOTE {
        0
    } else {
        1 + leading_quotes(text.skip(1))
    }
}

/// How many of the characters that `text` closes with are quotes.
pub open spec fn trailing_quotes(text: Seq<char>) -> int
    decreases text.len(),
{
    if text.len() == 0 || text.last() != QUOTE {
        0
    } else {
        1 + trailing_quotes(text.drop_last())
    }
}

/// `text` without the quotes at either end.
pub open spec fn unquoted(text: Seq<char>) -> Seq<char> {
    let rest = text.skip(leading_quotes(text));
    rest.take(rest.len() - trailing_quotes(rest))
}

/// What a digit is worth.
pub open spec fn is_digit(c: char) -> bool {
    '0' <= c <= '9'
}

/// The number some digits come to.
pub open spec fn number(digits: Seq<char>) -> int
    decreases digits.len(),
{
    if digits.len() == 0 {
        0
    } else {
        number(digits.drop_last()) * 10 + (digits.last() as int - '0' as int)
    }
}

/// Text without the sign a number may open with.
pub open spec fn unsigned(text: Seq<char>) -> Seq<char> {
    if text.len() > 0 && text[0] == '+' {
        text.skip(1)
    } else {
        text
    }
}

/// The number a text writes out, if it writes out one there is room for:
/// digits and nothing else, after a plus sign if it likes.
pub open spec fn read_number(text: Seq<char>) -> Option<u64> {
    let digits = unsigned(text);
    if digits.len() > 0 && (forall|i: int|
        0 <= i < digits.len() ==> is_digit(#[trigger] digits[i])) && number(digits) <= u64::MAX {
        Some(number(digits) as u64)
    } else {
        None
    }
}

proof fn lemma_leading_quotes(text: Seq<char>, count: int)
    requires
        0 <= count <= text.len(),
        forall|i: int| 0 <= i < count ==> text[i] == QUOTE,
        count < text.len() ==> text[count] != QUOTE,
    ensures
        leading_quotes(text) == count,
    decreases text.len(),
{
    if count > 0 {
        let rest = text.skip(1);
        assert forall|i: int| 0 <= i < count - 1 implies rest[i] == QUOTE by {
            assert(rest[i] == text[i + 1]);
        }
        lemma_leading_quotes(rest, count - 1);
    }
}

proof fn lemma_trailing_quotes(text: Seq<char>, count: int)
    requires
        0 <= count <= text.len(),
        forall|i: int| text.len() - count <= i < text.len() ==> text[i] == QUOTE,
        count < text.len() ==> text[text.len() - count - 1] != QUOTE,
    ensures
        trailing_quotes(text) == count,
    decreases text.len(),
{
    if count > 0 {
        lemma_trailing_quotes(text.drop_last(), count - 1);
    }
}

/// `text` without the quotes at either end.
pub fn unquote<'a>(text: &'a str) -> (rest: &'a str)
    ensures
        rest@ == unquoted(text@),
{
    let len = text.unicode_len();
    let mut start: usize = 0;
    while start < len && text.get_char(start) == QUOTE
        invariant
            start <= len,
            len == text@.len(),
            forall|i: int| 0 <= i < start ==> text@[i] == QUOTE,
        ensures
            start <= len,
            forall|i: int| 0 <= i < start ==> text@[i] == QUOTE,
            start < len ==> text@[start as int] != QUOTE,
        decreases len - start,
    {
        start = start + 1;
    }
    let mut end: usize = len;
    while end > start && text.get_char(end - 1) == QUOTE
        invariant
            start <= end <= len,
            len == text@.len(),
            forall|i: int| end <= i < len ==> text@[i] == QUOTE,
        ensures
            start <= end <= len,
            forall|i: int| end <= i < len ==> text@[i] == QUOTE,
            end > start ==> text@[end - 1] != QUOTE,
        decreases end,
    {
        end = end - 1;
    }
    proof {
        lemma_leading_quotes(text@, start as int);
        let rest = text@.skip(start as int);
        assert forall|i: int| rest.len() - (len - end) <= i < rest.len() implies rest[i]
            == QUOTE by {
            assert(rest[i] == text@[i + start]);
        }
        lemma_trailing_quotes(rest, len - end);
        assert(rest.take(end - start) == text@.subrange(start as int, end as int));
    }
    text.substring_char(start, end)
}

proof fn lemma_number_grows(digits: Seq<char>, n: int)
    requires
        0 <= n <= digits.len(),
        forall|i: int| 0 <= i < digits.len() ==> is_digit(#[trigger] digits[i]),
    ensures
        0 <= number(digits.take(n)) <= number(digits),
    decreases digits.len(),
{
    if n == digits.len() {
        assert(digits.take(n) =~= digits);
        if digits.len() > 0 {
            let rest = digits.drop_last();
            assert forall|i: int| 0 <= i < rest.len() implies is_digit(#[trigger] rest[i]) by {
                assert(rest[i] == digits[i]);
            }
            lemma_number_grows(rest, rest.len() as int);
            assert(rest.take(rest.len() as int) =~= rest);
            assert(is_digit(digits[digits.len() - 1]));
        }
    } else {
        let rest = digits.drop_last();
        assert forall|i: int| 0 <= i < rest.len() implies is_digit(#[trigger] rest[i]) by {
            assert(rest[i] == digits[i]);
        }
        lemma_number_grows(rest, n);
        assert(rest.take(n) =~= digits.take(n));
        assert(is_digit(digits[digits.len() - 1]));
    }
}

/// The number a text writes out, if it writes out one there is room for.
pub fn parse_number(text: &str) -> (value: Option<u64>)
    ensures
        value == read_number(text@),
{
    let len = text.unicode_len();
    if len == 0 {
        return None;
    }
    let digits = if text.get_char(0) == '+' {
        text.substring_char(1, len)
    } else {
        text
    };
    assert(text@.subrange(1, len as int) =~= text@.skip(1));
    let ghost all = digits@;
    if digits.unicode_len() == 0 {
        return None;
    }
    let mut value: u64 = 0;
    let mut at: usize = 0;
    for c in chars: digits.chars()
        invariant
            chars.seq() == all,
            all == digits@,
            all == unsigned(text@),
            at == chars.index(),
            all.len() > 0,
            all.len() <= usize::MAX,
            forall|i: int| 0 <= i < at ==> is_digit(#[trigger] all[i]),
            value == number(all.take(at as int)),
    {
        if !('0' <= c && c <= '9') {
            assert(!is_digit(all[at as int]));
            return None;
        }
        let digit: u64 = (c as u64) - 48;
        let ghost next = all.take(at + 1);
        proof {
            assert(next.drop_last() =~= all.take(at as int));
            assert(number(next) == value * 10 + digit);
        }
        if value > u64::MAX / 10 || digit > u64::MAX - value * 10 {
            proof {
                if forall|i: int| 0 <= i < all.len() ==> is_digit(#[trigger] all[i]) {
                    lemma_number_grows(all, at + 1);
                    assert(value * 10 + digit > u64::MAX);
                }
            }
            return None;
        }
        value = value * 10 + digit;
        at = at + 1;
    }
    assert(all.take(at as int) =~= all);
    Some(value)
}

/// The revision a client says it already has, as its header writes it.
///
/// One reading of the header for every route that carries one: two copies of
/// this is two chances for a quoted number to be read one way here and another
/// way there, and the answer to that mismatch is a client that is never told
/// that it is current.
pub fn drawn_revision(header: &str) -> (revision: Option<u64>)
    ensures
        revision == read_number(unquoted(header@)),
{
    parse_number(unquote(header))
}

/// `number` in decimal.
pub fn decimal(number: u64) -> (text: String)
    ensures
        text@ == text::digits(number as nat),
    decreases number,
{
    let digit: u8 = (number % 10) as u8;
    let c = (48 + digit) as char;
    if number < 10 {
        one_char(c)
    } else {
        let mut text = decimal(number / 10);
        text.push(c);
        text
    }
}

/// A revision as an answer carries it: quoted.
pub open spec fn tagged(revision: u64) -> Seq<char> {
    seq![QUOTE] + text::digits(revision as nat) + seq![QUOTE]
}

/// A revision as an answer carries it.
pub fn etag(revision: u64) -> (tag: String)
    ensures
        tag@ == tagged(revision),
{
    let mut tag = one_char(QUOTE);
    tag.append(decimal(revision).as_str());
    tag.push(QUOTE);
    assert(tag@ =~= tagged(revision));
    tag
}

proof fn lemma_digits(n: nat)
    ensures
        text::digits(n).len() > 0,
        number(text::digits(n)) == n,
        forall|i: int|
            0 <= i < text::digits(n).len() ==> is_digit(#[trigger] text::digits(n)[i]),
    decreases n,
{
    let digits = text::digits(n);
    if n < 10 {
        assert(digits.drop_last() =~= Seq::<char>::empty());
        assert(number(digits.drop_last()) == 0);
    } else {
        lemma_digits(n / 10);
        assert(digits.drop_last() =~= text::digits(n / 10));
        assert forall|i: int| 0 <= i < digits.len() implies is_digit(#[trigger] digits[i]) by {
            if i < digits.len() - 1 {
                assert(digits[i] == text::digits(n / 10)[i]);
            }
        }
    }
}

/// The revision an answer carries is the one read back from it, whichever it
/// is.
pub proof fn a_revision_survives_the_round_trip(revision: u64)
    ensures
        read_number(unquoted(tagged(revision))) == Some(revision),
{
    let digits = text::digits(revision as nat);
    let tag = tagged(revision);
    lemma_digits(revision as nat);
    assert(is_digit(digits[0]));
    assert(is_digit(digits[digits.len() - 1]));
    assert(tag[1] == digits[0]);
    lemma_leading_quotes(tag, 1);
    let rest = tag.skip(1);
    assert(rest.last() == QUOTE);
    assert(rest[rest.len() - 2] == digits[digits.len() - 1]);
    lemma_trailing_quotes(rest, 1);
    assert(unquoted(tag) =~= digits);
}

/// What a request for the rows comes to, where `written` says whether the
/// answer could be.
pub fn units_status(answer: ServerUnitResult, written: bool) -> (status: u16)
    ensures
        status == match answer {
            ServerUnitResult::NotModified => STATUS_NOT_MODIFIED,
            ServerUnitResult::Read { .. } => if written {
                STATUS_OK
            } else {
                STATUS_INTERNAL_SERVER_ERROR
            },
        },
{
    match answer {
        ServerUnitResult::NotModified => STATUS_NOT_MODIFIED,
        ServerUnitResult::Read { .. } => if written {
            STATUS_OK
        } else {
            STATUS_INTERNAL_SERVER_ERROR
        },
    }
}

/// What a request for a log comes to, where `written` says whether the answer
/// could be.
pub fn log_status(answer: ServerLogResult, written: bool) -> (status: u16)
    ensures
        status == match answer {
            ServerLogResult::NotFound => STATUS_NOT_FOUND,
            ServerLogResult::NotModified => STATUS_NOT_MODIFIED,
            ServerLogResult::Read(_) => if written {
                STATUS_OK
            } else {
                STATUS_INTERNAL_SERVER_ERROR
            },
        },
{
    match answer {
        ServerLogResult::NotFound => STATUS_NOT_FOUND,
        ServerLogResult::NotModified => STATUS_NOT_MODIFIED,
        ServerLogResult::Read(_) => if written {
            STATUS_OK
        } else {
            STATUS_INTERNAL_SERVER_ERROR
        },
    }
}

/// What a command comes to: accepted, and not done — the session records what
/// is wanted and a task performs it, so by the time this answers nothing has
/// started yet. One for a unit that is not there is not found.
pub fn dispatch_status(done: Result<AppDispatch, AppError>) -> (status: u16)
    ensures
        status == if done is Ok {
            STATUS_ACCEPTED
        } else {
            STATUS_NOT_FOUND
        },
{
    match done {
        Ok(_) => STATUS_ACCEPTED,
        Err(_) => STATUS_NOT_FOUND,
    }
}

/// A number is read digit by digit, each one worth ten times less than the one
/// before it; nothing but digits is one, save for a plus sign in front, and
/// nothing is if there is no digit or no room.
pub proof fn a_number_is_its_digits(digits: Seq<char>, last: char)
    ensures
        read_number(Seq::empty()) is None,
        '0' <= last <= '9' ==> read_number(seq![last]) == Some((last as int - '0' as int) as u64),
        read_number(digits) matches Some(value) ==> digits[0] != '+' && '0' <= last <= '9' ==> (
        if value * 10 + (last as int - '0' as int) <= u64::MAX {
            read_number(digits.push(last)) == Some(
                (value * 10 + (last as int - '0' as int)) as u64,
            )
        } else {
            read_number(digits.push(last)) is None
        }),
        digits.len() > 0 && !('0' <= last <= '9') ==> read_number(digits.push(last)) is None,
        digits.len() > 0 && digits[0] != '+' ==> read_number(seq!['+'] + digits) == read_number(
            digits,
        ),
{
    let one = seq![last];
    assert(one.drop_last() =~= Seq::empty());
    assert(number(one.drop_last()) == 0);
    if '0' <= last <= '9' {
        assert(unsigned(one) == one);
        assert(forall|i: int| 0 <= i < one.len() ==> is_digit(#[trigger] one[i]));
    }
    let more = digits.push(last);
    assert(more.drop_last() =~= digits);
    if digits.len() > 0 {
        let rest = unsigned(more);
        assert(rest.last() == last);
        if !('0' <= last <= '9') {
            assert(!is_digit(rest[rest.len() - 1]));
        }
        if digits[0] != '+' {
            assert(more[0] == digits[0]);
            assert(unsigned(more) == more);
            if read_number(digits) is Some && '0' <= last <= '9' {
                assert forall|i: int| 0 <= i < more.len() implies is_digit(#[trigger] more[i]) by {
                    if i < digits.len() {
                        assert(more[i] == digits[i]);
                    }
                }
                assert(unsigned(digits) == digits);
                lemma_number_grows(digits, digits.len() as int);
                assert(digits.take(digits.len() as int) =~= digits);
                assert(number(more) == number(digits) * 10 + (last as int - '0' as int));
            }
            let signed = seq!['+'] + digits;
            assert(signed[0] == '+');
            assert(signed.skip(1) =~= digits);
        }
    }
}

/// A revision is read without the quotes around it, however many there are at
/// either end, and as it stands where there are none.
pub proof fn a_revision_is_read_without_its_quotes(text: Seq<char>)
    requires
        text.len() > 0,
        text[0] != '"',
        text.last() != '"',
    ensures
        unquoted(text) == text,
        unquoted(seq!['"'] + text + seq!['"']) == text,
        unquoted(seq!['"'] + text) == text,
        unquoted(text + seq!['"']) == text,
{
    lemma_leading_quotes(text, 0);
    assert(text.skip(0) =~= text);
    lemma_trailing_quotes(text, 0);
    assert(unquoted(text) =~= text);
    let both = seq!['"'] + text + seq!['"'];
    assert(both[1] == text[0]);
    lemma_leading_quotes(both, 1);
    let rest = both.skip(1);
    assert(rest.last() == '"');
    assert(rest[rest.len() - 2] == text.last());
    lemma_trailing_quotes(rest, 1);
    assert(unquoted(both) =~= text);
    let front = seq!['"'] + text;
    assert(front[1] == text[0]);
    lemma_leading_quotes(front, 1);
    assert(front.skip(1) =~= text);
    let back = text + seq!['"'];
    assert(back[0] == text[0]);
    lemma_leading_quotes(back, 0);
    assert(back.skip(0) =~= back);
    assert(back[back.len() - 2] == text.last());
    lemma_trailing_quotes(back, 1);
    assert(unquoted(back) =~= text);
}

} // verus!
