//! Text: comparing it, cutting it and building it up.

use vstd::prelude::*;
use vstd::string::*;
use vstd::utf8::*;

use super::bytes::same_bytes;

verus! {

/// What a list of strings says.
pub open spec fn texts(strings: Seq<String>) -> Seq<Seq<char>> {
    Seq::new(strings.len(), |i: int| strings[i]@)
}

/// What a string says, if there is one.
pub open spec fn opt_text(string: Option<String>) -> Option<Seq<char>> {
    match string {
        Some(string) => Some(string@),
        None => None,
    }
}

/// Where `c` first is in `text`, or its length if it is nowhere.
pub open spec fn position(text: Seq<char>, c: char) -> int
    decreases text.len(),
{
    if text.len() == 0 || text[0] == c {
        0
    } else {
        1 + position(text.skip(1), c)
    }
}

/// Whether `text` ends the way `suffix` says.
pub open spec fn ends_with(text: Seq<char>, suffix: Seq<char>) -> bool {
    &&& suffix.len() <= text.len()
    &&& text.skip(text.len() - suffix.len()) == suffix
}

/// Whether `c` is blank: the name for what `char::is_whitespace` answers.
pub uninterp spec fn is_blank(c: char) -> bool;

/// How many of the characters that `text` opens with are blank.
pub open spec fn leading_blanks(text: Seq<char>) -> int
    decreases text.len(),
{
    if text.len() == 0 || !is_blank(text[0]) {
        0
    } else {
        1 + leading_blanks(text.skip(1))
    }
}

/// How many of the characters that `text` closes with are blank.
pub open spec fn trailing_blanks(text: Seq<char>) -> int
    decreases text.len(),
{
    if text.len() == 0 || !is_blank(text.last()) {
        0
    } else {
        1 + trailing_blanks(text.drop_last())
    }
}

/// `text` without the blanks at either end.
pub open spec fn trimmed(text: Seq<char>) -> Seq<char> {
    let rest = text.skip(leading_blanks(text));
    rest.take(rest.len() - trailing_blanks(rest))
}

/// `number` in decimal: its digits, the leading one first.
pub open spec fn digits(number: nat) -> Seq<char>
    decreases number,
{
    if number < 10 {
        seq![digit_char(number)]
    } else {
        digits(number / 10).push(digit_char(number % 10))
    }
}

/// The character for a digit.
pub open spec fn digit_char(digit: nat) -> char {
    (0x30 + digit) as char
}

/// The position is in the text, and nothing before it is what was looked for.
pub proof fn lemma_position(text: Seq<char>, c: char)
    ensures
        0 <= position(text, c) <= text.len(),
        forall|i: int| 0 <= i < position(text, c) ==> text[i] != c,
        position(text, c) < text.len() ==> text[position(text, c)] == c,
        position(text, c) < text.len() <==> text.contains(c),
    decreases text.len(),
{
    if text.len() > 0 && text[0] != c {
        let rest = text.skip(1);
        lemma_position(rest, c);
        assert forall|i: int| 0 <= i < position(text, c) implies text[i] != c by {
            if i > 0 {
                assert(text[i] == rest[i - 1]);
            }
        }
        if text.contains(c) {
            let i = text.index_of(c);
            assert(rest[i - 1] == c);
        }
    }
}

/// One place, found from both sides, is the position.
proof fn lemma_position_is(text: Seq<char>, c: char, at: int)
    requires
        0 <= at <= text.len(),
        forall|i: int| 0 <= i < at ==> text[i] != c,
        at < text.len() ==> text[at] == c,
    ensures
        position(text, c) == at,
{
    lemma_position(text, c);
}

/// Whether two texts say the same.
pub fn same_text(a: &str, b: &str) -> (same: bool)
    ensures
        same == (a@ == b@),
{
    let same = same_bytes(a.as_bytes(), b.as_bytes());
    proof {
        encode_utf8_decode_utf8(a@);
        encode_utf8_decode_utf8(b@);
    }
    same
}

/// Where `c` first is in `text`, counting characters, if it is there at all.
pub fn find_char(text: &str, c: char) -> (at: Option<usize>)
    ensures
        match at {
            Some(at) => at == position(text@, c) && at < text@.len(),
            None => !text@.contains(c),
        },
{
    let mut at: usize = 0;
    let len = text.unicode_len();
    for next in chars: text.chars()
        invariant
            chars.seq() == text@,
            at == chars.index(),
            len == text@.len(),
            forall|i: int| 0 <= i < at ==> text@[i] != c,
    {
        if next == c {
            proof {
                lemma_position_is(text@, c, at as int);
            }
            return Some(at);
        }
        at = at + 1;
    }
    None
}

/// Whether `c` is anywhere in `text`.
pub fn contains_char(text: &str, c: char) -> (found: bool)
    ensures
        found == text@.contains(c),
{
    proof {
        lemma_position(text@, c);
    }
    find_char(text, c).is_some()
}

/// `text` cut at the first `c`, which goes with neither half.
pub fn split_once<'a>(text: &'a str, c: char) -> (halves: Option<(&'a str, &'a str)>)
    ensures
        match halves {
            Some((before, after)) => {
                &&& text@.contains(c)
                &&& before@ == text@.take(position(text@, c))
                &&& after@ == text@.skip(position(text@, c) + 1)
            },
            None => !text@.contains(c),
        },
{
    proof {
        lemma_position(text@, c);
    }
    match find_char(text, c) {
        Some(at) => {
            let len = text.unicode_len();
            Some((text.substring_char(0, at), text.substring_char(at + 1, len)))
        },
        None => None,
    }
}

/// `text` without `suffix` at its end, if that is how it ends.
pub fn strip_suffix<'a>(text: &'a str, suffix: &str) -> (rest: Option<&'a str>)
    ensures
        match rest {
            Some(rest) => ends_with(text@, suffix@) && rest@ == text@.take(
                text@.len() - suffix@.len(),
            ),
            None => !ends_with(text@, suffix@),
        },
{
    let len = text.unicode_len();
    let cut = suffix.unicode_len();
    if cut > len {
        return None;
    }
    let end = text.substring_char(len - cut, len);
    assert(end@ == text@.skip(text@.len() - suffix@.len()));
    if same_text(end, suffix) {
        Some(text.substring_char(0, len - cut))
    } else {
        None
    }
}

/// Whether `c` is blank, by `char::is_whitespace`, whose documentation says
/// it answers by the character alone: whether it has the `White_Space`
/// property.
#[verifier::external_body]
fn is_blank_char(c: char) -> (blank: bool)
    ensures
        blank == is_blank(c),
{
    c.is_whitespace()
}

proof fn lemma_leading_is(text: Seq<char>, count: int)
    requires
        0 <= count <= text.len(),
        forall|i: int| 0 <= i < count ==> is_blank(text[i]),
        count < text.len() ==> !is_blank(text[count]),
    ensures
        leading_blanks(text) == count,
    decreases text.len(),
{
    if text.len() > 0 && is_blank(text[0]) {
        let rest = text.skip(1);
        assert forall|i: int| 0 <= i < count - 1 implies is_blank(rest[i]) by {
            assert(rest[i] == text[i + 1]);
        }
        lemma_leading_is(rest, count - 1);
    }
}

proof fn lemma_trailing_is(text: Seq<char>, count: int)
    requires
        0 <= count <= text.len(),
        forall|i: int| text.len() - count <= i < text.len() ==> is_blank(text[i]),
        count < text.len() ==> !is_blank(text[text.len() - count - 1]),
    ensures
        trailing_blanks(text) == count,
    decreases text.len(),
{
    if text.len() > 0 && is_blank(text.last()) {
        lemma_trailing_is(text.drop_last(), count - 1);
    }
}

/// `text` without the blanks at either end.
pub fn trim<'a>(text: &'a str) -> (rest: &'a str)
    ensures
        rest@ == trimmed(text@),
{
    let len = text.unicode_len();
    let mut start: usize = 0;
    while start < len && is_blank_char(text.get_char(start))
        invariant
            start <= len,
            len == text@.len(),
            forall|i: int| 0 <= i < start ==> is_blank(text@[i]),
        ensures
            start <= len,
            forall|i: int| 0 <= i < start ==> is_blank(text@[i]),
            start < len ==> !is_blank(text@[start as int]),
        decreases len - start,
    {
        start = start + 1;
    }
    let mut end: usize = len;
    while end > start && is_blank_char(text.get_char(end - 1))
        invariant
            start <= end <= len,
            len == text@.len(),
            forall|i: int| end <= i < len ==> is_blank(text@[i]),
        ensures
            start <= end <= len,
            forall|i: int| end <= i < len ==> is_blank(text@[i]),
            end > start ==> !is_blank(text@[end - 1]),
        decreases end,
    {
        end = end - 1;
    }
    proof {
        lemma_leading_is(text@, start as int);
        let rest = text@.skip(start as int);
        assert forall|i: int| rest.len() - (len - end) <= i < rest.len() implies is_blank(
            rest[i],
        ) by {
            assert(rest[i] == text@[i + start]);
        }
        lemma_trailing_is(rest, len - end);
        assert(rest.take(end - start) == text@.subrange(start as int, end as int));
    }
    text.substring_char(start, end)
}

/// `text` as a string of its own.
pub fn owned(text: &str) -> (string: String)
    ensures
        string@ == text@,
{
    let mut string = String::new();
    string.append(text);
    assert(string@ == text@);
    string
}

/// One character as text.
pub fn one_char(c: char) -> (string: String)
    ensures
        string@ == seq![c],
{
    let mut string = String::new();
    string.push(c);
    assert(string@ == seq![c]);
    string
}

/// The strings again, each of them said again.
pub fn copy_texts(strings: &Vec<String>) -> (copy: Vec<String>)
    ensures
        copy@ == strings@,
{
    let mut copy: Vec<String> = Vec::new();
    let mut i: usize = 0;
    while i < strings.len()
        invariant
            i <= strings@.len(),
            copy@ == strings@.take(i as int),
        decreases strings@.len() - i,
    {
        copy.push(strings[i].clone());
        i = i + 1;
    }
    assert(strings@.take(i as int) == strings@);
    copy
}

/// The string again, if there is one.
pub fn copy_text(string: &Option<String>) -> (copy: Option<String>)
    ensures
        copy == *string,
{
    match string {
        Some(string) => Some(string.clone()),
        None => None,
    }
}

/// The character for the last digit of `number`.
fn last_digit(number: usize) -> (c: char)
    ensures
        c == digit_char((number % 10) as nat),
{
    let digit: u8 = (number % 10) as u8;
    (48 + digit) as char
}

/// `number` in decimal.
pub fn decimal(number: usize) -> (text: String)
    ensures
        text@ == digits(number as nat),
    decreases number,
{
    if number < 10 {
        let c = last_digit(number);
        one_char(c)
    } else {
        let mut text = decimal(number / 10);
        text.push(last_digit(number));
        text
    }
}

proof fn lemma_leading_blanks(text: Seq<char>)
    ensures
        0 <= leading_blanks(text) <= text.len(),
        forall|i: int| 0 <= i < leading_blanks(text) ==> is_blank(#[trigger] text[i]),
        leading_blanks(text) < text.len() ==> !is_blank(text[leading_blanks(text)]),
    decreases text.len(),
{
    if text.len() > 0 && is_blank(text[0]) {
        let rest = text.skip(1);
        lemma_leading_blanks(rest);
        assert forall|i: int| 0 <= i < leading_blanks(text) implies is_blank(#[trigger] text[i]) by {
            if i > 0 {
                assert(text[i] == rest[i - 1]);
            }
        }
    }
}

proof fn lemma_trailing_blanks(text: Seq<char>)
    ensures
        0 <= trailing_blanks(text) <= text.len(),
        forall|i: int|
            text.len() - trailing_blanks(text) <= i < text.len() ==> is_blank(#[trigger] text[i]),
        trailing_blanks(text) < text.len() ==> !is_blank(
            text[text.len() - trailing_blanks(text) - 1],
        ),
    decreases text.len(),
{
    if text.len() > 0 && is_blank(text.last()) {
        let rest = text.drop_last();
        lemma_trailing_blanks(rest);
        assert forall|i: int| text.len() - trailing_blanks(text) <= i < text.len() implies is_blank(
            #[trigger] text[i],
        ) by {
            if i < text.len() - 1 {
                assert(text[i] == rest[i]);
            }
        }
    }
}

/// Trimming takes off blanks and nothing else: what is left is a stretch of
/// the text that neither begins nor ends with one, and all that is around it
/// is blank.
pub proof fn trimming_takes_only_blanks(text: Seq<char>)
    ensures
        exists|start: int, end: int|
            0 <= start <= end <= text.len() && trimmed(text) == #[trigger] text.subrange(start, end)
                && (forall|i: int|
                0 <= i < start || end <= i < text.len() ==> is_blank(#[trigger] text[i])),
        trimmed(text).len() > 0 ==> !is_blank(trimmed(text)[0]) && !is_blank(trimmed(text).last()),
{
    let start = leading_blanks(text);
    let rest = text.skip(start);
    lemma_leading_blanks(text);
    lemma_trailing_blanks(rest);
    let end = text.len() - trailing_blanks(rest);
    assert(trimmed(text) =~= text.subrange(start, end));
    assert forall|i: int| 0 <= i < start || end <= i < text.len() implies is_blank(
        #[trigger] text[i],
    ) by {
        if i >= end && i >= start {
            assert(text[i] == rest[i - start]);
        }
    }
    if trimmed(text).len() > 0 {
        assert(trimmed(text)[0] == text[start]);
        assert(trimmed(text).last() == rest[rest.len() - trailing_blanks(rest) - 1]);
    }
}

} // verus!
