//! Bytes that are text: one UTF-8 character at a time.

use vstd::prelude::*;
use vstd::string::*;
use vstd::utf8::*;

verus! {

/// The longest a single UTF-8 character can be.
pub const UTF8_MAX_WIDTH: usize = 4;

/// What a byte that cannot be decoded is stored as: U+FFFD, in UTF-8.
pub open spec fn replacement() -> Seq<u8> {
    seq![0xefu8, 0xbfu8, 0xbdu8]
}

/// Whether `bytes` is the head of one character, cut short: some bytes after
/// it would make the two together exactly one.
pub open spec fn is_partial_scalar(bytes: Seq<u8>) -> bool {
    &&& bytes.len() > 0
    &&& exists|tail: Seq<u8>|
        tail.len() > 0 && #[trigger] is_one_scalar(bytes + tail)
}

/// Whether `bytes` is exactly one character.
pub open spec fn is_one_scalar(bytes: Seq<u8>) -> bool {
    &&& valid_first_scalar(bytes)
    &&& length_of_first_scalar(bytes) == bytes.len()
}

/// How many bytes the first step of a lossy decode takes.
#[verifier::opaque]
pub open spec fn unit_width(bytes: Seq<u8>) -> int {
    if valid_first_scalar(bytes) {
        length_of_first_scalar(bytes)
    } else {
        1
    }
}

/// What the first step of a lossy decode stores.
#[verifier::opaque]
pub open spec fn unit_text(bytes: Seq<u8>) -> Seq<u8> {
    if valid_first_scalar(bytes) {
        take_first_scalar(bytes)
    } else {
        replacement()
    }
}

/// `bytes` with every byte that is part of no character replaced.
pub open spec fn lossy(bytes: Seq<u8>) -> Seq<u8>
    decreases bytes.len(),
{
    if bytes.len() == 0 {
        Seq::empty()
    } else {
        proof {
            lemma_unit(bytes);
        }
        unit_text(bytes) + lossy(bytes.skip(unit_width(bytes)))
    }
}

/// The range the second byte of a character has to fall in, given the first.
spec fn second_in_range(lead: u8, second: u8) -> bool {
    &&& (lead == 0xe0 ==> 0xa0 <= second)
    &&& (lead == 0xed ==> second <= 0x9f)
    &&& (lead == 0xf0 ==> 0x90 <= second)
    &&& (lead == 0xf4 ==> second <= 0x8f)
    &&& 0x80 <= second <= 0xbf
}

/// How many bytes the character led by `byte` needs, or 0 if it cannot lead
/// one.
pub open spec fn lead_width(byte: u8) -> int {
    if byte <= 0x7f {
        1
    } else if 0xc2 <= byte <= 0xdf {
        2
    } else if 0xe0 <= byte <= 0xef {
        3
    } else if 0xf0 <= byte <= 0xf4 {
        4
    } else {
        0
    }
}

proof fn lemma_width_2(a: u8, b: u8)
    by (bit_vector)
    requires
        0xc0 <= a <= 0xdf,
        0x80 <= b <= 0xbf,
    ensures
        ((((a & 0x1F) as u32) << 6) | ((b & 0x3f) as u32)) >= 0x80 <==> a >= 0xc2,
        ((((a & 0x1F) as u32) << 6) | ((b & 0x3f) as u32)) < 0xd800,
{
}

proof fn lemma_width_3(a: u8, b: u8, c: u8)
    by (bit_vector)
    requires
        0xe0 <= a <= 0xef,
        0x80 <= b <= 0xbf,
        0x80 <= c <= 0xbf,
    ensures
        ((((a & 0x0F) as u32) << 12) | (((b & 0x3f) as u32) << 6) | ((c & 0x3f) as u32)) >= 0x800
            <==> (a != 0xe0 || b >= 0xa0),
        (0xd800 <= ((((a & 0x0F) as u32) << 12) | (((b & 0x3f) as u32) << 6) | ((c & 0x3f)
            as u32)) && ((((a & 0x0F) as u32) << 12) | (((b & 0x3f) as u32) << 6) | ((c & 0x3f)
            as u32)) <= 0xdfff) <==> (a == 0xed && b >= 0xa0),
{
}

proof fn lemma_width_4(a: u8, b: u8, c: u8, d: u8)
    by (bit_vector)
    requires
        0xf0 <= a <= 0xf7,
        0x80 <= b <= 0xbf,
        0x80 <= c <= 0xbf,
        0x80 <= d <= 0xbf,
    ensures
        ((((a & 0x07) as u32) << 18) | (((b & 0x3f) as u32) << 12) | (((c & 0x3f) as u32) << 6) | (
        (d & 0x3f) as u32)) >= 0x10000 <==> (a != 0xf0 || b >= 0x90),
        ((((a & 0x07) as u32) << 18) | (((b & 0x3f) as u32) << 12) | (((c & 0x3f) as u32) << 6) | (
        (d & 0x3f) as u32)) <= 0x10ffff <==> (a < 0xf4 || (a == 0xf4 && b <= 0x8f)),
{
}

/// A character in byte ranges: the lead says the width, the second byte falls
/// where that lead allows, and the rest are continuation bytes.
proof fn lemma_scalar_ranges(bytes: Seq<u8>)
    requires
        bytes.len() > 0,
    ensures
        valid_first_scalar(bytes) <==> {
            let width = lead_width(bytes[0]);
            &&& 0 < width <= bytes.len()
            &&& (width > 1 ==> second_in_range(bytes[0], bytes[1]))
            &&& (width > 2 ==> is_continuation_byte(bytes[2]))
            &&& (width > 3 ==> is_continuation_byte(bytes[3]))
        },
        valid_first_scalar(bytes) ==> length_of_first_scalar(bytes) == lead_width(bytes[0]),
{
    let a = bytes[0];
    if a <= 0x7f {
        assert(((a & 0x7F) as u32) < 0xd800) by (bit_vector)
            requires
                a <= 0x7f,
        ;
    } else if is_leading_byte_width_2(a) && bytes.len() >= 2 && is_continuation_byte(bytes[1]) {
        lemma_width_2(a, bytes[1]);
    } else if is_leading_byte_width_3(a) && bytes.len() >= 3 && is_continuation_byte(bytes[1])
        && is_continuation_byte(bytes[2]) {
        lemma_width_3(a, bytes[1], bytes[2]);
    } else if is_leading_byte_width_4(a) && bytes.len() >= 4 && is_continuation_byte(bytes[1])
        && is_continuation_byte(bytes[2]) && is_continuation_byte(bytes[3]) {
        lemma_width_4(a, bytes[1], bytes[2], bytes[3]);
    }
}

/// How many bytes the character led by `byte` needs, or 0 if it cannot lead
/// one.
///
/// Only the lead byte is read, so a few illegal encodings slip through —
/// overlong forms, surrogates, anything past U+10FFFF. The full sequence is
/// validated before it is stored.
pub fn utf8_width(byte: u8) -> (width: usize)
    ensures
        width == lead_width(byte),
{
    if byte <= 0x7f {
        1
    } else if byte < 0xc2 {
        0
    } else if byte <= 0xdf {
        2
    } else if byte <= 0xef {
        3
    } else if byte <= 0xf4 {
        4
    } else {
        0
    }
}

fn is_continuation(byte: u8) -> (result: bool)
    ensures
        result == is_continuation_byte(byte),
{
    0x80 <= byte && byte <= 0xbf
}

fn is_second(lead: u8, second: u8) -> (result: bool)
    ensures
        result == second_in_range(lead, second),
{
    is_continuation(second) && (lead != 0xe0 || second >= 0xa0) && (lead != 0xed || second <= 0x9f)
        && (lead != 0xf0 || second >= 0x90) && (lead != 0xf4 || second <= 0x8f)
}

/// How many bytes the character `bytes` starts with takes, or 0 if it does
/// not start with one.
pub fn scalar_width(bytes: &[u8]) -> (width: usize)
    ensures
        width > 0 <==> bytes@.len() > 0 && valid_first_scalar(bytes@),
        width > 0 ==> width == length_of_first_scalar(bytes@),
{
    if bytes.len() == 0 {
        return 0;
    }
    proof {
        lemma_scalar_ranges(bytes@);
    }
    let width = utf8_width(bytes[0]);
    if width == 0 || width > bytes.len() {
        return 0;
    }
    if width > 1 && !is_second(bytes[0], bytes[1]) {
        return 0;
    }
    if width > 2 && !is_continuation(bytes[2]) {
        return 0;
    }
    if width > 3 && !is_continuation(bytes[3]) {
        return 0;
    }
    width
}

/// Bytes that finish a character whose first bytes are `bytes`.
spec fn finish(bytes: Seq<u8>) -> Seq<u8> {
    let width = lead_width(bytes[0]);
    let second: u8 = if bytes[0] == 0xe0 {
        0xa0
    } else if bytes[0] == 0xf0 {
        0x90
    } else {
        0x80
    };
    Seq::new(
        (width - bytes.len()) as nat,
        |i: int| if i + bytes.len() == 1 { second } else { 0x80u8 },
    )
}

/// Whether `bytes` is a valid but unfinished character, so more input could
/// still complete it.
pub fn is_partial(bytes: &[u8]) -> (result: bool)
    ensures
        result == is_partial_scalar(bytes@),
{
    let n = bytes.len();
    if n == 0 {
        return false;
    }
    let width = utf8_width(bytes[0]);
    let result = n < width && (n < 2 || is_second(bytes[0], bytes[1])) && (n < 3
        || is_continuation(bytes[2]));
    proof {
        if result {
            let tail = finish(bytes@);
            lemma_scalar_ranges(bytes@ + tail);
            assert(is_one_scalar(bytes@ + tail));
        } else {
            assert forall|tail: Seq<u8>| tail.len() > 0 implies !#[trigger] is_one_scalar(
                bytes@ + tail,
            ) by {
                lemma_scalar_ranges(bytes@ + tail);
            }
        }
    }
    result
}

/// `bytes` as text.
///
/// Calls `core::str::from_utf8`, which its documentation says succeeds on
/// exactly the valid UTF-8, handing back those same bytes as text.
#[verifier::external_body]
pub(crate) fn utf8_str(bytes: &[u8]) -> (text: &str)
    requires
        valid_utf8(bytes@),
    ensures
        text.spec_bytes() == bytes@,
{
    core::str::from_utf8(bytes).unwrap()
}

/// A newline is no part of another character: bytes that end in one, and do
/// not open with it, are no character cut short, and the first step of a decode
/// stops short of it.
pub proof fn lemma_newline_stands_alone(bytes: Seq<u8>)
    requires
        bytes.len() > 0,
        bytes.last() == 0x0a,
        bytes[0] != 0x0a,
    ensures
        !is_partial_scalar(bytes),
        unit_width(bytes) < bytes.len(),
{
    reveal(unit_width);
    lemma_scalar_ranges(bytes);
    if is_partial_scalar(bytes) {
        let tail = choose|tail: Seq<u8>|
            tail.len() > 0 && #[trigger] is_one_scalar(bytes + tail);
        let whole = bytes + tail;
        lemma_scalar_ranges(whole);
        assert(whole[bytes.len() - 1] == 0x0a);
    }
}

/// What is a character's start in a text still is once more text follows.
pub proof fn lemma_boundary_stays(text: Seq<u8>, more: Seq<u8>, at: int)
    requires
        valid_utf8(text),
        valid_utf8(more),
        is_char_boundary(text, at),
        0 <= at <= text.len(),
    ensures
        is_char_boundary(text + more, at),
{
    let whole = text + more;
    valid_utf8_concat(text, more);
    if at < text.len() {
        is_char_boundary_iff_not_is_continuation_byte(text, at);
        is_char_boundary_iff_not_is_continuation_byte(whole, at);
        assert(whole[at] == text[at]);
    } else if more.len() > 0 {
        is_char_boundary_start_end_of_seq(more);
        is_char_boundary_iff_not_is_continuation_byte(more, 0);
        is_char_boundary_iff_not_is_continuation_byte(whole, at);
        assert(whole[at] == more[0]);
    } else {
        is_char_boundary_start_end_of_seq(whole);
    }
}

/// A character that stands whole in `bytes` stands whole whatever follows it.
pub proof fn lemma_scalar_extends(bytes: Seq<u8>, more: Seq<u8>)
    requires
        bytes.len() > 0,
        valid_first_scalar(bytes),
    ensures
        valid_first_scalar(bytes + more),
        length_of_first_scalar(bytes + more) == length_of_first_scalar(bytes),
        take_first_scalar(bytes + more) == take_first_scalar(bytes),
{
    lemma_scalar_ranges(bytes);
    lemma_scalar_ranges(bytes + more);
    assert(take_first_scalar(bytes + more) =~= take_first_scalar(bytes));
}

/// A character's own bytes are one character by themselves.
pub proof fn lemma_one_scalar(bytes: Seq<u8>)
    requires
        bytes.len() > 0,
        valid_first_scalar(bytes),
    ensures
        1 <= length_of_first_scalar(bytes) <= 4,
        length_of_first_scalar(bytes) <= bytes.len(),
        is_one_scalar(take_first_scalar(bytes)),
        valid_utf8(take_first_scalar(bytes)),
{
    lemma_scalar_ranges(bytes);
    lemma_scalar_ranges(take_first_scalar(bytes));
    reveal_with_fuel(valid_utf8, 2);
    assert(pop_first_scalar(take_first_scalar(bytes)).len() == 0);
}

/// What the first step of a lossy decode makes of `bytes` does not depend on
/// what comes after them, unless they are a character cut short.
pub proof fn lemma_unit_stable(bytes: Seq<u8>, more: Seq<u8>)
    requires
        bytes.len() > 0,
        !is_partial_scalar(bytes),
    ensures
        unit_width(bytes + more) == unit_width(bytes),
        unit_text(bytes + more) == unit_text(bytes),
{
    reveal(unit_width);
    reveal(unit_text);
    if valid_first_scalar(bytes) {
        lemma_scalar_extends(bytes, more);
    } else if valid_first_scalar(bytes + more) {
        lemma_one_scalar(bytes + more);
        let one = take_first_scalar(bytes + more);
        if one.len() <= bytes.len() {
            lemma_scalar_ranges(bytes + more);
            lemma_scalar_ranges(bytes);
        } else {
            let tail = more.take(one.len() - bytes.len());
            assert(bytes + tail =~= one);
        }
    }
}

/// One step of a lossy decode: how wide it is and that it stores text.
pub proof fn lemma_unit(bytes: Seq<u8>)
    requires
        bytes.len() > 0,
    ensures
        1 <= unit_width(bytes) <= 4,
        unit_width(bytes) <= bytes.len(),
        1 <= unit_text(bytes).len() <= 4,
        valid_utf8(unit_text(bytes)),
        bytes[0] < 0x80 ==> unit_width(bytes) == 1 && unit_text(bytes) == seq![bytes[0]],
{
    reveal(unit_width);
    reveal(unit_text);
    lemma_scalar_ranges(bytes);
    if valid_first_scalar(bytes) {
        lemma_one_scalar(bytes);
        if bytes[0] < 0x80 {
            assert(unit_text(bytes) =~= seq![bytes[0]]);
        }
    } else {
        lemma_scalar_ranges(replacement());
        lemma_one_scalar(replacement());
        assert(take_first_scalar(replacement()) =~= replacement());
    }
}

/// An unfinished character is at most three bytes long, and is not ASCII.
pub proof fn lemma_partial(bytes: Seq<u8>)
    requires
        is_partial_scalar(bytes),
    ensures
        1 <= bytes.len() <= 3,
        bytes[0] >= 0x80,
        !valid_first_scalar(bytes),
{
    let tail = choose|tail: Seq<u8>| tail.len() > 0 && #[trigger] is_one_scalar(bytes + tail);
    lemma_scalar_ranges(bytes + tail);
    lemma_scalar_ranges(bytes);
}

/// What a lossy decode comes to is text.
pub proof fn lossy_is_text(bytes: Seq<u8>)
    ensures
        valid_utf8(lossy(bytes)),
    decreases bytes.len(),
{
    if bytes.len() > 0 {
        lemma_unit(bytes);
        lossy_is_text(bytes.skip(unit_width(bytes)));
        valid_utf8_concat(unit_text(bytes), lossy(bytes.skip(unit_width(bytes))));
    }
}

/// Bytes that already are text decode to themselves.
pub proof fn lossy_keeps_text(bytes: Seq<u8>)
    requires
        valid_utf8(bytes),
    ensures
        lossy(bytes) == bytes,
    decreases bytes.len(),
{
    reveal(unit_width);
    reveal(unit_text);
    if bytes.len() > 0 {
        lemma_one_scalar(bytes);
        assert(bytes.skip(unit_width(bytes)) =~= pop_first_scalar(bytes));
        lossy_keeps_text(pop_first_scalar(bytes));
        assert(take_first_scalar(bytes) + pop_first_scalar(bytes) =~= bytes);
    }
}

/// The last character boundary at or before `limit`.
pub open spec fn floor_boundary(bytes: Seq<u8>, limit: int) -> int
    decreases limit,
{
    if limit >= bytes.len() {
        bytes.len() as int
    } else if limit <= 0 {
        0
    } else if is_char_boundary(bytes, limit) {
        limit
    } else {
        floor_boundary(bytes, limit - 1)
    }
}

/// What [`floor_boundary`] finds is a boundary no further than `limit`, with
/// no other boundary between the two and at most three bytes given up.
pub proof fn lemma_floor_boundary(bytes: Seq<u8>, limit: int)
    requires
        valid_utf8(bytes),
        0 <= limit,
    ensures
        is_char_boundary(bytes, floor_boundary(bytes, limit)),
        0 <= floor_boundary(bytes, limit) <= bytes.len(),
        floor_boundary(bytes, limit) <= limit || limit > bytes.len(),
        limit < bytes.len() ==> limit - 3 <= floor_boundary(bytes, limit),
        forall|other: int|
            floor_boundary(bytes, limit) < other <= limit ==> !#[trigger] is_char_boundary(
                bytes,
                other,
            ) || other > bytes.len(),
{
    is_char_boundary_start_end_of_seq(bytes);
    lemma_floor_is_boundary(bytes, limit);
    if 0 < limit < bytes.len() {
        lemma_floor_near(bytes, limit);
    }
    assert forall|other: int|
        floor_boundary(bytes, limit) < other <= limit && #[trigger] is_char_boundary(
            bytes,
            other,
        ) implies other > bytes.len() by {
        if other <= bytes.len() {
            lemma_floor_is_last(bytes, limit, other);
        }
    }
}

proof fn lemma_floor_is_boundary(bytes: Seq<u8>, limit: int)
    requires
        valid_utf8(bytes),
        0 <= limit,
    ensures
        is_char_boundary(bytes, floor_boundary(bytes, limit)),
        0 <= floor_boundary(bytes, limit) <= bytes.len(),
        limit <= bytes.len() ==> floor_boundary(bytes, limit) <= limit,
    decreases limit,
{
    is_char_boundary_start_end_of_seq(bytes);
    if 0 < limit < bytes.len() && !is_char_boundary(bytes, limit) {
        lemma_floor_is_boundary(bytes, limit - 1);
    }
}

proof fn lemma_floor_is_last(bytes: Seq<u8>, limit: int, other: int)
    requires
        valid_utf8(bytes),
        0 <= limit,
        0 <= other <= limit,
        other <= bytes.len(),
        is_char_boundary(bytes, other),
    ensures
        other <= floor_boundary(bytes, limit),
    decreases limit,
{
    if 0 < limit < bytes.len() && !is_char_boundary(bytes, limit) {
        lemma_floor_is_last(bytes, limit - 1, other);
    }
}

/// Within any four bytes of text there is a boundary.
proof fn lemma_floor_near(bytes: Seq<u8>, limit: int)
    requires
        valid_utf8(bytes),
        0 <= limit < bytes.len(),
    ensures
        limit - 3 <= floor_boundary(bytes, limit),
    decreases bytes.len(),
{
    let width = length_of_first_scalar(bytes);
    lemma_one_scalar(bytes);
    is_char_boundary_start_end_of_seq(bytes);
    if limit < width {
        lemma_floor_is_last(bytes, limit, 0);
    } else {
        let rest = pop_first_scalar(bytes);
        lemma_floor_near(rest, limit - width);
        let at = floor_boundary(rest, limit - width);
        is_char_boundary_start_end_of_seq(rest);
        lemma_floor_is_boundary(rest, limit - width);
        assert(is_char_boundary(bytes, at + width));
        lemma_floor_is_last(bytes, limit, at + width);
    }
}

/// The last character boundary of `bytes` at or before `limit`.
pub fn floor_char_boundary(bytes: &[u8], limit: usize) -> (at: usize)
    requires
        valid_utf8(bytes@),
    ensures
        at == floor_boundary(bytes@, limit as int),
{
    if limit >= bytes.len() {
        return bytes.len();
    }
    let mut at: usize = limit;
    while at > 0 && is_continuation(bytes[at])
        invariant
            valid_utf8(bytes@),
            at <= limit < bytes@.len(),
            floor_boundary(bytes@, at as int) == floor_boundary(bytes@, limit as int),
        decreases at,
    {
        proof {
            is_char_boundary_iff_not_is_continuation_byte(bytes@, at as int);
        }
        at = at - 1;
    }
    proof {
        is_char_boundary_iff_not_is_continuation_byte(bytes@, at as int);
    }
    at
}

/// A byte that is part of no character is stored as one replacement, and the
/// bytes after it are decoded as if it had not been there; a character in
/// front is kept as it is.
pub proof fn a_stray_byte_is_replaced(bytes: Seq<u8>)
    requires
        bytes.len() > 0,
    ensures
        !valid_first_scalar(bytes) ==> lossy(bytes) == seq![0xefu8, 0xbfu8, 0xbdu8] + lossy(
            bytes.skip(1),
        ),
        valid_first_scalar(bytes) ==> lossy(bytes) == take_first_scalar(bytes) + lossy(
            bytes.skip(length_of_first_scalar(bytes)),
        ),
{
    reveal(unit_width);
    reveal(unit_text);
}

/// No byte inside a character is ASCII.
pub proof fn lemma_inside_a_character(bytes: Seq<u8>, at: int)
    requires
        0 < at < unit_width(bytes),
        unit_width(bytes) <= bytes.len(),
    ensures
        bytes[at] >= 0x80,
{
    reveal(unit_width);
    lemma_scalar_ranges(bytes);
}

} // verus!
