use vstd::prelude::*;
use vstd::string::StringSliceAdditionalSpecFns;
use vstd::utf8::*;

verus! {

/// Why a byte span is not UTF-8 text: where the text stops, and how long the
/// offending sequence is. Without a length the span ends inside a character.
#[derive(Clone, Copy, Debug, PartialEq, Eq)]
pub struct Utf8Fault {
    pub valid_up_to: usize,
    pub error_len: Option<usize>,
}

/// The first two bytes of a three-byte character.
pub open spec fn opens_width_3(a: u8, b: u8) -> bool {
    ||| a == 0xE0 && 0xA0 <= b <= 0xBF
    ||| 0xE1 <= a <= 0xEC && 0x80 <= b <= 0xBF
    ||| a == 0xED && 0x80 <= b <= 0x9F
    ||| 0xEE <= a <= 0xEF && 0x80 <= b <= 0xBF
}

/// The first two bytes of a four-byte character.
pub open spec fn opens_width_4(a: u8, b: u8) -> bool {
    ||| a == 0xF0 && 0x90 <= b <= 0xBF
    ||| 0xF1 <= a <= 0xF3 && 0x80 <= b <= 0xBF
    ||| a == 0xF4 && 0x80 <= b <= 0x8F
}

/// `tail` is the beginning of one character, cut off before its last byte.
pub open spec fn truncated_scalar(tail: Seq<u8>) -> bool {
    ||| tail.len() == 1 && 0xC2 <= tail[0] <= 0xF4
    ||| tail.len() == 2 && (opens_width_3(tail[0], tail[1]) || opens_width_4(tail[0], tail[1]))
    ||| tail.len() == 3 && opens_width_4(tail[0], tail[1]) && is_continuation_byte(tail[2])
}

/// `fault` describes the first place at which `bytes` stops being UTF-8.
pub open spec fn fault_of(bytes: Seq<u8>, fault: Utf8Fault) -> bool {
    let tail = bytes.subrange(fault.valid_up_to as int, bytes.len() as int);
    &&& fault.valid_up_to < bytes.len()
    &&& valid_utf8(bytes.subrange(0, fault.valid_up_to as int))
    &&& !valid_first_scalar(tail)
    &&& match fault.error_len {
        None => truncated_scalar(tail),
        Some(n) => 1 <= n <= 3 && !truncated_scalar(tail),
    }
}

/// `bytes` is text followed by the beginning of one character, cut off
/// before its last byte.
pub open spec fn unfinished(bytes: Seq<u8>) -> bool {
    exists|k: usize| #[trigger] fault_of(bytes, Utf8Fault { valid_up_to: k, error_len: None })
}

/// Calls `simdutf8::compat::from_utf8`. Believed of it: it accepts exactly the
/// well-formed spans and hands the same bytes back as text; on a refusal,
/// `valid_up_to` is the length of the longest well-formed prefix, and
/// `error_len` is absent exactly when the rest is one character cut short by
/// the end of the span, else the length (1 to 3) of the ill-formed sequence.
#[verifier::external_body]
pub(crate) fn from_utf8(bytes: &[u8]) -> (r: Result<&str, Utf8Fault>)
    ensures
        match r {
            Ok(s) => valid_utf8(bytes@) && s.spec_bytes() == bytes@,
            Err(fault) => fault_of(bytes@, fault),
        },
{
    match simdutf8::compat::from_utf8(bytes) {
        Ok(s) => Ok(s),
        Err(e) => Err(Utf8Fault { valid_up_to: e.valid_up_to(), error_len: e.error_len() }),
    }
}

/// `char::from_u32` gives the character of a scalar value, and nothing for any
/// other number.
pub assume_specification[ char::from_u32 ](i: u32) -> (r: Option<char>)
    ensures
        is_scalar(i) ==> r == Some(i as char),
        !is_scalar(i) ==> r is None,
;

/// The first character of a text.
pub open spec fn first_char(text: Seq<u8>) -> char {
    decode_first_scalar(text) as char
}

/// The number of bytes the first character of a text takes.
pub open spec fn first_width(text: Seq<u8>) -> int {
    length_of_first_scalar(text)
}

/// The number of bytes that `ch` takes in UTF-8.
pub open spec fn width_of(ch: char) -> int {
    encode_scalar(ch as u32).len() as int
}

/// A refused span is not UTF-8.
pub proof fn lemma_fault_not_valid(bytes: Seq<u8>, fault: Utf8Fault)
    requires
        fault_of(bytes, fault),
    ensures
        !valid_utf8(bytes),
{
    let v = fault.valid_up_to as int;
    let tail = bytes.subrange(v, bytes.len() as int);
    assert(tail.len() > 0);
    assert(!valid_utf8(tail));
    partial_valid_partial_invalid_utf8(bytes, v);
}

/// A well-formed text that is not empty starts with one whole character.
pub proof fn lemma_first_scalar(text: Seq<u8>)
    requires
        valid_utf8(text),
        text.len() > 0,
    ensures
        valid_first_scalar(text),
        1 <= first_width(text) <= 4,
        first_width(text) <= text.len(),
        is_char_boundary(text, first_width(text)),
        valid_utf8(text.subrange(first_width(text), text.len() as int)),
        valid_utf8(text.subrange(0, first_width(text))),
        is_scalar(decode_first_scalar(text)),
        width_of(first_char(text)) == first_width(text),
        encode_scalar(first_char(text) as u32) == text.subrange(0, first_width(text)),
{
    let w = first_width(text);
    let rest = pop_first_scalar(text);
    assert(valid_utf8(rest));
    is_char_boundary_start_end_of_seq(rest);
    assert(is_char_boundary(rest, 0));
    reveal_with_fuel(is_char_boundary, 2);
    assert(is_char_boundary(text, w));
    valid_utf8_split(text, w);
    decode_utf8_first_scalar(text);
    let b0 = text[0];
    if is_leading_byte_width_1(b0) {
        assert((b0 & 0x7F) as u32 <= 0x7F) by (bit_vector);
    } else if is_leading_byte_width_2(b0) {
        let b1 = text[1];
        assert((((b0 & 0x1F) as u32) << 6) | ((b1 & 0x3F) as u32) <= 0x7FF) by (bit_vector);
    } else if is_leading_byte_width_3(b0) {
        let b1 = text[1];
        let b2 = text[2];
        assert((((b0 & 0x0F) as u32) << 12) | (((b1 & 0x3F) as u32) << 6) | ((b2 & 0x3F) as u32)
            <= 0xFFFF) by (bit_vector);
    }
    assert(is_scalar(decode_first_scalar(text)));
}

/// Positions in a consumed tail are boundaries of the whole text.
pub proof fn lemma_boundary_shift(text: Seq<u8>, at: int, n: int)
    requires
        valid_utf8(text),
        is_char_boundary(text, at),
        0 <= at <= text.len(),
        0 <= n,
    ensures
        valid_utf8(text.subrange(at, text.len() as int)),
        is_char_boundary(text.subrange(at, text.len() as int), n) <==> (at + n <= text.len()
            && is_char_boundary(text, at + n)),
{
    let tail = text.subrange(at, text.len() as int);
    valid_utf8_split(text, at);
    is_char_boundary_start_end_of_seq(text);
    is_char_boundary_start_end_of_seq(tail);
    if n == 0 {
    } else if at + n < text.len() {
        is_char_boundary_iff_not_is_continuation_byte(text, at + n);
        is_char_boundary_iff_not_is_continuation_byte(tail, n);
        assert(tail[n] == text[at + n]);
    } else if at + n == text.len() {
    } else {
        reveal_with_fuel(is_char_boundary, 1);
    }
}

/// A boundary of a text stays one when more text follows.
pub proof fn lemma_boundary_extend(text: Seq<u8>, more: Seq<u8>, at: int)
    requires
        valid_utf8(text),
        valid_utf8(more),
        0 <= at <= text.len(),
        is_char_boundary(text, at),
    ensures
        valid_utf8(text + more),
        is_char_boundary(text + more, at),
{
    let whole = text + more;
    valid_utf8_concat(text, more);
    is_char_boundary_start_end_of_seq(whole);
    if at == 0 || at == whole.len() {
    } else if at < text.len() {
        is_char_boundary_iff_not_is_continuation_byte(text, at);
        is_char_boundary_iff_not_is_continuation_byte(whole, at);
    } else {
        is_char_boundary_start_end_of_seq(more);
        is_char_boundary_iff_not_is_continuation_byte(more, 0);
        is_char_boundary_iff_not_is_continuation_byte(whole, at);
        assert(whole[at] == more[0]);
    }
}

/// The end of a text is a boundary of everything that starts with it.
pub proof fn lemma_boundary_join(text: Seq<u8>, more: Seq<u8>)
    requires
        valid_utf8(text),
        valid_utf8(more),
    ensures
        valid_utf8(text + more),
        is_char_boundary(text + more, text.len() as int),
{
    is_char_boundary_start_end_of_seq(text);
    lemma_boundary_extend(text, more, text.len() as int);
}

/// What lies between two boundaries of a text is text.
pub proof fn lemma_between(text: Seq<u8>, from: int, to: int)
    requires
        valid_utf8(text),
        0 <= from <= to <= text.len(),
        is_char_boundary(text, from),
        is_char_boundary(text, to),
    ensures
        valid_utf8(text.subrange(from, to)),
        valid_utf8(text.subrange(0, to)),
        is_char_boundary(text.subrange(0, to), from),
{
    let head = text.subrange(0, to);
    valid_utf8_split(text, to);
    is_char_boundary_start_end_of_seq(head);
    if from == 0 || from == to {
    } else {
        is_char_boundary_iff_not_is_continuation_byte(text, from);
        is_char_boundary_iff_not_is_continuation_byte(head, from);
    }
    valid_utf8_split(head, from);
    assert(head.subrange(from, head.len() as int) =~= text.subrange(from, to));
}

/// A boundary of a piece of text that lies between two boundaries of a text
/// is a boundary of the text.
pub proof fn lemma_boundary_within(text: Seq<u8>, from: int, to: int, n: int)
    requires
        valid_utf8(text),
        0 <= from <= to <= text.len(),
        is_char_boundary(text, from),
        is_char_boundary(text, to),
        0 <= n <= to - from,
        is_char_boundary(text.subrange(from, to), n),
    ensures
        is_char_boundary(text, from + n),
{
    let piece = text.subrange(from, to);
    lemma_between(text, from, to);
    lemma_between(text, 0, from);
    valid_utf8_split(piece, n);
    let head = text.subrange(0, from) + piece.subrange(0, n);
    valid_utf8_concat(text.subrange(0, from), piece.subrange(0, n));
    assert(head =~= text.subrange(0, from + n));
    lemma_prefix_boundary(head, text);
}

/// A text does not start in the middle of a character.
pub proof fn lemma_leading(text: Seq<u8>)
    requires
        valid_utf8(text),
        text.len() > 0,
    ensures
        !is_continuation_byte(text[0]),
{
    is_char_boundary_start_end_of_seq(text);
    is_char_boundary_iff_not_is_continuation_byte(text, 0);
}

/// A text ends where a text that starts with it has a boundary.
pub proof fn lemma_prefix_boundary(lit: Seq<u8>, text: Seq<u8>)
    requires
        valid_utf8(lit),
        valid_utf8(text),
        lit.is_prefix_of(text),
    ensures
        is_char_boundary(text, lit.len() as int),
    decreases lit.len(),
{
    if lit.len() == 0 {
    } else {
        lemma_first_scalar(lit);
        lemma_first_scalar(text);
        assert(lit[0] == text[0]);
        let w = first_width(lit);
        assert(w == first_width(text));
        let lit_rest = pop_first_scalar(lit);
        let text_rest = pop_first_scalar(text);
        assert(lit_rest =~= text_rest.subrange(0, lit_rest.len() as int));
        lemma_prefix_boundary(lit_rest, text_rest);
    }
}

/// The characters of a text that ends with one more character are those of
/// the text before it, and that character.
pub proof fn lemma_decode_push(run: Seq<u8>, text: Seq<u8>)
    requires
        valid_utf8(run),
        valid_utf8(text),
        text.len() > 0,
    ensures
        valid_utf8(run + text.subrange(0, first_width(text))),
        decode_utf8(run + text.subrange(0, first_width(text))) == decode_utf8(run).push(
            first_char(text),
        ),
{
    lemma_first_scalar(text);
    let w = first_width(text);
    let head = text.subrange(0, w);
    let whole = run + head;
    lemma_boundary_join(run, head);
    decode_utf8_split(whole, run.len() as int);
    assert(whole.subrange(0, run.len() as int) =~= run);
    assert(whole.subrange(run.len() as int, whole.len() as int) =~= head);
    assert(head[0] == text[0]);
    assert(decode_first_scalar(head) == decode_first_scalar(text));
    assert(pop_first_scalar(head) =~= Seq::<u8>::empty());
    reveal_with_fuel(decode_utf8, 2);
    reveal_with_fuel(valid_utf8, 2);
    assert(decode_utf8(head) =~= seq![first_char(text)]);
    assert(decode_utf8(whole) =~= decode_utf8(run).push(first_char(text)));
}

/// A boundary of a text is one of every text that starts with it.
pub proof fn lemma_boundary_grow(text: Seq<u8>, longer: Seq<u8>, at: int)
    requires
        valid_utf8(text),
        valid_utf8(longer),
        text.is_prefix_of(longer),
        0 <= at <= text.len(),
        is_char_boundary(text, at),
    ensures
        is_char_boundary(longer, at),
{
    if at == text.len() {
        lemma_prefix_boundary(text, longer);
    } else if at == 0 {
    } else {
        is_char_boundary_iff_not_is_continuation_byte(text, at);
        is_char_boundary_iff_not_is_continuation_byte(longer, at);
    }
}

/// The first character of a text, if it has one.
pub open spec fn head_of(text: Seq<u8>) -> Option<char> {
    if text.len() > 0 {
        Some(first_char(text))
    } else {
        None
    }
}

/// The number of bytes that `ch` takes in UTF-8.
pub fn utf8_width(ch: char) -> (r: usize)
    ensures
        r == width_of(ch),
        1 <= r <= 4,
{
    let code = ch as u32;
    proof {
        char_is_scalar(ch);
    }
    if code < 0x80 {
        1
    } else if code < 0x800 {
        2
    } else if code < 0x10000 {
        3
    } else {
        4
    }
}

/// The first byte of `ch` in UTF-8.
pub fn utf8_first_byte(ch: char) -> (r: u8)
    ensures
        r == encode_scalar(ch as u32)[0],
{
    let code = ch as u32;
    proof {
        char_is_scalar(ch);
    }
    if code < 0x80 {
        assert(code & 0x7F == code) by (bit_vector)
            requires
                code < 0x80,
        ;
        code as u8
    } else if code < 0x800 {
        assert((code >> 6) & 0x1F < 0x20) by (bit_vector);
        0xC0 | ((code >> 6) & 0x1F) as u8
    } else if code < 0x10000 {
        assert((code >> 12) & 0x0F < 0x10) by (bit_vector);
        0xE0 | ((code >> 12) & 0x0F) as u8
    } else {
        assert((code >> 18) & 0x7 < 0x8) by (bit_vector);
        0xF0 | ((code >> 18) & 0x7) as u8
    }
}

/// Decodes the character at the head of a text, with its width in bytes.
pub(crate) fn decode_first(text: &[u8]) -> (r: (char, usize))
    requires
        valid_utf8(text@),
        text@.len() > 0,
    ensures
        r.0 == first_char(text@),
        r.1 == first_width(text@),
        r.1 == width_of(r.0),
        1 <= r.1 <= 4,
        r.1 <= text@.len(),
{
    proof {
        lemma_first_scalar(text@);
    }
    let b0 = text[0];
    let (code, width): (u32, usize) = if b0 < 0x80 {
        ((b0 & 0x7F) as u32, 1)
    } else if b0 < 0xE0 {
        let b1 = text[1];
        ((((b0 & 0x1F) as u32) << 6) | ((b1 & 0x3F) as u32), 2)
    } else if b0 < 0xF0 {
        let b1 = text[1];
        let b2 = text[2];
        ((((b0 & 0x0F) as u32) << 12) | (((b1 & 0x3F) as u32) << 6) | ((b2 & 0x3F) as u32), 3)
    } else {
        let b1 = text[1];
        let b2 = text[2];
        let b3 = text[3];
        (
            (((b0 & 0x07) as u32) << 18) | (((b1 & 0x3F) as u32) << 12) | (((b2 & 0x3F) as u32)
                << 6) | ((b3 & 0x3F) as u32),
            4,
        )
    };
    assert(code == decode_first_scalar(text@));
    match char::from_u32(code) {
        Some(ch) => (ch, width),
        None => unreached(),
    }
}

/// Whether a text may be cut at `n` without splitting a character.
pub(crate) fn is_boundary(text: &[u8], n: usize) -> (r: bool)
    requires
        valid_utf8(text@),
    ensures
        r == is_char_boundary(text@, n as int),
{
    proof {
        is_char_boundary_start_end_of_seq(text@);
    }
    if n == 0 || n == text.len() {
        true
    } else if n > text.len() {
        proof {
            reveal_with_fuel(is_char_boundary, 1);
        }
        false
    } else {
        proof {
            is_char_boundary_iff_not_is_continuation_byte(text@, n as int);
        }
        let b = text[n];
        !(0x80 <= b && b <= 0xBF)
    }
}


/// A character does not begin with the bytes that cut-off characters are not
/// allowed to begin with: what begins a whole character and is not yet one
/// is the beginning of one character, cut off before its last byte.
pub proof fn lemma_head_of_scalar(head: Seq<u8>, rest: Seq<u8>)
    requires
        head.len() > 0,
        valid_first_scalar(head + rest),
    ensures
        valid_first_scalar(head) || truncated_scalar(head),
{
    let whole = head + rest;
    let b0 = whole[0];
    assert(head[0] == b0);
    if head.len() >= 2 {
        assert(head[1] == whole[1]);
    }
    if head.len() >= 3 {
        assert(head[2] == whole[2]);
    }
    if head.len() >= 4 {
        assert(head[3] == whole[3]);
    }
    if is_leading_byte_width_1(b0) {
    } else if is_leading_byte_width_2(b0) {
        let b1 = whole[1];
        assert(0x80 <= ((((b0 & 0x1F) as u32) << 6) | ((b1 & 0x3F) as u32)) ==> 0xC2 <= b0)
            by (bit_vector)
            requires
                0xC0 <= b0 <= 0xDF,
        ;
    } else if is_leading_byte_width_3(b0) {
        let b1 = whole[1];
        let b2 = whole[2];
        let cp = (((b0 & 0x0F) as u32) << 12) | (((b1 & 0x3F) as u32) << 6) | ((b2 & 0x3F) as u32);
        assert(0x800 <= cp && !(0xD800 <= cp <= 0xDFFF) ==> opens_width_3(b0, b1)) by (bit_vector)
            requires
                0xE0 <= b0 <= 0xEF,
                0x80 <= b1 <= 0xBF,
                0x80 <= b2 <= 0xBF,
                cp == (((b0 & 0x0F) as u32) << 12) | (((b1 & 0x3F) as u32) << 6) | ((b2 & 0x3F) as u32),
        ;
    } else {
        let b1 = whole[1];
        let b2 = whole[2];
        let b3 = whole[3];
        let cp = (((b0 & 0x07) as u32) << 18) | (((b1 & 0x3F) as u32) << 12) | (((b2 & 0x3F) as u32)
            << 6) | ((b3 & 0x3F) as u32);
        assert(0x10000 <= cp <= 0x10FFFF ==> opens_width_4(b0, b1) && b0 <= 0xF4) by (bit_vector)
            requires
                0xF0 <= b0 <= 0xF7,
                0x80 <= b1 <= 0xBF,
                0x80 <= b2 <= 0xBF,
                0x80 <= b3 <= 0xBF,
                cp == (((b0 & 0x07) as u32) << 18) | (((b1 & 0x3F) as u32) << 12) | (((b2
                    & 0x3F) as u32) << 6) | ((b3 & 0x3F) as u32),
        ;
    }
}

/// Where text is followed by bytes, and what follows both is text as a
/// whole, the bytes are the head of a character: they begin a whole one, or
/// are the beginning of one, cut off.
pub proof fn lemma_cut_not_text(bytes: Seq<u8>, more: Seq<u8>, k: int)
    requires
        0 <= k < bytes.len(),
        valid_utf8(bytes.subrange(0, k)),
        valid_utf8(bytes + more),
    ensures
        valid_utf8(bytes.subrange(k, bytes.len() as int) + more),
        valid_first_scalar(bytes.subrange(k, bytes.len() as int)) || truncated_scalar(
            bytes.subrange(k, bytes.len() as int),
        ),
{
    let whole = bytes + more;
    let head = bytes.subrange(0, k);
    let tail = bytes.subrange(k, bytes.len() as int);
    assert(head =~= whole.subrange(0, k));
    lemma_prefix_boundary(head, whole);
    valid_utf8_split(whole, k);
    assert(whole.subrange(k, whole.len() as int) =~= tail + more);
    lemma_head_of_scalar(tail, more);
}

/// The beginning of a character that is cut off is no character.
pub proof fn lemma_truncated_not_valid(tail: Seq<u8>)
    requires
        truncated_scalar(tail),
    ensures
        !valid_first_scalar(tail),
        !valid_utf8(tail),
{
}

} // verus!
