//! Lenient decoding of UTF-8.
//!
//! Bytes are read front to back. A well-formed sequence gives its
//! character. Where the bytes are malformed, the longest run that still
//! begins a well-formed sequence (at least the one byte at hand) gives one
//! replacement character, and decoding goes on behind it. Decoding never
//! fails.

use vstd::prelude::*;
use vstd::utf8::*;

verus! {

/// The character that stands for a malformed sequence.
pub const REPLACEMENT: char = '\u{FFFD}';

/// Number of bytes of the sequence that `b` leads, and 0 where no
/// well-formed sequence begins with `b`.
pub open spec fn lead_width(b: u8) -> int {
    if b < 0x80 {
        1
    } else if 0xC2 <= b <= 0xDF {
        2
    } else if 0xE0 <= b <= 0xEF {
        3
    } else if 0xF0 <= b <= 0xF4 {
        4
    } else {
        0
    }
}

/// Whether `b1` may follow the leading byte `b0` of a sequence of two or
/// more bytes. The narrower ranges keep out overlong forms, surrogates and
/// values beyond the last scalar.
pub open spec fn second_byte_fits(b0: u8, b1: u8) -> bool {
    if b0 == 0xE0 {
        0xA0 <= b1 <= 0xBF
    } else if b0 == 0xED {
        0x80 <= b1 <= 0x9F
    } else if b0 == 0xF0 {
        0x90 <= b1 <= 0xBF
    } else if b0 == 0xF4 {
        0x80 <= b1 <= 0x8F
    } else {
        0x80 <= b1 <= 0xBF
    }
}

/// Number of bytes that the first decoding step takes from `s`, which is
/// not empty: the whole sequence where it is well formed, else the longest
/// run that begins one, and one byte where none does.
pub open spec fn step_len(s: Seq<u8>) -> int
    recommends
        s.len() > 0,
{
    let w = lead_width(s[0]);
    if w <= 1 {
        1
    } else if s.len() < 2 || !second_byte_fits(s[0], s[1]) {
        1
    } else if w == 2 {
        2
    } else if s.len() < 3 || !is_continuation_byte(s[2]) {
        2
    } else if w == 3 {
        3
    } else if s.len() < 4 || !is_continuation_byte(s[3]) {
        3
    } else {
        4
    }
}

/// Whether `s` begins with a well-formed sequence.
pub open spec fn starts_well_formed(s: Seq<u8>) -> bool {
    s.len() > 0 && lead_width(s[0]) >= 1 && step_len(s) == lead_width(s[0])
}

/// The character that the first decoding step gives.
pub open spec fn step_char(s: Seq<u8>) -> char
    recommends
        s.len() > 0,
{
    if starts_well_formed(s) {
        decode_first_scalar(s) as char
    } else {
        REPLACEMENT
    }
}

/// The characters that `s` decodes to.
pub open spec fn lossy_chars(s: Seq<u8>) -> Seq<char>
    decreases s.len(),
{
    if s.len() == 0 {
        Seq::empty()
    } else {
        seq![step_char(s)] + lossy_chars(s.skip(step_len(s)))
    }
}

/// Two bytes in the pattern of a sequence of two: the value is overlong
/// exactly where the leading byte is below 0xC2.
proof fn lemma_width_2(b0: u8, b1: u8)
    by (bit_vector)
    requires
        0xC0 <= b0 <= 0xDF,
        0x80 <= b1 <= 0xBF,
    ensures
        0x80 <= codepoint_width_2(b0, b1) <==> 0xC2 <= b0,
        codepoint_width_2(b0, b1) <= 0x7FF,
{
}

/// Three bytes in the pattern of a sequence of three: which leading and
/// second bytes make the value overlong, and which make it a surrogate.
proof fn lemma_width_3(b0: u8, b1: u8, b2: u8)
    by (bit_vector)
    requires
        0xE0 <= b0 <= 0xEF,
        0x80 <= b1 <= 0xBF,
        0x80 <= b2 <= 0xBF,
    ensures
        0x800 <= codepoint_width_3(b0, b1, b2) <==> !(b0 == 0xE0 && b1 < 0xA0),
        0xD800 <= codepoint_width_3(b0, b1, b2) <= 0xDFFF <==> (b0 == 0xED && 0xA0 <= b1),
        codepoint_width_3(b0, b1, b2) <= 0xFFFF,
{
}

/// Four bytes in the pattern of a sequence of four: which leading and
/// second bytes make the value overlong, and which put it beyond the last
/// scalar.
proof fn lemma_width_4(b0: u8, b1: u8, b2: u8, b3: u8)
    by (bit_vector)
    requires
        0xF0 <= b0 <= 0xF7,
        0x80 <= b1 <= 0xBF,
        0x80 <= b2 <= 0xBF,
        0x80 <= b3 <= 0xBF,
    ensures
        0x10000 <= codepoint_width_4(b0, b1, b2, b3) <==> !(b0 == 0xF0 && b1 < 0x90),
        codepoint_width_4(b0, b1, b2, b3) <= 0x10FFFF <==> (b0 < 0xF4 || (b0 == 0xF4 && b1
            <= 0x8F)),
{
}

/// A step takes at least one byte and no more than there are. The bytes
/// begin with a well-formed sequence exactly where they begin with the
/// encoding of a scalar, and the step then takes that encoding.
pub proof fn lemma_step(s: Seq<u8>)
    requires
        s.len() > 0,
    ensures
        1 <= step_len(s) <= s.len(),
        step_len(s) <= 4,
        starts_well_formed(s) <==> valid_first_scalar(s),
        starts_well_formed(s) ==> step_len(s) == length_of_first_scalar(s),
        starts_well_formed(s) ==> is_scalar(decode_first_scalar(s)),
{
    let b0 = s[0];
    if 0xC0 <= b0 <= 0xDF {
        if s.len() >= 2 && is_continuation_byte(s[1]) {
            lemma_width_2(b0, s[1]);
        }
    } else if 0xE0 <= b0 <= 0xEF {
        if s.len() >= 3 && is_continuation_byte(s[1]) && is_continuation_byte(s[2]) {
            lemma_width_3(b0, s[1], s[2]);
        }
    } else if 0xF0 <= b0 <= 0xF7 {
        if s.len() >= 4 && is_continuation_byte(s[1]) && is_continuation_byte(s[2])
            && is_continuation_byte(s[3]) {
            lemma_width_4(b0, s[1], s[2], s[3]);
        }
    }
}

/// Decoding gives no more characters than there are bytes, and at least
/// one for every four bytes.
pub proof fn lemma_lossy_len(s: Seq<u8>)
    ensures
        lossy_chars(s).len() <= s.len(),
        s.len() <= 4 * lossy_chars(s).len(),
    decreases s.len(),
{
    if s.len() > 0 {
        lemma_lossy_len(s.skip(step_len(s)));
    }
}

/// On well-formed UTF-8, lenient decoding is decoding.
pub proof fn lemma_lossy_of_valid(s: Seq<u8>)
    requires
        valid_utf8(s),
    ensures
        lossy_chars(s) == decode_utf8(s),
    decreases s.len(),
{
    if s.len() > 0 {
        lemma_step(s);
        lemma_lossy_of_valid(pop_first_scalar(s));
    }
}

/// Decoding the encoding of a text gives the text back.
pub proof fn lemma_lossy_of_encoded(chars: Seq<char>)
    ensures
        lossy_chars(encode_utf8(chars)) == chars,
{
    encode_utf8_valid_utf8(chars);
    encode_utf8_decode_utf8(chars);
    lemma_lossy_of_valid(encode_utf8(chars));
}

/// Whether decoding `a` and then `b` never takes a sequence that begins in
/// `a` and ends in `b`: one of the two is empty, or `a` ends in an ASCII
/// byte, or `b` begins with a byte that continues no sequence.
pub open spec fn splits_cleanly(a: Seq<u8>, b: Seq<u8>) -> bool {
    a.len() == 0 || b.len() == 0 || a.last() < 0x80 || !is_continuation_byte(b[0])
}

/// The first step on `a` is the first step on `a` followed by `b`, where
/// the two split cleanly.
pub proof fn lemma_step_of_concat(a: Seq<u8>, b: Seq<u8>)
    requires
        a.len() > 0,
        splits_cleanly(a, b),
    ensures
        step_len(a + b) == step_len(a),
        step_char(a + b) == step_char(a),
{
    let s = a + b;
    let n = a.len() as int;
    if b.len() == 0 {
        assert(s =~= a);
    } else {
        assert(s[0] == a[0]);
        assert(n > 1 ==> s[1] == a[1]);
        assert(n > 2 ==> s[2] == a[2]);
        assert(n > 3 ==> s[3] == a[3]);
        assert(s[n] == b[0]);
        assert(a.last() == a[n - 1]);
    }
}

/// Decoding two parts that split cleanly gives the text of the first and
/// then the text of the second.
pub proof fn lemma_lossy_concat(a: Seq<u8>, b: Seq<u8>)
    requires
        splits_cleanly(a, b),
    ensures
        lossy_chars(a + b) == lossy_chars(a) + lossy_chars(b),
    decreases a.len(),
{
    if a.len() == 0 {
        assert(a + b =~= b);
        assert(lossy_chars(a) + lossy_chars(b) =~= lossy_chars(b));
    } else {
        lemma_step(a);
        lemma_step_of_concat(a, b);
        let k = step_len(a);
        let rest = a.skip(k);
        assert((a + b).skip(k) =~= rest + b);
        if rest.len() > 0 {
            assert(rest.last() == a.last());
        }
        lemma_lossy_concat(rest, b);
        assert(lossy_chars(a + b) =~= lossy_chars(a) + lossy_chars(b));
    }
}

/// A newline byte decodes to the newline character, and so does the end of
/// any bytes that end in one.
pub proof fn lemma_lossy_ends_in_newline(line: Seq<u8>)
    requires
        line.len() > 0,
        line.last() == 0x0A,
    ensures
        lossy_chars(line).len() > 0,
        lossy_chars(line).last() == '\n',
{
    let body = line.drop_last();
    let end = seq![0x0Au8];
    assert(line =~= body + end);
    lemma_lossy_concat(body, end);
    assert(codepoint_width_1(0x0Au8) == 0x0A) by (bit_vector);
    assert(end[0] == 0x0Au8);
    assert(step_len(end) == 1);
    assert(step_char(end) == '\n');
    assert(lossy_chars(end.skip(1)) =~= Seq::<char>::empty());
    assert(lossy_chars(end) =~= seq!['\n']);
}

/// A step gives the newline character from a newline byte only.
pub proof fn lemma_step_char_newline(s: Seq<u8>)
    requires
        s.len() > 0,
        step_char(s) == '\n',
    ensures
        s[0] == 0x0A,
{
    lemma_step(s);
    let b0 = s[0];
    let cp = decode_first_scalar(s);
    assert(starts_well_formed(s));
    assert(cp == 0x0A) by {
        char_u32_cast('\n', 0x0Au32);
        assert(is_scalar(cp));
    }
    if b0 < 0x80 {
        assert(b0 < 0x80 && (b0 & 0x7F) as u32 == 0x0Au32 ==> b0 == 0x0A) by (bit_vector);
    }
}

/// Decoding keeps a line a line: the text of bytes without a newline
/// before the last holds no newline before its last character.
pub proof fn lemma_lossy_keeps_line(line: Seq<u8>)
    requires
        line.len() > 0,
        forall|i: int| 0 <= i < line.len() - 1 ==> line[i] != 0x0A,
    ensures
        lossy_chars(line).len() > 0,
        forall|j: int| 0 <= j < lossy_chars(line).len() - 1 ==> lossy_chars(line)[j] != '\n',
    decreases line.len(),
{
    lemma_step(line);
    let k = step_len(line);
    let rest = line.skip(k);
    let text = lossy_chars(line);
    assert(text =~= seq![step_char(line)] + lossy_chars(rest));
    if rest.len() > 0 {
        assert forall|i: int| 0 <= i < rest.len() - 1 implies rest[i] != 0x0A by {
            assert(rest[i] == line[i + k]);
        }
        lemma_lossy_keeps_line(rest);
        if step_char(line) == '\n' {
            lemma_step_char_newline(line);
            assert(line[0] != 0x0A);
        }
        assert forall|j: int| 0 <= j < text.len() - 1 implies text[j] != '\n' by {
            if j > 0 {
                assert(text[j] == lossy_chars(rest)[j - 1]);
            }
        }
    } else {
        assert(lossy_chars(rest) =~= Seq::<char>::empty());
    }
}

/// Wraps `char::from_u32`: the character with the scalar value `cp`, and
/// `None` where `cp` is no scalar value (a surrogate, or beyond 0x10FFFF).
#[verifier::external_body]
fn char_of_scalar(cp: u32) -> (c: Option<char>)
    ensures
        is_scalar(cp) ==> c == Some(cp as char),
        !is_scalar(cp) ==> c is None,
{
    char::from_u32(cp)
}

/// The character with the scalar value `cp`, and the replacement
/// character where `cp` is no scalar value.
fn scalar_or_replacement(cp: u32) -> (c: char)
    ensures
        is_scalar(cp) ==> c == cp as char,
        !is_scalar(cp) ==> c == REPLACEMENT,
{
    match char_of_scalar(cp) {
        Some(c) => c,
        None => REPLACEMENT,
    }
}

/// Whether `b` is a continuation byte.
fn is_continuation(b: u8) -> (r: bool)
    ensures
        r == is_continuation_byte(b),
{
    0x80 <= b && b <= 0xBF
}

/// Whether `b1` may follow the leading byte `b0`.
fn second_fits(b0: u8, b1: u8) -> (r: bool)
    ensures
        r == second_byte_fits(b0, b1),
{
    if b0 == 0xE0 {
        0xA0 <= b1 && b1 <= 0xBF
    } else if b0 == 0xED {
        0x80 <= b1 && b1 <= 0x9F
    } else if b0 == 0xF0 {
        0x90 <= b1 && b1 <= 0xBF
    } else if b0 == 0xF4 {
        0x80 <= b1 && b1 <= 0x8F
    } else {
        0x80 <= b1 && b1 <= 0xBF
    }
}

/// One decoding step at `pos`: the character, and the position behind the
/// bytes it took.
pub fn decode_step(bytes: &[u8], pos: usize) -> (r: (char, usize))
    requires
        pos < bytes@.len(),
    ensures
        r.0 == step_char(bytes@.skip(pos as int)),
        r.1 == pos + step_len(bytes@.skip(pos as int)),
        pos < r.1 <= bytes@.len(),
{
    let ghost s = bytes@.skip(pos as int);
    proof {
        lemma_step(s);
    }
    let avail: usize = bytes.len() - pos;
    let b0: u8 = bytes[pos];
    if b0 < 0x80 {
        let cp: u32 = (b0 & 0x7F) as u32;
        return (scalar_or_replacement(cp), pos + 1);
    }
    if !(0xC2 <= b0 && b0 <= 0xF4) || avail < 2 {
        return (REPLACEMENT, pos + 1);
    }
    let b1: u8 = bytes[pos + 1];
    if !second_fits(b0, b1) {
        return (REPLACEMENT, pos + 1);
    }
    if b0 <= 0xDF {
        let cp: u32 = (((b0 & 0x1F) as u32) << 6) | ((b1 & 0x3F) as u32);
        return (scalar_or_replacement(cp), pos + 2);
    }
    if avail < 3 {
        return (REPLACEMENT, pos + 2);
    }
    let b2: u8 = bytes[pos + 2];
    if !is_continuation(b2) {
        return (REPLACEMENT, pos + 2);
    }
    if b0 <= 0xEF {
        let cp: u32 = (((b0 & 0x0F) as u32) << 12) | (((b1 & 0x3F) as u32) << 6) | ((b2
            & 0x3F) as u32);
        return (scalar_or_replacement(cp), pos + 3);
    }
    if avail < 4 {
        return (REPLACEMENT, pos + 3);
    }
    let b3: u8 = bytes[pos + 3];
    if !is_continuation(b3) {
        return (REPLACEMENT, pos + 3);
    }
    let cp: u32 = (((b0 & 0x07) as u32) << 18) | (((b1 & 0x3F) as u32) << 12) | (((b2
        & 0x3F) as u32) << 6) | ((b3 & 0x3F) as u32);
    (scalar_or_replacement(cp), pos + 4)
}

/// Decodes `bytes` leniently.
pub fn decode_lossy(bytes: &[u8]) -> (chars: Vec<char>)
    ensures
        chars@ == lossy_chars(bytes@),
        chars@.len() <= bytes@.len(),
{
    let mut chars: Vec<char> = Vec::new();
    let mut pos: usize = 0;
    proof {
        assert(bytes@.skip(0) =~= bytes@);
    }
    while pos < bytes.len()
        invariant
            pos <= bytes@.len(),
            chars@ + lossy_chars(bytes@.skip(pos as int)) == lossy_chars(bytes@),
        decreases bytes@.len() - pos,
    {
        let (c, next) = decode_step(bytes, pos);
        proof {
            let s = bytes@.skip(pos as int);
            assert(s.skip(step_len(s)) =~= bytes@.skip(next as int));
            assert(chars@.push(c) + lossy_chars(bytes@.skip(next as int)) =~= chars@
                + lossy_chars(s));
        }
        chars.push(c);
        pos = next;
    }
    proof {
        lemma_lossy_len(bytes@);
    }
    chars
}

} // verus!
