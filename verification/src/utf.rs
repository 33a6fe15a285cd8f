//! Character decoding of the reader: what one step of decoding yields for a
//! raw byte sequence in a given encoding, how whole streams decode, and how
//! code points are written back out as UTF-8.
use vstd::prelude::*;

verus! {

/// The encoding of an input stream.
#[derive(PartialEq, Eq, Structural, Clone, Copy, Debug)]
pub enum yaml_encoding_t {
    /// Not decided yet: the reader detects it from a byte order mark.
    YAML_ANY_ENCODING,
    YAML_UTF8_ENCODING,
    YAML_UTF16LE_ENCODING,
    YAML_UTF16BE_ENCODING,
}

/// The reasons for which the reader stops with a reader error.
#[derive(PartialEq, Eq, Structural, Clone, Copy, Debug)]
pub enum ReaderProblem {
    InvalidLeadingOctet,
    IncompleteUtf8Sequence,
    InvalidTrailingOctet,
    InvalidUtf8Length,
    InvalidUnicodeCharacter,
    IncompleteUtf16Character,
    UnexpectedLowSurrogate,
    IncompleteSurrogatePair,
    ExpectedLowSurrogate,
    ControlCharacter,
    InputError,
    InputTooLong,
}

/// The text of a reader problem, as the reader reports it.
pub open spec fn problem_text(p: ReaderProblem) -> Seq<char> {
    match p {
        ReaderProblem::InvalidLeadingOctet => "invalid leading UTF-8 octet"@,
        ReaderProblem::IncompleteUtf8Sequence => "incomplete UTF-8 octet sequence"@,
        ReaderProblem::InvalidTrailingOctet => "invalid trailing UTF-8 octet"@,
        ReaderProblem::InvalidUtf8Length => "invalid length of a UTF-8 sequence"@,
        ReaderProblem::InvalidUnicodeCharacter => "invalid Unicode character"@,
        ReaderProblem::IncompleteUtf16Character => "incomplete UTF-16 character"@,
        ReaderProblem::UnexpectedLowSurrogate => "unexpected low surrogate area"@,
        ReaderProblem::IncompleteSurrogatePair => "incomplete UTF-16 surrogate pair"@,
        ReaderProblem::ExpectedLowSurrogate => "expected low surrogate area"@,
        ReaderProblem::ControlCharacter => "control characters are not allowed"@,
        ReaderProblem::InputError => "input error"@,
        ReaderProblem::InputTooLong => "input is too long"@,
    }
}

impl ReaderProblem {
    /// The message that describes the problem.
    pub fn message(&self) -> (r: &'static str)
        ensures
            r@ == problem_text(*self),
    {
        match self {
            ReaderProblem::InvalidLeadingOctet => "invalid leading UTF-8 octet",
            ReaderProblem::IncompleteUtf8Sequence => "incomplete UTF-8 octet sequence",
            ReaderProblem::InvalidTrailingOctet => "invalid trailing UTF-8 octet",
            ReaderProblem::InvalidUtf8Length => "invalid length of a UTF-8 sequence",
            ReaderProblem::InvalidUnicodeCharacter => "invalid Unicode character",
            ReaderProblem::IncompleteUtf16Character => "incomplete UTF-16 character",
            ReaderProblem::UnexpectedLowSurrogate => "unexpected low surrogate area",
            ReaderProblem::IncompleteSurrogatePair => "incomplete UTF-16 surrogate pair",
            ReaderProblem::ExpectedLowSurrogate => "expected low surrogate area",
            ReaderProblem::ControlCharacter => "control characters are not allowed",
            ReaderProblem::InputError => "input error",
            ReaderProblem::InputTooLong => "input is too long",
        }
    }
}

/// What decoding the front of a raw byte sequence yields.
pub enum DecodeStep {
    /// A character `value` made of the first `width` bytes.
    Char { value: int, width: int },
    /// The bytes at hand are the beginning of a character; more are needed.
    Incomplete,
    /// Decoding fails: `problem`, found `at` bytes from the front, with the
    /// offending `value` (-1 where there is none).
    Invalid { problem: ReaderProblem, at: int, value: int },
}

/// The characters that a YAML stream may contain.
pub open spec fn is_printable(v: int) -> bool {
    ||| v == 0x09
    ||| v == 0x0A
    ||| v == 0x0D
    ||| 0x20 <= v <= 0x7E
    ||| v == 0x85
    ||| 0xA0 <= v <= 0xD7FF
    ||| 0xE000 <= v <= 0xFFFD
    ||| 0x10000 <= v <= 0x10FFFF
}

/// A decoded character, or the error for one that is not printable.
pub open spec fn printable_step(value: int, width: int) -> DecodeStep {
    if is_printable(value) {
        DecodeStep::Char { value, width }
    } else {
        DecodeStep::Invalid { problem: ReaderProblem::ControlCharacter, at: 0, value }
    }
}

/// Number of bytes of the UTF-8 sequence that starts with `o` (0: none).
pub open spec fn utf8_width(o: u8) -> int {
    if o < 0x80 {
        1
    } else if 0xC0 <= o < 0xE0 {
        2
    } else if 0xE0 <= o < 0xF0 {
        3
    } else if 0xF0 <= o < 0xF8 {
        4
    } else {
        0
    }
}

pub open spec fn is_continuation(b: u8) -> bool {
    0x80 <= b < 0xC0
}

/// The code point of a UTF-8 sequence of `w` bytes at the front of `s`.
pub open spec fn utf8_value(s: Seq<u8>, w: int) -> int {
    if w == 1 {
        s[0] as int
    } else if w == 2 {
        (s[0] - 0xC0) * 64 + (s[1] - 0x80)
    } else if w == 3 {
        (s[0] - 0xE0) * 4096 + (s[1] - 0x80) * 64 + (s[2] - 0x80)
    } else {
        (s[0] - 0xF0) * 262144 + (s[1] - 0x80) * 4096 + (s[2] - 0x80) * 64 + (s[3] - 0x80)
    }
}

/// One decoding step on UTF-8 input (`s` is not empty).
pub open spec fn utf8_step(s: Seq<u8>, eof: bool) -> DecodeStep {
    let o = s[0];
    let w = utf8_width(o);
    if w == 0 {
        DecodeStep::Invalid { problem: ReaderProblem::InvalidLeadingOctet, at: 0, value: o as int }
    } else if w > s.len() {
        if eof {
            DecodeStep::Invalid { problem: ReaderProblem::IncompleteUtf8Sequence, at: 0, value: -1 }
        } else {
            DecodeStep::Incomplete
        }
    } else if w >= 2 && !is_continuation(s[1]) {
        DecodeStep::Invalid { problem: ReaderProblem::InvalidTrailingOctet, at: 1, value: s[1] as int }
    } else if w >= 3 && !is_continuation(s[2]) {
        DecodeStep::Invalid { problem: ReaderProblem::InvalidTrailingOctet, at: 2, value: s[2] as int }
    } else if w >= 4 && !is_continuation(s[3]) {
        DecodeStep::Invalid { problem: ReaderProblem::InvalidTrailingOctet, at: 3, value: s[3] as int }
    } else {
        let v = utf8_value(s, w);
        if !(w == 1 || (w == 2 && v >= 0x80) || (w == 3 && v >= 0x800) || (w == 4 && v >= 0x10000)) {
            DecodeStep::Invalid { problem: ReaderProblem::InvalidUtf8Length, at: 0, value: -1 }
        } else if (0xD800 <= v <= 0xDFFF) || v > 0x10FFFF {
            DecodeStep::Invalid { problem: ReaderProblem::InvalidUnicodeCharacter, at: 0, value: v }
        } else {
            printable_step(v, w)
        }
    }
}

/// The 16-bit code unit at `i` (and `i + 1`) of `s`.
pub open spec fn utf16_unit(s: Seq<u8>, i: int, big_endian: bool) -> int {
    if big_endian {
        s[i] * 256 + s[i + 1]
    } else {
        s[i] + s[i + 1] * 256
    }
}

/// One decoding step on UTF-16 input (`s` is not empty).
pub open spec fn utf16_step(s: Seq<u8>, eof: bool, big_endian: bool) -> DecodeStep {
    if s.len() < 2 {
        if eof {
            DecodeStep::Invalid { problem: ReaderProblem::IncompleteUtf16Character, at: 0, value: -1 }
        } else {
            DecodeStep::Incomplete
        }
    } else {
        let v = utf16_unit(s, 0, big_endian);
        if 0xDC00 <= v < 0xE000 {
            DecodeStep::Invalid { problem: ReaderProblem::UnexpectedLowSurrogate, at: 0, value: v }
        } else if 0xD800 <= v < 0xDC00 {
            if s.len() < 4 {
                if eof {
                    DecodeStep::Invalid { problem: ReaderProblem::IncompleteSurrogatePair, at: 0, value: -1 }
                } else {
                    DecodeStep::Incomplete
                }
            } else {
                let v2 = utf16_unit(s, 2, big_endian);
                if !(0xDC00 <= v2 < 0xE000) {
                    DecodeStep::Invalid { problem: ReaderProblem::ExpectedLowSurrogate, at: 2, value: v2 }
                } else {
                    printable_step(0x10000 + (v - 0xD800) * 1024 + (v2 - 0xDC00), 4)
                }
            }
        } else {
            printable_step(v, 2)
        }
    }
}

/// One decoding step at the front of `s` in encoding `enc`; `eof` tells
/// whether no byte can follow `s`.
pub open spec fn next_char(enc: yaml_encoding_t, s: Seq<u8>, eof: bool) -> DecodeStep {
    match enc {
        yaml_encoding_t::YAML_UTF8_ENCODING => utf8_step(s, eof),
        yaml_encoding_t::YAML_UTF16LE_ENCODING => utf16_step(s, eof, false),
        yaml_encoding_t::YAML_UTF16BE_ENCODING => utf16_step(s, eof, true),
        yaml_encoding_t::YAML_ANY_ENCODING => DecodeStep::Incomplete,
    }
}

/// The characters of a complete stream `s` in encoding `enc`, or `None`
/// where the reader rejects it.
pub open spec fn decode_chars(enc: yaml_encoding_t, s: Seq<u8>) -> Option<Seq<int>>
    decreases s.len(),
{
    if s.len() == 0 {
        Some(Seq::empty())
    } else {
        match next_char(enc, s, true) {
            DecodeStep::Char { value, width } => {
                if 0 < width <= s.len() {
                    match decode_chars(enc, s.skip(width)) {
                        Some(rest) => Some(seq![value] + rest),
                        None => None,
                    }
                } else {
                    None
                }
            },
            _ => None,
        }
    }
}

/// The UTF-8 encoding of the code point `v`.
pub open spec fn encode_char(v: int) -> Seq<u8> {
    if v <= 0x7F {
        seq![v as u8]
    } else if v <= 0x7FF {
        seq![(0xC0 + v / 64) as u8, (0x80 + v % 64) as u8]
    } else if v <= 0xFFFF {
        seq![(0xE0 + v / 4096) as u8, (0x80 + (v / 64) % 64) as u8, (0x80 + v % 64) as u8]
    } else {
        seq![
            (0xF0 + v / 262144) as u8,
            (0x80 + (v / 4096) % 64) as u8,
            (0x80 + (v / 64) % 64) as u8,
            (0x80 + v % 64) as u8,
        ]
    }
}

/// The UTF-8 encoding of a sequence of code points.
pub open spec fn encode_all(cs: Seq<int>) -> Seq<u8>
    decreases cs.len(),
{
    if cs.len() == 0 {
        Seq::empty()
    } else {
        encode_char(cs[0]) + encode_all(cs.drop_first())
    }
}

/// Whether `s` starts with the bytes `p`.
pub open spec fn has_prefix(s: Seq<u8>, p: Seq<u8>) -> bool {
    s.len() >= p.len() && s.take(p.len() as int) == p
}

/// The encoding that the reader detects at the start of `s`, and the length
/// of the byte order mark that it skips.
pub open spec fn detect_encoding(s: Seq<u8>) -> (yaml_encoding_t, int) {
    if has_prefix(s, seq![0xFFu8, 0xFEu8]) {
        (yaml_encoding_t::YAML_UTF16LE_ENCODING, 2)
    } else if has_prefix(s, seq![0xFEu8, 0xFFu8]) {
        (yaml_encoding_t::YAML_UTF16BE_ENCODING, 2)
    } else if has_prefix(s, seq![0xEFu8, 0xBBu8, 0xBFu8]) {
        (yaml_encoding_t::YAML_UTF8_ENCODING, 3)
    } else {
        (yaml_encoding_t::YAML_UTF8_ENCODING, 0)
    }
}

/// The encoding and the byte order mark length for a complete input `s`
/// when the encoding `requested` was asked for (detected where it is
/// `YAML_ANY_ENCODING`).
pub open spec fn input_encoding(requested: yaml_encoding_t, s: Seq<u8>) -> (yaml_encoding_t, int) {
    if requested == yaml_encoding_t::YAML_ANY_ENCODING {
        detect_encoding(s)
    } else {
        (requested, 0)
    }
}

/// What the reader makes of a complete input `s`: the UTF-8 text of its
/// characters, or `None` where it rejects the input.
pub open spec fn decode_input(requested: yaml_encoding_t, s: Seq<u8>) -> Option<Seq<u8>> {
    let (enc, bom) = input_encoding(requested, s);
    match decode_chars(enc, s.skip(bom)) {
        Some(cs) => Some(encode_all(cs)),
        None => None,
    }
}


/// Bytes past those that a step looks at do not change its result: a step
/// that is not `Incomplete` on `s` without end of input is the same step on
/// any extension of `s`.
pub proof fn lemma_step_extend(enc: yaml_encoding_t, s: Seq<u8>, t: Seq<u8>, eof: bool)
    requires
        s.len() > 0,
        !(next_char(enc, s, false) is Incomplete),
    ensures
        next_char(enc, s + t, eof) == next_char(enc, s, false),
{
    let st = s + t;
    assert(st[0] == s[0]);
    if s.len() > 1 {
        assert(st[1] == s[1]);
    }
    if s.len() > 2 {
        assert(st[2] == s[2]);
    }
    if s.len() > 3 {
        assert(st[3] == s[3]);
    }
}

/// A decoded character does not depend on whether input ends after it.
pub proof fn lemma_char_any_eof(enc: yaml_encoding_t, s: Seq<u8>, eof: bool)
    requires
        s.len() > 0,
        next_char(enc, s, eof) is Char,
    ensures
        next_char(enc, s, false) == next_char(enc, s, eof),
        next_char(enc, s, true) == next_char(enc, s, eof),
{
}

/// A character decoded at the front of `s` is the whole decoding of its own
/// bytes.
pub proof fn lemma_single_char(enc: yaml_encoding_t, s: Seq<u8>, eof: bool)
    requires
        s.len() > 0,
        next_char(enc, s, eof) is Char,
    ensures
        0 < next_char(enc, s, eof)->width <= s.len(),
        decode_chars(enc, s.take(next_char(enc, s, eof)->width)) == Some(
            seq![next_char(enc, s, eof)->Char_value],
        ),
{
    let w = next_char(enc, s, eof)->width;
    let v = next_char(enc, s, eof)->Char_value;
    lemma_char_any_eof(enc, s, eof);
    let c = s.take(w);
    assert(s == c + s.skip(w));
    lemma_step_extend(enc, c, s.skip(w), true);
    assert(c.skip(w).len() == 0);
    assert(decode_chars(enc, c.skip(w)) == Some(Seq::<int>::empty()));
    assert(seq![v] + Seq::<int>::empty() == seq![v]);
}

/// Decoding a stream that begins with a decodable part `a` decodes `a`, then
/// the rest.
pub proof fn lemma_decode_append(enc: yaml_encoding_t, a: Seq<u8>, b: Seq<u8>)
    requires
        decode_chars(enc, a) is Some,
    ensures
        decode_chars(enc, a + b) == (match decode_chars(enc, b) {
            Some(y) => Some(decode_chars(enc, a).unwrap() + y),
            None => None::<Seq<int>>,
        }),
    decreases a.len(),
{
    if a.len() == 0 {
        assert(a + b == b);
        assert(Seq::<int>::empty() + decode_chars(enc, b).unwrap_or(Seq::empty()) == decode_chars(
            enc,
            b,
        ).unwrap_or(Seq::empty()));
    } else {
        let w = next_char(enc, a, true)->width;
        lemma_char_any_eof(enc, a, true);
        lemma_step_extend(enc, a, b, true);
        assert((a + b).skip(w) == a.skip(w) + b);
        lemma_decode_append(enc, a.skip(w), b);
        let x = decode_chars(enc, a).unwrap();
        let v = next_char(enc, a, true)->Char_value;
        match decode_chars(enc, b) {
            Some(y) => {
                let r = decode_chars(enc, a.skip(w)).unwrap();
                assert(seq![v] + (r + y) == (seq![v] + r) + y);
            },
            None => {},
        }
    }
}

/// Writing one more code point appends its encoding.
pub proof fn lemma_encode_push(cs: Seq<int>, c: int)
    ensures
        encode_all(cs.push(c)) == encode_all(cs) + encode_char(c),
    decreases cs.len(),
{
    if cs.len() == 0 {
        assert(cs.push(c).drop_first() == Seq::<int>::empty());
        assert(encode_char(c) + Seq::<u8>::empty() == encode_char(c));
        assert(encode_all(cs) == Seq::<u8>::empty());
        assert(Seq::<u8>::empty() + encode_char(c) == encode_char(c));
        assert(cs.push(c)[0] == c);
        assert(encode_all(Seq::<int>::empty()) == Seq::<u8>::empty());
        assert(encode_all(cs.push(c)) == encode_char(c) + encode_all(cs.push(c).drop_first()));
    } else {
        assert(cs.push(c)[0] == cs[0]);
        assert(cs.push(c).drop_first() == cs.drop_first().push(c));
        lemma_encode_push(cs.drop_first(), c);
        assert(encode_all(cs.push(c)) == encode_char(cs[0]) + encode_all(cs.push(c).drop_first()));
        assert(encode_char(cs[0]) + (encode_all(cs.drop_first()) + encode_char(c)) == (encode_char(
            cs[0],
        ) + encode_all(cs.drop_first())) + encode_char(c));
    }
}

/// Detection looks at no more than the first three bytes.
pub proof fn lemma_detect_extend(s: Seq<u8>, t: Seq<u8>)
    requires
        s.len() >= 3,
    ensures
        detect_encoding(s + t) == detect_encoding(s),
{
    let st = s + t;
    assert(st.take(2) == s.take(2));
    assert(st.take(3) == s.take(3));
}


/// The UTF-8 bytes of a character decoded from UTF-8 input are the bytes it
/// was decoded from.
pub proof fn lemma_utf8_char_roundtrip(s: Seq<u8>, eof: bool)
    requires
        s.len() > 0,
        utf8_step(s, eof) is Char,
    ensures
        encode_char(utf8_step(s, eof)->Char_value) == s.take(utf8_step(s, eof)->width),
{
    let w = utf8_step(s, eof)->width;
    let v = utf8_step(s, eof)->Char_value;
    if w == 1 {
        assert(encode_char(v) == s.take(1));
    } else if w == 2 {
        let a = s[0] - 0xC0;
        let b = s[1] - 0x80;
        vstd::arithmetic::div_mod::lemma_fundamental_div_mod_converse(v, 64, a, b);
        assert(encode_char(v) == s.take(2));
    } else if w == 3 {
        let a = s[0] - 0xE0;
        let b = s[1] - 0x80;
        let c = s[2] - 0x80;
        vstd::arithmetic::div_mod::lemma_fundamental_div_mod_converse(v, 4096, a, b * 64 + c);
        vstd::arithmetic::div_mod::lemma_fundamental_div_mod_converse(v, 64, a * 64 + b, c);
        vstd::arithmetic::div_mod::lemma_fundamental_div_mod_converse(a * 64 + b, 64, a, b);
        assert(encode_char(v) == s.take(3));
    } else {
        let a = s[0] - 0xF0;
        let b = s[1] - 0x80;
        let c = s[2] - 0x80;
        let d = s[3] - 0x80;
        vstd::arithmetic::div_mod::lemma_fundamental_div_mod_converse(
            v,
            262144,
            a,
            b * 4096 + c * 64 + d,
        );
        vstd::arithmetic::div_mod::lemma_fundamental_div_mod_converse(v, 4096, a * 64 + b, c * 64 + d);
        vstd::arithmetic::div_mod::lemma_fundamental_div_mod_converse(a * 64 + b, 64, a, b);
        vstd::arithmetic::div_mod::lemma_fundamental_div_mod_converse(
            v,
            64,
            a * 4096 + b * 64 + c,
            d,
        );
        vstd::arithmetic::div_mod::lemma_fundamental_div_mod_converse(
            a * 4096 + b * 64 + c,
            64,
            a * 64 + b,
            c,
        );
        assert(encode_char(v) == s.take(4));
    }
}

/// UTF-8 input that the reader accepts is written out unchanged.
pub proof fn lemma_utf8_roundtrip(s: Seq<u8>)
    requires
        decode_chars(yaml_encoding_t::YAML_UTF8_ENCODING, s) is Some,
    ensures
        encode_all(decode_chars(yaml_encoding_t::YAML_UTF8_ENCODING, s).unwrap()) == s,
    decreases s.len(),
{
    let enc = yaml_encoding_t::YAML_UTF8_ENCODING;
    if s.len() > 0 {
        let w = next_char(enc, s, true)->width;
        let v = next_char(enc, s, true)->Char_value;
        lemma_utf8_char_roundtrip(s, true);
        lemma_utf8_roundtrip(s.skip(w));
        let cs = decode_chars(enc, s).unwrap();
        let rest = decode_chars(enc, s.skip(w)).unwrap();
        assert(cs == seq![v] + rest);
        assert(cs[0] == v);
        assert(cs.drop_first() == rest);
        assert(s == s.take(w) + s.skip(w));
    }
}


/// The UTF-16 code unit `u` as two bytes in the given byte order.
pub open spec fn utf16_unit_bytes(u: int, big_endian: bool) -> Seq<u8> {
    if big_endian {
        seq![(u / 256) as u8, (u % 256) as u8]
    } else {
        seq![(u % 256) as u8, (u / 256) as u8]
    }
}

/// The UTF-16 encoding of the code point `c`: one code unit below 0x10000,
/// else a high surrogate and a low surrogate.
pub open spec fn encode_utf16_char(c: int, big_endian: bool) -> Seq<u8> {
    if c < 0x10000 {
        utf16_unit_bytes(c, big_endian)
    } else {
        utf16_unit_bytes(0xD800 + (c - 0x10000) / 1024, big_endian) + utf16_unit_bytes(
            0xDC00 + (c - 0x10000) % 1024,
            big_endian,
        )
    }
}

/// The encoding of one code point in the encoding `enc` (UTF-8 for any).
pub open spec fn encode_char_in(enc: yaml_encoding_t, c: int) -> Seq<u8> {
    match enc {
        yaml_encoding_t::YAML_UTF16LE_ENCODING => encode_utf16_char(c, false),
        yaml_encoding_t::YAML_UTF16BE_ENCODING => encode_utf16_char(c, true),
        _ => encode_char(c),
    }
}

/// The encoding of a sequence of code points in the encoding `enc`.
pub open spec fn encode_text(enc: yaml_encoding_t, cs: Seq<int>) -> Seq<u8>
    decreases cs.len(),
{
    if cs.len() == 0 {
        Seq::empty()
    } else {
        encode_char_in(enc, cs[0]) + encode_text(enc, cs.drop_first())
    }
}

/// The UTF-8 bytes of a Unicode scalar value decode back to it, whatever
/// follows them.
proof fn lemma_utf8_encoded_char(c: int, rest: Seq<u8>, eof: bool)
    requires
        0 <= c <= 0x10FFFF,
        !(0xD800 <= c <= 0xDFFF),
    ensures
        utf8_step(encode_char(c) + rest, eof) == printable_step(c, encode_char(c).len() as int),
{
    let e = encode_char(c);
    let s = e + rest;
    vstd::arithmetic::div_mod::lemma_fundamental_div_mod(c, 64);
    if c <= 0x7F {
        assert(s[0] == e[0]);
    } else if c <= 0x7FF {
        let q = c / 64;
        let r = c % 64;
        assert(2 <= q <= 31);
        assert(s[0] == e[0] && s[1] == e[1]);
        assert(s[0] == 0xC0 + q);
        assert(s[1] == 0x80 + r);
        assert(utf8_value(s, 2) == c);
    } else if c <= 0xFFFF {
        let a = c / 64;
        let r = c % 64;
        vstd::arithmetic::div_mod::lemma_fundamental_div_mod(a, 64);
        vstd::arithmetic::div_mod::lemma_div_denominator(c, 64, 64);
        let q = c / 4096;
        let b = a % 64;
        assert(a == 64 * q + b);
        assert(c == 4096 * q + 64 * b + r);
        assert(0 <= q <= 15);
        assert(s[0] == e[0] && s[1] == e[1] && s[2] == e[2]);
        assert(s[0] == 0xE0 + q);
        assert(s[1] == 0x80 + b);
        assert(s[2] == 0x80 + r);
        assert(utf8_value(s, 3) == c);
    } else {
        let a = c / 64;
        let r = c % 64;
        vstd::arithmetic::div_mod::lemma_fundamental_div_mod(a, 64);
        vstd::arithmetic::div_mod::lemma_div_denominator(c, 64, 64);
        let d = c / 4096;
        let b = a % 64;
        vstd::arithmetic::div_mod::lemma_fundamental_div_mod(d, 64);
        vstd::arithmetic::div_mod::lemma_div_denominator(c, 4096, 64);
        let q = c / 262144;
        let b2 = d % 64;
        assert(a == 64 * d + b);
        assert(d == 64 * q + b2);
        assert(c == 262144 * q + 4096 * b2 + 64 * b + r);
        assert(0 <= q <= 4);
        assert(s[0] == e[0] && s[1] == e[1] && s[2] == e[2] && s[3] == e[3]);
        assert(s[0] == 0xF0 + q);
        assert(s[1] == 0x80 + b2);
        assert(s[2] == 0x80 + b);
        assert(s[3] == 0x80 + r);
        assert(utf8_value(s, 4) == c);
    }
}

/// The two bytes of a code unit are read back as that unit.
proof fn lemma_utf16_unit_bytes(u: int, s: Seq<u8>, i: int, big_endian: bool)
    requires
        0 <= u <= 0xFFFF,
        0 <= i,
        i + 2 <= s.len(),
        s.subrange(i, i + 2) == utf16_unit_bytes(u, big_endian),
    ensures
        utf16_unit(s, i, big_endian) == u,
{
    vstd::arithmetic::div_mod::lemma_fundamental_div_mod(u, 256);
    assert(s[i] == s.subrange(i, i + 2)[0]);
    assert(s[i + 1] == s.subrange(i, i + 2)[1]);
}

/// The UTF-16 bytes of a Unicode scalar value decode back to it, whatever
/// follows them.
proof fn lemma_utf16_encoded_char(c: int, rest: Seq<u8>, eof: bool, big_endian: bool)
    requires
        0 <= c <= 0x10FFFF,
        !(0xD800 <= c <= 0xDFFF),
    ensures
        utf16_step(encode_utf16_char(c, big_endian) + rest, eof, big_endian) == printable_step(
            c,
            encode_utf16_char(c, big_endian).len() as int,
        ),
{
    let e = encode_utf16_char(c, big_endian);
    let s = e + rest;
    if c < 0x10000 {
        assert(s.subrange(0, 2) =~= e);
        lemma_utf16_unit_bytes(c, s, 0, big_endian);
    } else {
        let x = c - 0x10000;
        vstd::arithmetic::div_mod::lemma_fundamental_div_mod(x, 1024);
        let hi = 0xD800 + x / 1024;
        let lo = 0xDC00 + x % 1024;
        assert(0xD800 <= hi < 0xDC00);
        assert(0xDC00 <= lo < 0xE000);
        assert(s.subrange(0, 2) =~= utf16_unit_bytes(hi, big_endian));
        assert(s.subrange(2, 4) =~= utf16_unit_bytes(lo, big_endian));
        lemma_utf16_unit_bytes(hi, s, 0, big_endian);
        lemma_utf16_unit_bytes(lo, s, 2, big_endian);
        assert(0x10000 + (hi - 0xD800) * 1024 + (lo - 0xDC00) == c);
    }
}

/// Every character that YAML allows in a stream (its printable set: tab,
/// line feed, carriage return, the printable ASCII characters, next line,
/// and the code points from 0xA0 up but for the surrogates, 0xFFFE and
/// 0xFFFF), written in UTF-8, UTF-16LE or UTF-16BE, decodes back to itself:
/// the reader accepts any text of such characters and reads it unchanged.
pub proof fn lemma_printable_text_decodes(enc: yaml_encoding_t, cs: Seq<int>)
    requires
        enc != yaml_encoding_t::YAML_ANY_ENCODING,
        forall|i: int|
            0 <= i < cs.len() ==> {
                let c = #[trigger] cs[i];
                ||| c == 0x09
                ||| c == 0x0A
                ||| c == 0x0D
                ||| 0x20 <= c <= 0x7E
                ||| c == 0x85
                ||| 0xA0 <= c <= 0xD7FF
                ||| 0xE000 <= c <= 0xFFFD
                ||| 0x10000 <= c <= 0x10FFFF
            },
    ensures
        decode_chars(enc, encode_text(enc, cs)) == Some(cs),
    decreases cs.len(),
{
    if cs.len() == 0 {
        assert(encode_text(enc, cs) =~= Seq::<u8>::empty());
    } else {
        let c = cs[0];
        let e = encode_char_in(enc, c);
        let tail = cs.drop_first();
        let rest = encode_text(enc, tail);
        let s = encode_text(enc, cs);
        assert(s == e + rest);
        match enc {
            yaml_encoding_t::YAML_UTF8_ENCODING => lemma_utf8_encoded_char(c, rest, true),
            yaml_encoding_t::YAML_UTF16LE_ENCODING => lemma_utf16_encoded_char(c, rest, true, false),
            _ => lemma_utf16_encoded_char(c, rest, true, true),
        }
        assert(next_char(enc, s, true) == DecodeStep::Char { value: c, width: e.len() as int });
        assert(s.skip(e.len() as int) =~= rest);
        assert forall|i: int| 0 <= i < tail.len() implies {
            let d = #[trigger] tail[i];
            ||| d == 0x09
            ||| d == 0x0A
            ||| d == 0x0D
            ||| 0x20 <= d <= 0x7E
            ||| d == 0x85
            ||| 0xA0 <= d <= 0xD7FF
            ||| 0xE000 <= d <= 0xFFFD
            ||| 0x10000 <= d <= 0x10FFFF
        } by {
            assert(tail[i] == cs[i + 1]);
        }
        lemma_printable_text_decodes(enc, tail);
        assert(seq![c] + tail =~= cs);
    }
}

/// Bytes below 0x80 are their own UTF-8 encoding.
proof fn lemma_ascii_encoding(s: Seq<u8>)
    requires
        forall|i: int| 0 <= i < s.len() ==> #[trigger] s[i] < 0x80,
    ensures
        encode_text(yaml_encoding_t::YAML_UTF8_ENCODING, Seq::new(s.len(), |i: int| s[i] as int))
            == s,
    decreases s.len(),
{
    let cs = Seq::new(s.len(), |i: int| s[i] as int);
    if s.len() > 0 {
        let t = s.drop_first();
        assert forall|i: int| 0 <= i < t.len() implies #[trigger] t[i] < 0x80 by {
            assert(t[i] == s[i + 1]);
        }
        lemma_ascii_encoding(t);
        assert(cs.drop_first() =~= Seq::new(t.len(), |i: int| t[i] as int));
        assert(encode_char(cs[0]) =~= seq![s[0]]);
        assert(seq![s[0]] + t =~= s);
    } else {
        assert(s =~= Seq::<u8>::empty());
    }
}

/// A stream of printable ASCII characters, tabs, line feeds and carriage
/// returns is read as it is, whether its encoding is detected or given as
/// UTF-8: no byte of it is refused.
pub proof fn lemma_plain_text_reads_unchanged(requested: yaml_encoding_t, s: Seq<u8>)
    requires
        requested == yaml_encoding_t::YAML_ANY_ENCODING || requested
            == yaml_encoding_t::YAML_UTF8_ENCODING,
        forall|i: int|
            0 <= i < s.len() ==> {
                let b = #[trigger] s[i];
                b == 0x09 || b == 0x0A || b == 0x0D || 0x20 <= b <= 0x7E
            },
    ensures
        decode_chars(yaml_encoding_t::YAML_UTF8_ENCODING, s) == Some(
            Seq::new(s.len(), |i: int| s[i] as int),
        ),
        decode_input(requested, s) == Some(s),
{
    let enc = yaml_encoding_t::YAML_UTF8_ENCODING;
    let cs = Seq::new(s.len(), |i: int| s[i] as int);
    assert forall|i: int| 0 <= i < s.len() implies #[trigger] s[i] < 0x80 by {
        let b = s[i];
    }
    lemma_ascii_encoding(s);
    assert forall|i: int| 0 <= i < cs.len() implies {
        let c = #[trigger] cs[i];
        ||| c == 0x09
        ||| c == 0x0A
        ||| c == 0x0D
        ||| 0x20 <= c <= 0x7E
        ||| c == 0x85
        ||| 0xA0 <= c <= 0xD7FF
        ||| 0xE000 <= c <= 0xFFFD
        ||| 0x10000 <= c <= 0x10FFFF
    } by {
        let b = s[i];
    }
    lemma_printable_text_decodes(enc, cs);
    assert(input_encoding(requested, s) == (enc, 0int)) by {
        if s.len() >= 2 {
            assert(s.take(2)[0] == s[0]);
        }
        if s.len() >= 3 {
            assert(s.take(3)[0] == s[0]);
        }
    }
    assert(s.skip(0) =~= s);
    lemma_utf8_roundtrip(s);
}

/// A Unicode scalar value that YAML does not allow in a stream (a control
/// character other than tab, line feed, carriage return and next line, or
/// 0xFFFE or 0xFFFF), written in UTF-8, UTF-16LE or UTF-16BE, stops the
/// reader as a control character, with its value, whatever follows it.
pub proof fn lemma_non_printable_refused(enc: yaml_encoding_t, c: int, rest: Seq<u8>, eof: bool)
    requires
        enc != yaml_encoding_t::YAML_ANY_ENCODING,
        0 <= c <= 0x10FFFF,
        !(0xD800 <= c <= 0xDFFF),
        !(c == 0x09 || c == 0x0A || c == 0x0D || 0x20 <= c <= 0x7E || c == 0x85 || 0xA0 <= c
            <= 0xD7FF || 0xE000 <= c <= 0xFFFD || 0x10000 <= c),
    ensures
        next_char(enc, encode_char_in(enc, c) + rest, eof) == (DecodeStep::Invalid {
            problem: ReaderProblem::ControlCharacter,
            at: 0,
            value: c,
        }),
{
    match enc {
        yaml_encoding_t::YAML_UTF8_ENCODING => lemma_utf8_encoded_char(c, rest, eof),
        yaml_encoding_t::YAML_UTF16LE_ENCODING => lemma_utf16_encoded_char(c, rest, eof, false),
        _ => lemma_utf16_encoded_char(c, rest, eof, true),
    }
}

/// The bytes of a character decoded from UTF-16 input are its UTF-16
/// encoding: each accepted character has one spelling only.
pub proof fn lemma_utf16_char_roundtrip(s: Seq<u8>, eof: bool, big_endian: bool)
    requires
        s.len() > 0,
        utf16_step(s, eof, big_endian) is Char,
    ensures
        encode_utf16_char(utf16_step(s, eof, big_endian)->Char_value, big_endian) == s.take(
            utf16_step(s, eof, big_endian)->width,
        ),
{
    let w = utf16_step(s, eof, big_endian)->width;
    let v = utf16_step(s, eof, big_endian)->Char_value;
    if w == 2 {
        if big_endian {
            vstd::arithmetic::div_mod::lemma_fundamental_div_mod_converse(v, 256, s[0] as int, s[1] as int);
        } else {
            vstd::arithmetic::div_mod::lemma_fundamental_div_mod_converse(v, 256, s[1] as int, s[0] as int);
        }
        assert(encode_utf16_char(v, big_endian) =~= s.take(2));
    } else {
        let hi = utf16_unit(s, 0, big_endian);
        let lo = utf16_unit(s, 2, big_endian);
        vstd::arithmetic::div_mod::lemma_fundamental_div_mod_converse(
            v - 0x10000,
            1024,
            hi - 0xD800,
            lo - 0xDC00,
        );
        if big_endian {
            vstd::arithmetic::div_mod::lemma_fundamental_div_mod_converse(hi, 256, s[0] as int, s[1] as int);
            vstd::arithmetic::div_mod::lemma_fundamental_div_mod_converse(lo, 256, s[2] as int, s[3] as int);
        } else {
            vstd::arithmetic::div_mod::lemma_fundamental_div_mod_converse(hi, 256, s[1] as int, s[0] as int);
            vstd::arithmetic::div_mod::lemma_fundamental_div_mod_converse(lo, 256, s[3] as int, s[2] as int);
        }
        assert(encode_utf16_char(v, big_endian) =~= s.take(4));
    }
}

/// The outcome of decoding one character, as the reader computes it.
pub enum Step {
    Char { code: u32, width: usize },
    Incomplete,
    Invalid { problem: ReaderProblem, at: usize, value: i32 },
}

impl View for Step {
    type V = DecodeStep;

    open spec fn view(&self) -> DecodeStep {
        match *self {
            Step::Char { code, width } => DecodeStep::Char { value: code as int, width: width as int },
            Step::Incomplete => DecodeStep::Incomplete,
            Step::Invalid { problem, at, value } => DecodeStep::Invalid {
                problem,
                at: at as int,
                value: value as int,
            },
        }
    }
}

/// Whether `v` is a character that a YAML stream may contain.
pub fn is_printable_char(v: u32) -> (r: bool)
    ensures
        r == is_printable(v as int),
{
    v == 0x09 || v == 0x0A || v == 0x0D || (0x20 <= v && v <= 0x7E) || v == 0x85 || (0xA0 <= v && v
        <= 0xD7FF) || (0xE000 <= v && v <= 0xFFFD) || (0x10000 <= v && v <= 0x10FFFF)
}

fn printable_char(value: u32, width: usize) -> (r: Step)
    requires
        value <= 0x7fff_ffff,
    ensures
        r@ == printable_step(value as int, width as int),
{
    if is_printable_char(value) {
        Step::Char { code: value, width }
    } else {
        Step::Invalid { problem: ReaderProblem::ControlCharacter, at: 0, value: value as i32 }
    }
}

fn decode_utf8(raw: &[u8], start: usize, eof: bool) -> (r: Step)
    requires
        start < raw@.len(),
    ensures
        r@ == utf8_step(raw@.skip(start as int), eof),
{
    let ghost s = raw@.skip(start as int);
    let avail = raw.len() - start;
    let o = raw[start];
    assert(s[0] == o);
    let w: usize = if o < 0x80 {
        1
    } else if 0xC0 <= o && o < 0xE0 {
        2
    } else if 0xE0 <= o && o < 0xF0 {
        3
    } else if 0xF0 <= o && o < 0xF8 {
        4
    } else {
        0
    };
    if w == 0 {
        return Step::Invalid { problem: ReaderProblem::InvalidLeadingOctet, at: 0, value: o as i32 };
    }
    if w > avail {
        if eof {
            return Step::Invalid { problem: ReaderProblem::IncompleteUtf8Sequence, at: 0, value: -1 };
        } else {
            return Step::Incomplete;
        }
    }
    let mut value: u32 = if w == 1 {
        o as u32
    } else if w == 2 {
        o as u32 - 0xC0
    } else if w == 3 {
        o as u32 - 0xE0
    } else {
        o as u32 - 0xF0
    };
    if w >= 2 {
        let b = raw[start + 1];
        assert(s[1] == b);
        if !(0x80 <= b && b < 0xC0) {
            return Step::Invalid { problem: ReaderProblem::InvalidTrailingOctet, at: 1, value: b as i32 };
        }
        value = value * 64 + (b as u32 - 0x80);
    }
    if w >= 3 {
        let b = raw[start + 2];
        assert(s[2] == b);
        if !(0x80 <= b && b < 0xC0) {
            return Step::Invalid { problem: ReaderProblem::InvalidTrailingOctet, at: 2, value: b as i32 };
        }
        value = value * 64 + (b as u32 - 0x80);
    }
    if w >= 4 {
        let b = raw[start + 3];
        assert(s[3] == b);
        if !(0x80 <= b && b < 0xC0) {
            return Step::Invalid { problem: ReaderProblem::InvalidTrailingOctet, at: 3, value: b as i32 };
        }
        value = value * 64 + (b as u32 - 0x80);
    }
    assert(value == utf8_value(s, w as int));
    if !(w == 1 || (w == 2 && value >= 0x80) || (w == 3 && value >= 0x800) || (w == 4 && value
        >= 0x10000)) {
        return Step::Invalid { problem: ReaderProblem::InvalidUtf8Length, at: 0, value: -1 };
    }
    if (0xD800 <= value && value <= 0xDFFF) || value > 0x10FFFF {
        return Step::Invalid {
            problem: ReaderProblem::InvalidUnicodeCharacter,
            at: 0,
            value: value as i32,
        };
    }
    printable_char(value, w)
}

fn decode_utf16(raw: &[u8], start: usize, eof: bool, big_endian: bool) -> (r: Step)
    requires
        start < raw@.len(),
    ensures
        r@ == utf16_step(raw@.skip(start as int), eof, big_endian),
{
    let ghost s = raw@.skip(start as int);
    let avail = raw.len() - start;
    if avail < 2 {
        if eof {
            return Step::Invalid { problem: ReaderProblem::IncompleteUtf16Character, at: 0, value: -1 };
        } else {
            return Step::Incomplete;
        }
    }
    let b0 = raw[start] as u32;
    let b1 = raw[start + 1] as u32;
    assert(s[0] == b0 && s[1] == b1);
    let value: u32 = if big_endian {
        b0 * 256 + b1
    } else {
        b0 + b1 * 256
    };
    if 0xDC00 <= value && value < 0xE000 {
        return Step::Invalid {
            problem: ReaderProblem::UnexpectedLowSurrogate,
            at: 0,
            value: value as i32,
        };
    }
    if 0xD800 <= value && value < 0xDC00 {
        if avail < 4 {
            if eof {
                return Step::Invalid {
                    problem: ReaderProblem::IncompleteSurrogatePair,
                    at: 0,
                    value: -1,
                };
            } else {
                return Step::Incomplete;
            }
        }
        let b2 = raw[start + 2] as u32;
        let b3 = raw[start + 3] as u32;
        assert(s[2] == b2 && s[3] == b3);
        let value2: u32 = if big_endian {
            b2 * 256 + b3
        } else {
            b2 + b3 * 256
        };
        if !(0xDC00 <= value2 && value2 < 0xE000) {
            return Step::Invalid {
                problem: ReaderProblem::ExpectedLowSurrogate,
                at: 2,
                value: value2 as i32,
            };
        }
        return printable_char(0x10000 + (value - 0xD800) * 1024 + (value2 - 0xDC00), 4);
    }
    printable_char(value, 2)
}

/// Decodes the character at `start` in `raw` in encoding `enc`.
pub fn decode_next(enc: yaml_encoding_t, raw: &[u8], start: usize, eof: bool) -> (r: Step)
    requires
        start < raw@.len(),
        enc != yaml_encoding_t::YAML_ANY_ENCODING,
    ensures
        r@ == next_char(enc, raw@.skip(start as int), eof),
{
    match enc {
        yaml_encoding_t::YAML_UTF8_ENCODING => decode_utf8(raw, start, eof),
        yaml_encoding_t::YAML_UTF16LE_ENCODING => decode_utf16(raw, start, eof, false),
        yaml_encoding_t::YAML_UTF16BE_ENCODING => decode_utf16(raw, start, eof, true),
        yaml_encoding_t::YAML_ANY_ENCODING => Step::Incomplete,
    }
}

/// Appends the UTF-8 encoding of `value` to `out`.
pub fn push_utf8(out: &mut Vec<u8>, value: u32)
    requires
        value <= 0x10FFFF,
    ensures
        final(out)@ == old(out)@ + encode_char(value as int),
{
    let v = value;
    if v <= 0x7F {
        out.push(v as u8);
    } else if v <= 0x7FF {
        out.push((0xC0 + v / 64) as u8);
        out.push((0x80 + v % 64) as u8);
    } else if v <= 0xFFFF {
        out.push((0xE0 + v / 4096) as u8);
        out.push((0x80 + (v / 64) % 64) as u8);
        out.push((0x80 + v % 64) as u8);
    } else {
        out.push((0xF0 + v / 262144) as u8);
        out.push((0x80 + (v / 4096) % 64) as u8);
        out.push((0x80 + (v / 64) % 64) as u8);
        out.push((0x80 + v % 64) as u8);
    }
}


/// A step is `Incomplete` only before the end of input, on fewer than four
/// bytes.
pub proof fn lemma_incomplete_short(enc: yaml_encoding_t, s: Seq<u8>, eof: bool)
    requires
        enc != yaml_encoding_t::YAML_ANY_ENCODING,
        s.len() > 0,
        next_char(enc, s, eof) is Incomplete,
    ensures
        !eof,
        s.len() < 4,
{
}

/// A character is one to four bytes of input, and a code point that UTF-8
/// can write.
pub proof fn lemma_char_bounds(enc: yaml_encoding_t, s: Seq<u8>, eof: bool)
    requires
        s.len() > 0,
        next_char(enc, s, eof) is Char,
    ensures
        1 <= next_char(enc, s, eof)->width <= 4,
        next_char(enc, s, eof)->width <= s.len(),
        0 <= next_char(enc, s, eof)->Char_value <= 0x10FFFF,
{
}

/// A failing step points at one of the first four bytes.
pub proof fn lemma_invalid_bounds(enc: yaml_encoding_t, s: Seq<u8>, eof: bool)
    requires
        s.len() > 0,
        next_char(enc, s, eof) is Invalid,
    ensures
        0 <= next_char(enc, s, eof)->at <= 3,
{
}

/// Each code point takes at least one byte of UTF-8.
pub proof fn lemma_encode_len(cs: Seq<int>)
    ensures
        encode_all(cs).len() >= cs.len(),
    decreases cs.len(),
{
    if cs.len() > 0 {
        lemma_encode_len(cs.drop_first());
    }
}

/// Decoding one more character of the pending bytes `p` after the already
/// decoded bytes `done` decodes to one more code point.
pub proof fn lemma_consume_char(
    enc: yaml_encoding_t,
    done: Seq<u8>,
    cs: Seq<int>,
    p: Seq<u8>,
    eof: bool,
)
    requires
        decode_chars(enc, done) == Some(cs),
        p.len() > 0,
        next_char(enc, p, eof) is Char,
    ensures
        decode_chars(enc, done + p.take(next_char(enc, p, eof)->width)) == Some(
            cs.push(next_char(enc, p, eof)->Char_value),
        ),
        p.take(next_char(enc, p, eof)->width) + p.skip(next_char(enc, p, eof)->width) == p,
{
    let w = next_char(enc, p, eof)->width;
    let v = next_char(enc, p, eof)->Char_value;
    lemma_single_char(enc, p, eof);
    lemma_decode_append(enc, done, p.take(w));
    assert(cs + seq![v] == cs.push(v));
    assert(p.take(w) + p.skip(w) == p);
}

/// A step that fails on the pending bytes `p` makes the whole input fail,
/// whatever follows `p` (nothing follows where `eof` holds).
pub proof fn lemma_invalid_rejects(
    enc: yaml_encoding_t,
    done: Seq<u8>,
    p: Seq<u8>,
    rest: Seq<u8>,
    eof: bool,
)
    requires
        decode_chars(enc, done) is Some,
        p.len() > 0,
        next_char(enc, p, eof) is Invalid,
        eof ==> rest.len() == 0,
    ensures
        decode_chars(enc, done + p + rest) is None,
{
    lemma_decode_append(enc, done, p + rest);
    assert(done + p + rest == done + (p + rest));
    if eof {
        assert(p + rest == p);
    } else {
        lemma_step_extend(enc, p, rest, true);
    }
}

} // verus!
