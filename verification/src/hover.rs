use vstd::prelude::*;
use vstd::string::StringSliceAdditionalSpecFns;

use vstd::arithmetic::div_mod::lemma_div_decreases;
use vstd::utf8::{encode_utf8, encode_utf8_valid_utf8, is_continuation_byte};

use crate::text::{
    all_ascii_chars, ascii_bytes, bin, dec, digit_value, digits, hex, lemma_after_ascii,
    lemma_digits_shape, lemma_digits_value_roundtrip, lemma_encode_ascii, lemma_encode_concat, lemma_encode_push, padded_digits, parse_u64, parse_u64_spec,
    push_char, push_padded, push_str,
    str_slice, string_of,
};

verus! {

/// The byte at `i`, if there is one.
pub open spec fn byte_at(b: Seq<u8>, i: int) -> Option<u8> {
    if 0 <= i < b.len() {
        Some(b[i])
    } else {
        None
    }
}

/// An ASCII letter or digit, or `_`.
pub open spec fn is_identifier_byte(c: u8) -> bool {
    (0x30 <= c <= 0x39) || (0x41 <= c <= 0x5a) || (0x61 <= c <= 0x7a) || c == 0x5f
}

/// Whether a character can be part of an identifier: an ASCII letter or
/// digit, or `_`.
pub fn is_identifier_char(ch: char) -> (res: bool)
    ensures
        res == ((ch as u32) < 0x80 && is_identifier_byte(ch as u8)),
{
    let c = ch as u32;
    (0x30 <= c && c <= 0x39) || (0x41 <= c && c <= 0x5a) || (0x61 <= c && c <= 0x7a) || c == 0x5f
}

fn is_identifier_byte_exec(c: u8) -> (res: bool)
    ensures
        res == is_identifier_byte(c),
{
    (0x30 <= c && c <= 0x39) || (0x41 <= c && c <= 0x5a) || (0x61 <= c && c <= 0x7a) || c == 0x5f
}

/// Where a run of digits of base `radix` (apostrophes allowed between
/// them) starting at `i` ends.
pub open spec fn digits_end(b: Seq<u8>, i: int, radix: nat) -> int
    decreases b.len() - i,
{
    if 0 <= i < b.len() && (b[i] == 0x27 || digit_value(b[i], radix) is Some) {
        digits_end(b, i + 1, radix)
    } else {
        i
    }
}

/// The integer suffix letters `u`, `l` and `z` in either case.
pub open spec fn is_integer_suffix(c: u8) -> bool {
    c == 0x75 || c == 0x55 || c == 0x6c || c == 0x4c || c == 0x7a || c == 0x5a
}

/// Where a run of integer suffix letters starting at `i` ends.
pub open spec fn suffix_end(b: Seq<u8>, i: int) -> int
    decreases b.len() - i,
{
    if 0 <= i < b.len() && is_integer_suffix(b[i]) {
        suffix_end(b, i + 1)
    } else {
        i
    }
}

/// Whether `c` is one of two letters.
pub open spec fn is_either(c: Option<u8>, x: u8, y: u8) -> bool {
    c == Some(x) || c == Some(y)
}

/// Where the decimal part of a literal (digits, an optional fraction and an
/// optional exponent) that starts at `start` ends, and whether it is a
/// floating-point literal.
pub open spec fn decimal_end(b: Seq<u8>, start: int) -> (int, bool) {
    let i1 = digits_end(b, start, 10);
    let f0 = 0 <= start < b.len() && b[start] == 0x2e;
    let (i2, f1) = if byte_at(b, i1) == Some(0x2eu8) {
        (digits_end(b, i1 + 1, 10), true)
    } else {
        (i1, f0)
    };
    if is_either(byte_at(b, i2), 0x65, 0x45) {
        let j = if is_either(byte_at(b, i2 + 1), 0x2b, 0x2d) {
            i2 + 2
        } else {
            i2 + 1
        };
        let e = digits_end(b, j, 10);
        if e > j {
            (e, true)
        } else {
            (i2, f1)
        }
    } else {
        (i2, f1)
    }
}

/// Where a numeric literal that starts at `start` ends: `0x` and
/// hexadecimal digits or `0b` and binary digits, each with integer
/// suffixes; or decimal digits with an optional fraction and exponent,
/// followed by integer suffixes for an integer or one of `f`, `F`, `l`,
/// `L` for a floating-point number.
pub open spec fn literal_end(b: Seq<u8>, start: int) -> int {
    if byte_at(b, start) == Some(0x30u8) && is_either(byte_at(b, start + 1), 0x78, 0x58) {
        suffix_end(b, digits_end(b, start + 2, 16))
    } else if byte_at(b, start) == Some(0x30u8) && is_either(byte_at(b, start + 1), 0x62, 0x42) {
        suffix_end(b, digits_end(b, start + 2, 2))
    } else {
        let (i, is_float) = decimal_end(b, start);
        if is_float {
            if byte_at(b, i) == Some(0x66u8) || byte_at(b, i) == Some(0x46u8) || byte_at(b, i)
                == Some(0x6cu8) || byte_at(b, i) == Some(0x4cu8) {
                i + 1
            } else {
                i
            }
        } else {
            suffix_end(b, i)
        }
    }
}

/// All bytes in `[i, j)` are ASCII.
pub open spec fn all_ascii(b: Seq<u8>, i: int, j: int) -> bool {
    forall|k: int| i <= k < j ==> #[trigger] b[k] < 0x80
}

proof fn lemma_digits_end(b: Seq<u8>, i: int, radix: nat)
    requires
        0 <= i,
        radix <= 36,
    ensures
        i <= digits_end(b, i, radix),
        i <= b.len() ==> digits_end(b, i, radix) <= b.len(),
        all_ascii(b, i, digits_end(b, i, radix)),
    decreases b.len() - i,
{
    if 0 <= i < b.len() && (b[i] == 0x27 || digit_value(b[i], radix) is Some) {
        lemma_digits_end(b, i + 1, radix);
    }
}

proof fn lemma_suffix_end(b: Seq<u8>, i: int)
    requires
        0 <= i,
    ensures
        i <= suffix_end(b, i),
        i <= b.len() ==> suffix_end(b, i) <= b.len(),
        all_ascii(b, i, suffix_end(b, i)),
    decreases b.len() - i,
{
    if 0 <= i < b.len() && is_integer_suffix(b[i]) {
        lemma_suffix_end(b, i + 1);
    }
}

/// A literal starting within the bytes ends within them, after its start,
/// and holds only ASCII bytes.
pub proof fn lemma_literal_end(b: Seq<u8>, start: int)
    requires
        0 <= start <= b.len(),
    ensures
        start <= literal_end(b, start) <= b.len(),
        all_ascii(b, start, literal_end(b, start)),
{
    if byte_at(b, start) == Some(0x30u8) && (is_either(byte_at(b, start + 1), 0x78, 0x58)
        || is_either(byte_at(b, start + 1), 0x62, 0x42)) {
        let r: nat = if is_either(byte_at(b, start + 1), 0x78, 0x58) {
            16
        } else {
            2
        };
        lemma_digits_end(b, start + 2, r);
        lemma_suffix_end(b, digits_end(b, start + 2, r));
    } else {
        let i1 = digits_end(b, start, 10);
        lemma_digits_end(b, start, 10);
        let i2 = if byte_at(b, i1) == Some(0x2eu8) {
            lemma_digits_end(b, i1 + 1, 10);
            digits_end(b, i1 + 1, 10)
        } else {
            i1
        };
        if is_either(byte_at(b, i2), 0x65, 0x45) {
            let j = if is_either(byte_at(b, i2 + 1), 0x2b, 0x2d) {
                i2 + 2
            } else {
                i2 + 1
            };
            lemma_digits_end(b, j, 10);
        }
        let (i, _) = decimal_end(b, start);
        lemma_suffix_end(b, i);
    }
}

/// Skips digits of base `radix` (and apostrophes) from `index` on.
pub fn consume_digits(bytes: &[u8], index: usize, radix: u32) -> (res: usize)
    requires
        2 <= radix <= 36,
    ensures
        res == digits_end(bytes@, index as int, radix as nat),
{
    let len = bytes.len();
    let mut i = index;
    while i < len && (bytes[i] == 0x27 || crate::text::digit_value_exec(bytes[i], radix as u64).is_some())
        invariant
            index <= i,
            len == bytes@.len(),
            2 <= radix <= 36,
            digits_end(bytes@, index as int, radix as nat) == digits_end(bytes@, i as int, radix as nat),
        decreases len - i,
    {
        i = i + 1;
    }
    i
}

/// Skips integer suffix letters from `index` on.
pub fn consume_integer_suffix(bytes: &[u8], index: usize) -> (res: usize)
    ensures
        res == suffix_end(bytes@, index as int),
{
    let len = bytes.len();
    let mut i = index;
    while i < len && (bytes[i] == 0x75 || bytes[i] == 0x55 || bytes[i] == 0x6c || bytes[i] == 0x4c
        || bytes[i] == 0x7a || bytes[i] == 0x5a)
        invariant
            index <= i,
            len == bytes@.len(),
            suffix_end(bytes@, index as int) == suffix_end(bytes@, i as int),
        decreases len - i,
    {
        i = i + 1;
    }
    i
}

fn get(bytes: &[u8], i: usize) -> (res: Option<u8>)
    ensures
        res == byte_at(bytes@, i as int),
{
    if i < bytes.len() {
        Some(bytes[i])
    } else {
        None
    }
}

/// Finds where the numeric literal that starts at `start` ends.
pub fn scan_numeric_literal(bytes: &[u8], start: usize) -> (res: usize)
    requires
        start <= bytes@.len(),
    ensures
        res == literal_end(bytes@, start as int),
{
    let len = bytes.len();
    let first = get(bytes, start);
    let second = if start < len {
        get(bytes, start + 1)
    } else {
        None
    };
    if first == Some(0x30u8) && (second == Some(0x78u8) || second == Some(0x58u8)) {
        let index = consume_digits(bytes, start + 2, 16);
        return consume_integer_suffix(bytes, index);
    }
    if first == Some(0x30u8) && (second == Some(0x62u8) || second == Some(0x42u8)) {
        let index = consume_digits(bytes, start + 2, 2);
        return consume_integer_suffix(bytes, index);
    }
    proof {
        lemma_literal_end(bytes@, start as int);
        lemma_digits_end(bytes@, start as int, 10);
    }
    let mut index = consume_digits(bytes, start, 10);
    let mut is_float = start < len && bytes[start] == 0x2e;
    if get(bytes, index) == Some(0x2eu8) {
        is_float = true;
        proof {
            lemma_digits_end(bytes@, index + 1, 10);
        }
        index = consume_digits(bytes, index + 1, 10);
    }
    let e = get(bytes, index);
    if e == Some(0x65u8) || e == Some(0x45u8) {
        let exponent_start = index;
        index = index + 1;
        let sign = get(bytes, index);
        if sign == Some(0x2bu8) || sign == Some(0x2du8) {
            index = index + 1;
        }
        let exponent_end = consume_digits(bytes, index, 10);
        if exponent_end > index {
            is_float = true;
            index = exponent_end;
        } else {
            index = exponent_start;
        }
    }
    assert((index as int, is_float) == decimal_end(bytes@, start as int));
    if is_float {
        let c = get(bytes, index);
        if c == Some(0x66u8) || c == Some(0x46u8) || c == Some(0x6cu8) || c == Some(0x4cu8) {
            index = index + 1;
        }
        index
    } else {
        consume_integer_suffix(bytes, index)
    }
}

/// An ASCII decimal digit.
pub open spec fn is_ascii_digit(c: u8) -> bool {
    0x30 <= c <= 0x39
}

/// The numeric literal, as a byte range, that the position `idx` touches
/// (from its first byte up to just after its last), searching the literals
/// that start at or after `start`. A literal starts with a digit, or with
/// `.` and a digit, not right after an identifier character, and must not
/// run into one.
pub open spec fn find_literal(b: Seq<u8>, idx: int, start: int) -> Option<(int, int)>
    decreases b.len() - start,
{
    if start < 0 || start >= b.len() {
        None
    } else {
        let starts_with_digit = is_ascii_digit(b[start]);
        let starts_with_dot = b[start] == 0x2e && start + 1 < b.len() && is_ascii_digit(
            b[start + 1],
        );
        let follows_identifier = start > 0 && is_identifier_byte(b[start - 1]);
        let end = literal_end(b, start);
        proof {
            lemma_literal_end(b, start);
        }
        if (starts_with_digit || starts_with_dot) && !follows_identifier && end > start && !(end
            < b.len() && is_identifier_byte(b[end])) {
            if start <= idx <= end {
                Some((start, end))
            } else {
                find_literal(b, idx, end)
            }
        } else {
            find_literal(b, idx, start + 1)
        }
    }
}

/// The numeric literal under the byte position `byte_idx` of a line (the
/// position may be just after the literal).
pub fn extract_numeric_literal(line: &str, byte_idx: usize) -> (res: Option<&str>)
    ensures
        match find_literal(line.spec_bytes(), byte_idx as int, 0) {
            Some((s, e)) => res matches Some(t) && t.spec_bytes() == line.spec_bytes().subrange(
                s,
                e,
            ),
            None => res is None,
        },
{
    let bytes = line.as_bytes();
    let len = bytes.len();
    let mut start: usize = 0;
    while start < len
        invariant
            start <= len == bytes@.len(),
            bytes@ == line.spec_bytes(),
            find_literal(bytes@, byte_idx as int, 0) == find_literal(
                bytes@,
                byte_idx as int,
                start as int,
            ),
        decreases len - start,
    {
        let starts_with_digit = 0x30 <= bytes[start] && bytes[start] <= 0x39;
        let starts_with_dot = bytes[start] == 0x2e && start + 1 < len && 0x30 <= bytes[start + 1]
            && bytes[start + 1] <= 0x39;
        let follows_identifier = start > 0 && is_identifier_byte_exec(bytes[start - 1]);
        if (starts_with_digit || starts_with_dot) && !follows_identifier {
            let end = scan_numeric_literal(bytes, start);
            proof {
                lemma_literal_end(bytes@, start as int);
            }
            let has_identifier_suffix = end < len && is_identifier_byte_exec(bytes[end]);
            if end > start && !has_identifier_suffix {
                if byte_idx >= start && byte_idx <= end {
                    proof {
                        assert(bytes@[end - 1] < 0x80);
                        encode_utf8_valid_utf8(line@);
                        if end < len {
                            lemma_after_ascii(bytes@, end - 1);
                        }
                    }
                    return Some(str_slice(line, start, end));
                }
                start = end;
                continue ;
            }
        }
        start = start + 1;
    }
    None
}

/// `s` without its apostrophes (digit separators).
pub open spec fn remove_apostrophes(s: Seq<char>) -> Seq<char> {
    s.filter(|c: char| c != '\'')
}

fn without_apostrophes(token: &str) -> (res: String)
    ensures
        res@ == remove_apostrophes(token@),
{
    let mut cleaned = String::new();
    for c in iter: token.chars()
        invariant
            cleaned@ == remove_apostrophes(iter.seq().take(iter.index() as int)),
            iter.seq() == token@,
    {
        let ghost i = iter.index();
        proof {
            reveal_with_fuel(Seq::<_>::filter, 1);
            assert(iter.seq().take(i + 1).drop_last() =~= iter.seq().take(i));
        }
        if c != '\'' {
            push_char(&mut cleaned, c);
        }
    }
    proof {
        assert(token@.take(token@.len() as int) =~= token@);
    }
    cleaned
}

/// Whether text starts with `0x`, `0X`, `0b` or `0B`.
pub open spec fn has_radix_prefix(b: Seq<u8>) -> bool {
    b.len() >= 2 && b[0] == 0x30 && (b[1] == 0x78 || b[1] == 0x58 || b[1] == 0x62 || b[1] == 0x42)
}

/// Whether a cleaned literal is read as a floating-point number: no radix
/// prefix, and a `.`, `e` or `E` in it.
pub open spec fn is_float_text(b: Seq<u8>) -> bool {
    !has_radix_prefix(b) && (b.contains(0x2e) || b.contains(0x65) || b.contains(0x45))
}

/// Text without its trailing integer suffix letters.
pub open spec fn trim_integer_suffix(b: Seq<u8>) -> Seq<u8>
    decreases b.len(),
{
    if b.len() > 0 && is_integer_suffix(b.last()) {
        trim_integer_suffix(b.drop_last())
    } else {
        b
    }
}

/// The base and the digits of integer text: after `0x`/`0X` hexadecimal,
/// after `0b`/`0B` binary, else decimal.
pub open spec fn radix_and_digits(d: Seq<u8>) -> (nat, Seq<u8>) {
    if d.len() >= 2 && d[0] == 0x30 && (d[1] == 0x78 || d[1] == 0x58) {
        (16, d.skip(2))
    } else if d.len() >= 2 && d[0] == 0x30 && (d[1] == 0x62 || d[1] == 0x42) {
        (2, d.skip(2))
    } else {
        (10, d)
    }
}

/// The value of an integer literal whose apostrophes are removed: suffix
/// letters dropped, then read in the base its prefix gives; none when it
/// is not a number or does not fit in 64 bits.
pub open spec fn integer_literal_value(cleaned: Seq<u8>) -> Option<nat> {
    let (radix, digits) = radix_and_digits(trim_integer_suffix(cleaned));
    parse_u64_spec(digits, radix)
}

/// The preview of an integer: hexadecimal (upper case), decimal and
/// binary, without padding.
pub open spec fn integer_preview_text(v: nat) -> Seq<char> {
    "**HEX**  `0x"@ + hex(v, 0) + "`\n\n**DEC**  `"@ + dec(v) + "`\n\n**BIN**  `0b"@ + bin(v)
        + "`"@
}

/// The preview of a numeric literal: the text for an integer, or what a
/// floating-point preview is made from (the token and the token without
/// apostrophes).
#[derive(Debug, PartialEq, Eq)]
pub enum NumericPreview {
    Integer(String),
    Float { token: String, cleaned: String },
}

/// The preview text of an integer.
pub fn format_integer_preview(value: u64) -> (res: String)
    ensures
        res@ == integer_preview_text(value as nat),
{
    let mut s = string_of("**HEX**  `0x");
    push_padded(&mut s, value, 16, 0);
    push_str(&mut s, "`\n\n**DEC**  `");
    push_padded(&mut s, value, 10, 0);
    push_str(&mut s, "`\n\n**BIN**  `0b");
    push_padded(&mut s, value, 2, 0);
    push_str(&mut s, "`");
    s
}

fn contains_byte(b: &[u8], x: u8) -> (res: bool)
    ensures
        res == b@.contains(x),
{
    let n = b.len();
    let mut i: usize = 0;
    while i < n
        invariant
            i <= n == b@.len(),
            forall|j: int| 0 <= j < i ==> b@[j] != x,
        decreases n - i,
    {
        if b[i] == x {
            assert(b@[i as int] == x);
            return true;
        }
        i = i + 1;
    }
    false
}

/// A numeric preview as plain values.
pub enum NumericPreviewModel {
    Integer(Seq<char>),
    Float { token: Seq<char>, cleaned: Seq<char> },
}

impl NumericPreview {
    pub open spec fn model(&self) -> NumericPreviewModel {
        match self {
            NumericPreview::Integer(text) => NumericPreviewModel::Integer(text@),
            NumericPreview::Float { token, cleaned } => NumericPreviewModel::Float {
                token: token@,
                cleaned: cleaned@,
            },
        }
    }
}

/// The preview of a numeric literal token: apostrophes are dropped; a
/// floating-point literal gives what its preview is made from; an integer
/// literal gives the preview of its value, when it has one.
pub open spec fn numeric_preview_spec(token: Seq<char>) -> Option<NumericPreviewModel> {
    let cleaned = remove_apostrophes(token);
    let cb = encode_utf8(cleaned);
    if is_float_text(cb) {
        Some(NumericPreviewModel::Float { token, cleaned })
    } else {
        match integer_literal_value(cb) {
            Some(v) => Some(NumericPreviewModel::Integer(integer_preview_text(v))),
            None => None,
        }
    }
}

/// The preview of a numeric literal token.
pub fn format_numeric_literal(token: &str) -> (res: Option<NumericPreview>)
    ensures
        match (res, numeric_preview_spec(token@)) {
            (Some(p), Some(m)) => p.model() == m,
            (None, None) => true,
            _ => false,
        },
{
    let cleaned = without_apostrophes(token);
    let cb = cleaned.as_str().as_bytes();
    let n = cb.len();
    let has_prefix = n >= 2 && cb[0] == 0x30 && (cb[1] == 0x78 || cb[1] == 0x58 || cb[1] == 0x62
        || cb[1] == 0x42);
    if !has_prefix && (contains_byte(cb, 0x2e) || contains_byte(cb, 0x65) || contains_byte(
        cb,
        0x45,
    )) {
        return Some(NumericPreview::Float { token: string_of(token), cleaned });
    }
    let mut end = n;
    assert(cb@.subrange(0, end as int) =~= cb@);
    while end > 0 && (cb[end - 1] == 0x75 || cb[end - 1] == 0x55 || cb[end - 1] == 0x6c || cb[end
        - 1] == 0x4c || cb[end - 1] == 0x7a || cb[end - 1] == 0x5a)
        invariant
            end <= n == cb@.len(),
            trim_integer_suffix(cb@) == trim_integer_suffix(cb@.subrange(0, end as int)),
        decreases end,
    {
        assert(cb@.subrange(0, end as int).drop_last() =~= cb@.subrange(0, end - 1));
        end = end - 1;
    }
    let d = &cb[0..end];
    proof {
        if end > 0 {
            assert(d@.last() == cb@[end - 1]);
        }
        assert(trim_integer_suffix(d@) == d@);
    }
    let radix: u64;
    let start: usize;
    if end >= 2 && d[0] == 0x30 && (d[1] == 0x78 || d[1] == 0x58) {
        radix = 16;
        start = 2;
    } else if end >= 2 && d[0] == 0x30 && (d[1] == 0x62 || d[1] == 0x42) {
        radix = 2;
        start = 2;
    } else {
        radix = 10;
        start = 0;
    }
    let digits = &d[start..end];
    assert(digits@ =~= d@.skip(start as int));
    assert(cb@ == encode_utf8(remove_apostrophes(token@)));
    assert(!is_float_text(cb@));
    assert(trim_integer_suffix(cb@) == d@);
    assert(radix_and_digits(d@) == (radix as nat, digits@));
    match parse_u64(digits, radix) {
        Some(value) => Some(NumericPreview::Integer(format_integer_preview(value))),
        None => None,
    }
}

/// Whether a byte is one of the suffix letters of a floating-point
/// literal: `f`, `F`, `l`, `L`.
pub open spec fn is_float_suffix(b: u8) -> bool {
    b == 0x66 || b == 0x46 || b == 0x6c || b == 0x4c
}

/// Floating-point text without its trailing suffix letters.
pub open spec fn trim_float_suffix(b: Seq<u8>) -> Seq<u8>
    decreases b.len(),
{
    if b.len() > 0 && is_float_suffix(b.last()) {
        trim_float_suffix(b.drop_last())
    } else {
        b
    }
}

/// A floating-point literal is single precision when it ends in `f` or `F`.
pub open spec fn is_single_float(b: Seq<u8>) -> bool {
    b.len() > 0 && (b.last() == 0x66 || b.last() == 0x46)
}

/// Splits a floating-point literal (without apostrophes) into whether it
/// is single precision and the number to parse, without suffix letters.
pub fn float_parts(cleaned: &str) -> (res: (bool, &str))
    ensures
        res.0 == is_single_float(cleaned.spec_bytes()),
        res.1.spec_bytes() == trim_float_suffix(cleaned.spec_bytes()),
{
    let b = cleaned.as_bytes();
    let n = b.len();
    proof {
        encode_utf8_valid_utf8(cleaned@);
    }
    let single = n > 0 && (b[n - 1] == 0x66 || b[n - 1] == 0x46);
    let mut end = n;
    assert(b@.subrange(0, end as int) =~= b@);
    while end > 0 && (b[end - 1] == 0x66 || b[end - 1] == 0x46 || b[end - 1] == 0x6c || b[end
        - 1] == 0x4c)
        invariant
            end <= n == b@.len(),
            b@ == cleaned.spec_bytes(),
            trim_float_suffix(b@) == trim_float_suffix(b@.subrange(0, end as int)),
            end == n || b@[end as int] < 0x80,
        decreases end,
    {
        assert(b@.subrange(0, end as int).drop_last() =~= b@.subrange(0, end - 1));
        end = end - 1;
    }
    proof {
        if end > 0 {
            assert(b@.subrange(0, end as int).last() == b@[end - 1]);
        }
        assert(trim_float_suffix(b@.subrange(0, end as int)) == b@.subrange(0, end as int));
    }
    (single, str_slice(cleaned, 0, end))
}

/// The preview text of a floating-point literal, from the literal, whether
/// it is single precision, its value as printed and the bits of its IEEE 754
/// encoding (8 hexadecimal and 32 binary digits for single precision, 16
/// and 64 for double precision).
pub open spec fn float_preview_text(token: Seq<char>, single: bool, value: Seq<char>, bits: nat) -> Seq<
    char,
> {
    let (name, hex_width, bin_width) = if single {
        ("f32"@, 8nat, 32nat)
    } else {
        ("f64"@, 16nat, 64nat)
    };
    "**FLOAT ("@ + name + ")**  `"@ + token + "`\n\n**DEC**  `"@ + value + "`\n\n**HEX**  `0x"@
        + hex(bits, hex_width) + "`\n\n**BIN**  `0b"@ + padded_digits(bits, 2, bin_width) + "`"@
}

/// The preview text of a floating-point literal.
pub fn format_float_preview(token: &str, single: bool, value: &str, bits: u64) -> (res: String)
    ensures
        res@ == float_preview_text(token@, single, value@, bits as nat),
{
    let mut s = string_of("**FLOAT (");
    let (hex_width, bin_width): (usize, usize) = if single {
        push_str(&mut s, "f32");
        (8, 32)
    } else {
        push_str(&mut s, "f64");
        (16, 64)
    };
    push_str(&mut s, ")**  `");
    push_str(&mut s, token);
    push_str(&mut s, "`\n\n**DEC**  `");
    push_str(&mut s, value);
    push_str(&mut s, "`\n\n**HEX**  `0x");
    push_padded(&mut s, bits, 16, hex_width);
    push_str(&mut s, "`\n\n**BIN**  `0b");
    push_padded(&mut s, bits, 2, bin_width);
    push_str(&mut s, "`");
    s
}

/// The number of UTF-16 code units of a character.
pub open spec fn utf16_len(c: char) -> nat {
    if c as u32 >= 0x10000 {
        2
    } else {
        1
    }
}

/// The character index, from `k` on, at which the UTF-16 column count
/// reaches `col` exactly (`count` units come before index `k`); none when
/// the count passes `col` or the line ends first.
pub open spec fn utf16_scan(cs: Seq<char>, col: int, k: int, count: int) -> Option<int>
    decreases cs.len() - k,
{
    if k < 0 || k > cs.len() {
        None
    } else if k == cs.len() {
        if count == col {
            Some(k)
        } else {
            None
        }
    } else if count == col {
        Some(k)
    } else if count + utf16_len(cs[k]) > col {
        None
    } else {
        utf16_scan(cs, col, k + 1, count + utf16_len(cs[k]))
    }
}

/// The byte position of a UTF-16 column in a line: the UTF-8 length of the
/// characters before it.
pub open spec fn utf16_col_spec(cs: Seq<char>, col: int) -> Option<int> {
    match utf16_scan(cs, col, 0, 0) {
        Some(k) => Some(encode_utf8(cs.take(k)).len() as int),
        None => None,
    }
}

/// Turns a UTF-16 column (as LSP positions count) into a byte position in
/// the line.
pub fn utf16_col_to_byte_idx(line: &str, utf16_col: u32) -> (res: Option<usize>)
    ensures
        match utf16_col_spec(line@, utf16_col as int) {
            Some(b) => res == Some(b as usize),
            None => res is None,
        },
{
    let mut utf16_count: u64 = 0;
    let mut byte_idx: usize = 0;
    let len = line.as_bytes().len();
    proof {
        assert(line@.take(0) =~= Seq::<char>::empty());
    }
    for ch in iter: line.chars()
        invariant
            iter.seq() == line@,
            0 <= iter.index() <= line@.len(),
            utf16_count <= utf16_col,
            utf16_scan(line@, utf16_col as int, 0, 0) == utf16_scan(
                line@,
                utf16_col as int,
                iter.index(),
                utf16_count as int,
            ),
            byte_idx as int == encode_utf8(line@.take(iter.index())).len(),
            len == encode_utf8(line@).len(),
    {
        let ghost k = iter.index();
        proof {
            lemma_encode_push(line@.take(k), ch);
            assert(line@.take(k).push(ch) =~= line@.take(k + 1));
            lemma_encode_concat(line@.take(k + 1), line@.skip(k + 1));
            assert(line@.take(k + 1) + line@.skip(k + 1) =~= line@);
        }
        if utf16_count == utf16_col as u64 {
            return Some(byte_idx);
        }
        let c = ch as u32;
        let w16: u64 = if c >= 0x10000 {
            2
        } else {
            1
        };
        let w8: usize = if c < 0x80 {
            1
        } else if c < 0x800 {
            2
        } else if c < 0x10000 {
            3
        } else {
            4
        };
        utf16_count = utf16_count + w16;
        if utf16_count > utf16_col as u64 {
            return None;
        }
        byte_idx = byte_idx + w8;
    }
    proof {
        assert(line@.take(line@.len() as int) =~= line@);
    }
    if utf16_count == utf16_col as u64 {
        Some(line.len())
    } else {
        None
    }
}

/// The bytes that can be part of an unquoted path: ASCII letters and
/// digits and `/ \\ . _ - :`.
pub open spec fn is_path_byte(c: u8) -> bool {
    (0x30 <= c <= 0x39) || (0x41 <= c <= 0x5a) || (0x61 <= c <= 0x7a) || c == 0x2f || c == 0x5c
        || c == 0x2e || c == 0x5f || c == 0x2d || c == 0x3a
}

/// Whether a character can be part of an unquoted path.
pub fn is_path_char(ch: char) -> (res: bool)
    ensures
        res == ((ch as u32) < 0x80 && is_path_byte(ch as u8)),
{
    let c = ch as u32;
    c < 0x80 && is_path_byte_exec(c as u8)
}

fn is_path_byte_exec(c: u8) -> (res: bool)
    ensures
        res == is_path_byte(c),
{
    (0x30 <= c && c <= 0x39) || (0x41 <= c && c <= 0x5a) || (0x61 <= c && c <= 0x7a) || c == 0x2f
        || c == 0x5c || c == 0x2e || c == 0x5f || c == 0x2d || c == 0x3a
}

/// Text looks like a path when it holds a `.`, `/` or `\\`.
pub open spec fn looks_like_path_bytes(b: Seq<u8>) -> bool {
    b.contains(0x2e) || b.contains(0x2f) || b.contains(0x5c)
}

pub fn looks_like_path(token: &str) -> (res: bool)
    ensures
        res == looks_like_path_bytes(token.spec_bytes()),
{
    let b = token.as_bytes();
    contains_byte(b, 0x2e) || contains_byte(b, 0x2f) || contains_byte(b, 0x5c)
}

/// The number of backslashes right before position `i`.
pub open spec fn backslash_run(b: Seq<u8>, i: int) -> nat
    decreases i,
{
    if 0 < i <= b.len() && b[i - 1] == 0x5c {
        1 + backslash_run(b, i - 1)
    } else {
        0
    }
}

/// A character at `i` is escaped when an odd number of backslashes comes
/// right before it.
pub open spec fn escaped_at(b: Seq<u8>, i: int) -> bool {
    backslash_run(b, i) % 2 == 1
}

/// Whether the character at byte position `byte_idx` is escaped by the
/// backslashes before it.
pub fn is_escaped(text: &str, byte_idx: usize) -> (res: bool)
    requires
        byte_idx <= text.spec_bytes().len(),
        byte_idx == text.spec_bytes().len() || !is_continuation_byte(
            text.spec_bytes()[byte_idx as int],
        ),
    ensures
        res == escaped_at(text.spec_bytes(), byte_idx as int),
{
    let b = text.as_bytes();
    let mut i = byte_idx;
    let mut count: usize = 0;
    while i > 0 && b[i - 1] == 0x5c
        invariant
            i <= byte_idx <= b@.len(),
            count + i == byte_idx,
            backslash_run(b@, byte_idx as int) == count + backslash_run(b@, i as int),
        decreases i,
    {
        i = i - 1;
        count = count + 1;
    }
    count % 2 == 1
}

/// A quote byte: `'` or `"`.
pub open spec fn is_quote(c: u8) -> bool {
    c == 0x27 || c == 0x22
}

/// Searches the quoted strings of a line from position `i` on (`opening`
/// is the open quote, if any, with its position) for the one whose
/// contents hold the position `idx`, the closing quote included: its
/// contents, as a byte range, when they look like a path; none when they
/// do not or no quoted string holds `idx`. Escaped quotes are skipped.
pub open spec fn quoted_scan(b: Seq<u8>, idx: int, i: int, opening: Option<(int, u8)>) -> Option<
    (int, int),
>
    decreases b.len() - i,
{
    if i < 0 || i >= b.len() {
        None
    } else if !is_quote(b[i]) || escaped_at(b, i) {
        quoted_scan(b, idx, i + 1, opening)
    } else {
        match opening {
            Some((start, quote)) => if quote == b[i] {
                let content_start = start + 1;
                if content_start <= idx <= i {
                    if looks_like_path_bytes(b.subrange(content_start, i)) {
                        Some((content_start, i))
                    } else {
                        None
                    }
                } else {
                    quoted_scan(b, idx, i + 1, None)
                }
            } else {
                quoted_scan(b, idx, i + 1, opening)
            },
            None => quoted_scan(b, idx, i + 1, Some((i, b[i]))),
        }
    }
}

/// The quoted path under the byte position `byte_idx` of a line.
pub fn extract_quoted_path(line: &str, byte_idx: usize) -> (res: Option<&str>)
    ensures
        match quoted_scan(line.spec_bytes(), byte_idx as int, 0, None) {
            Some((s, e)) => res matches Some(t) && t.spec_bytes() == line.spec_bytes().subrange(
                s,
                e,
            ),
            None => res is None,
        },
{
    let b = line.as_bytes();
    let len = b.len();
    let mut opening: Option<(usize, u8)> = None;
    let mut index: usize = 0;
    proof {
        encode_utf8_valid_utf8(line@);
    }
    while index < len
        invariant
            index <= len == b@.len(),
            b@ == line.spec_bytes(),
            vstd::utf8::valid_utf8(b@),
            opening matches Some((st, q)) ==> st < index && is_quote(q) && b@[st as int] == q,
            quoted_scan(b@, byte_idx as int, 0, None) == quoted_scan(
                b@,
                byte_idx as int,
                index as int,
                match opening {
                    Some((st, q)) => Some((st as int, q)),
                    None => None,
                },
            ),
        decreases len - index,
    {
        let c = b[index];
        if !(c == 0x27 || c == 0x22) || is_escaped(line, index) {
            index = index + 1;
            continue ;
        }
        match opening {
            Some((start, quote)) => {
                if quote == c {
                    let content_start = start + 1;
                    if byte_idx >= content_start && byte_idx <= index {
                        proof {
                            lemma_after_ascii(b@, start as int);
                        }
                        let candidate = str_slice(line, content_start, index);
                        if looks_like_path(candidate) {
                            return Some(candidate);
                        } else {
                            return None;
                        }
                    }
                    opening = None;
                }
            },
            None => {
                opening = Some((index, c));
            },
        }
        index = index + 1;
    }
    None
}

/// Where the run of path bytes that holds position `p` starts.
pub open spec fn run_start(b: Seq<u8>, p: int) -> int
    decreases p,
{
    if 0 < p <= b.len() && is_path_byte(b[p - 1]) {
        run_start(b, p - 1)
    } else {
        p
    }
}

/// Where the run of path bytes from position `e` on ends.
pub open spec fn run_end(b: Seq<u8>, e: int) -> int
    decreases b.len() - e,
{
    if 0 <= e < b.len() && is_path_byte(b[e]) {
        run_end(b, e + 1)
    } else {
        e
    }
}

/// The unquoted path under position `idx`: the run of path bytes at the
/// position, or just before it when the byte at the position is not one
/// (a position past the end counts as the last byte), when it looks like
/// a path.
pub open spec fn unquoted_path(b: Seq<u8>, idx: int) -> Option<(int, int)> {
    let p0 = if idx < b.len() - 1 {
        idx
    } else {
        b.len() - 1
    };
    let pos = if is_path_byte(b[p0]) {
        Some(p0)
    } else if p0 == 0 {
        None
    } else {
        Some(p0 - 1)
    };
    match pos {
        None => None,
        Some(p) => if !is_path_byte(b[p]) {
            None
        } else {
            let s = run_start(b, p);
            let e = run_end(b, p + 1);
            if looks_like_path_bytes(b.subrange(s, e)) {
                Some((s, e))
            } else {
                None
            }
        },
    }
}

/// The path under position `idx` of a line: a quoted path first, else an
/// unquoted one.
pub open spec fn path_spec(b: Seq<u8>, idx: int) -> Option<(int, int)> {
    if b.len() == 0 {
        None
    } else {
        match quoted_scan(b, idx, 0, None) {
            Some(r) => Some(r),
            None => unquoted_path(b, idx),
        }
    }
}

/// The positions at which the line is cut when no quoted path is found
/// are character boundaries: the byte at the (clamped) position, and the
/// one before it when the first is not a path byte.
pub open spec fn path_positions_ok(b: Seq<u8>, idx: int) -> bool {
    b.len() == 0 || quoted_scan(b, idx, 0, None) is Some || {
        let p0 = if idx < b.len() - 1 {
            idx
        } else {
            b.len() - 1
        };
        &&& !is_continuation_byte(b[p0])
        &&& (is_path_byte(b[p0]) || p0 == 0 || !is_continuation_byte(b[p0 - 1]))
    }
}

proof fn lemma_run_start(b: Seq<u8>, p: int)
    requires
        0 <= p < b.len(),
        is_path_byte(b[p]),
    ensures
        0 <= run_start(b, p) <= p,
        is_path_byte(b[run_start(b, p)]),
        forall|k: int| run_start(b, p) <= k <= p ==> is_path_byte(#[trigger] b[k]),
        run_start(b, p) == 0 || !is_path_byte(b[run_start(b, p) - 1]),
    decreases p,
{
    if 0 < p && is_path_byte(b[p - 1]) {
        lemma_run_start(b, p - 1);
    }
}

proof fn lemma_run_end(b: Seq<u8>, e: int)
    requires
        0 < e <= b.len(),
        is_path_byte(b[e - 1]),
    ensures
        e <= run_end(b, e) <= b.len(),
        is_path_byte(b[run_end(b, e) - 1]),
        forall|k: int| e <= k < run_end(b, e) ==> is_path_byte(#[trigger] b[k]),
        run_end(b, e) == b.len() || !is_path_byte(b[run_end(b, e)]),
    decreases b.len() - e,
{
    if e < b.len() && is_path_byte(b[e]) {
        lemma_run_end(b, e + 1);
    }
}

/// The path under the byte position `byte_idx` of a line: the contents of
/// the quoted string there when they look like a path, else the run of
/// path characters there when it looks like a path.
pub fn extract_path(line: &str, byte_idx: usize) -> (res: Option<&str>)
    requires
        path_positions_ok(line.spec_bytes(), byte_idx as int),
    ensures
        match path_spec(line.spec_bytes(), byte_idx as int) {
            Some((s, e)) => res matches Some(t) && t.spec_bytes() == line.spec_bytes().subrange(
                s,
                e,
            ),
            None => res is None,
        },
{
    let b = line.as_bytes();
    let len = b.len();
    if len == 0 {
        return None;
    }
    if let Some(path) = extract_quoted_path(line, byte_idx) {
        return Some(path);
    }
    proof {
        encode_utf8_valid_utf8(line@);
    }
    let mut pos = if byte_idx < len - 1 {
        byte_idx
    } else {
        len - 1
    };
    if !is_path_byte_exec(b[pos]) {
        if pos == 0 {
            return None;
        }
        pos = pos - 1;
    }
    if !is_path_byte_exec(b[pos]) {
        return None;
    }
    let mut start = pos;
    while start > 0 && is_path_byte_exec(b[start - 1])
        invariant
            start <= pos < len == b@.len(),
            run_start(b@, pos as int) == run_start(b@, start as int),
        decreases start,
    {
        start = start - 1;
    }
    let mut end = pos + 1;
    while end < len && is_path_byte_exec(b[end])
        invariant
            pos < end <= len == b@.len(),
            run_end(b@, pos + 1) == run_end(b@, end as int),
        decreases len - end,
    {
        end = end + 1;
    }
    proof {
        lemma_run_start(b@, pos as int);
        lemma_run_end(b@, pos + 1);
        if end < len {
            lemma_after_ascii(b@, end - 1);
        }
    }
    let token = str_slice(line, start, end);
    if looks_like_path(token) {
        Some(token)
    } else {
        None
    }
}

/// A printable ASCII character other than space.
pub open spec fn is_ascii_graphic(c: u8) -> bool {
    0x21 <= c <= 0x7e
}

/// The hexadecimal cells of a dump line from cell `i` on: two digits and a
/// space per byte, four spaces for each cell past the end of the chunk,
/// sixteen cells in all.
pub open spec fn hex_cells(chunk: Seq<u8>, i: int) -> Seq<char>
    decreases 16 - i,
{
    if i < 0 || i >= 16 {
        Seq::empty()
    } else {
        (if i < chunk.len() {
            hex(chunk[i] as nat, 2) + " "@
        } else {
            "    "@
        }) + hex_cells(chunk, i + 1)
    }
}

/// The character column of a dump line: each printable byte as itself,
/// any other as `.`.
pub open spec fn ascii_column(chunk: Seq<u8>) -> Seq<char> {
    chunk.map_values(
        |c: u8|
            if is_ascii_graphic(c) {
                c as char
            } else {
                '.'
            },
    )
}

/// One line of a hex dump: the offset (8 hexadecimal digits), the cells
/// and the characters.
pub open spec fn dump_line(chunk: Seq<u8>, offset: nat) -> Seq<char> {
    hex(offset, 8) + "  "@ + hex_cells(chunk, 0) + " "@ + ascii_column(chunk) + "\n"@
}

/// The hex dump of `data` from byte `base` on, 16 bytes per line.
pub open spec fn dump_from(data: Seq<u8>, base: int) -> Seq<char>
    decreases data.len() - base,
{
    if base < 0 || base >= data.len() {
        Seq::empty()
    } else {
        let end = if base + 16 < data.len() {
            base + 16
        } else {
            data.len() as int
        };
        dump_line(data.subrange(base, end), base as nat) + dump_from(data, end)
    }
}

fn push_dump_line(output: &mut String, chunk: &[u8], offset: usize)
    requires
        chunk@.len() <= 16,
    ensures
        final(output)@ == old(output)@ + dump_line(chunk@, offset as nat),
{
    let ghost start = output@;
    push_padded(output, offset as u64, 16, 8);
    push_str(output, "  ");
    let ghost before_cells = output@;
    assert(before_cells =~= start + hex(offset as nat, 8) + "  "@);
    let n = chunk.len();
    let mut i: usize = 0;
    while i < 16
        invariant
            i <= 16,
            n == chunk@.len() <= 16,
            output@ + hex_cells(chunk@, i as int) == before_cells + hex_cells(chunk@, 0),
        decreases 16 - i,
    {
        let ghost prev = output@;
        let ghost cell = if (i as int) < chunk@.len() {
            hex(chunk@[i as int] as nat, 2) + " "@
        } else {
            "    "@
        };
        if i < n {
            push_padded(output, chunk[i] as u64, 16, 2);
            push_str(output, " ");
        } else {
            push_str(output, "    ");
        }
        proof {
            assert(hex_cells(chunk@, i as int) == cell + hex_cells(chunk@, i + 1));
            assert(output@ =~= prev + cell);
            assert(output@ + hex_cells(chunk@, i + 1) =~= prev + hex_cells(chunk@, i as int));
        }
        i = i + 1;
    }
    assert(hex_cells(chunk@, 16) =~= Seq::<char>::empty());
    assert(output@ =~= before_cells + hex_cells(chunk@, 0));
    push_str(output, " ");
    let ghost before_chars = output@;
    let mut j: usize = 0;
    while j < n
        invariant
            j <= n == chunk@.len(),
            output@ == before_chars + ascii_column(chunk@.take(j as int)),
        decreases n - j,
    {
        let c = chunk[j];
        let ch = if 0x21 <= c && c <= 0x7e {
            c as char
        } else {
            '.'
        };
        push_char(output, ch);
        proof {
            assert(ascii_column(chunk@.take(j + 1)) =~= ascii_column(chunk@.take(j as int)).push(
                ch,
            ));
        }
        j = j + 1;
    }
    push_str(output, "\n");
    proof {
        assert(chunk@.take(n as int) =~= chunk@);
        assert(output@ =~= start + dump_line(chunk@, offset as nat));
    }
}

/// A hex dump of bytes: 16 per line, each line with its offset, the bytes
/// in hexadecimal and the bytes as characters.
pub fn format_hex_dump(data: &[u8]) -> (res: String)
    ensures
        res@ == dump_from(data@, 0),
{
    let mut output = String::new();
    let n = data.len();
    let mut base: usize = 0;
    while base < n
        invariant
            base <= n == data@.len(),
            output@ + dump_from(data@, base as int) == dump_from(data@, 0),
        decreases n - base,
    {
        let end = if n - base > 16 {
            base + 16
        } else {
            n
        };
        let ghost prev = output@;
        push_dump_line(&mut output, &data[base..end], base);
        proof {
            assert(output@ + dump_from(data@, end as int) =~= prev + dump_from(data@, base as int));
        }
        base = end;
    }
    proof {
        assert(output@ + dump_from(data@, n as int) =~= output@);
    }
    output
}

/// The hover text for a binary file: its path, its size, its summary when
/// it has one (in a text block), the number of header bytes read and their
/// hex dump.
pub open spec fn binary_preview_text(
    path: Seq<char>,
    file_size: nat,
    summary: Option<Seq<char>>,
    header: Seq<u8>,
) -> Seq<char> {
    "### Binary Preview\n\n**Path:** `"@ + path + "`\n\n**Size:** `"@ + dec(file_size)
        + "` bytes\n\n"@ + match summary {
        Some(s) => "```text\n"@ + s + "\n```\n\n"@,
        None => Seq::<char>::empty(),
    } + "**Header:** `"@ + dec(header.len()) + "` bytes\n\n```text\n"@ + dump_from(header, 0)
        + "```"@
}

/// The hover text for a binary file.
pub fn format_binary_preview(path: &str, file_size: u64, summary: Option<&str>, header: &[u8]) -> (res:
    String)
    ensures
        res@ == binary_preview_text(
            path@,
            file_size as nat,
            match summary {
                Some(s) => Some(s@),
                None => None,
            },
            header@,
        ),
{
    let mut s = string_of("### Binary Preview\n\n**Path:** `");
    push_str(&mut s, path);
    push_str(&mut s, "`\n\n**Size:** `");
    push_padded(&mut s, file_size, 10, 0);
    push_str(&mut s, "` bytes\n\n");
    if let Some(summary) = summary {
        push_str(&mut s, "```text\n");
        push_str(&mut s, summary);
        push_str(&mut s, "\n```\n\n");
    }
    push_str(&mut s, "**Header:** `");
    push_padded(&mut s, header.len() as u64, 10, 0);
    push_str(&mut s, "` bytes\n\n```text\n");
    let dump = format_hex_dump(header);
    push_str(&mut s, dump.as_str());
    push_str(&mut s, "```");
    s
}

/// The hover text when a binary file cannot be read.
pub open spec fn read_failure_text(path: Seq<char>, error: Seq<char>) -> Seq<char> {
    "### Binary Preview\n\n**Path:** `"@ + path + "`\n\nFailed to read file: \n\n`"@ + error
        + "`"@
}

/// The hover text when a binary file cannot be read.
pub fn format_read_failure(path: &str, error: &str) -> (res: String)
    ensures
        res@ == read_failure_text(path@, error@),
{
    let mut s = string_of("### Binary Preview\n\n**Path:** `");
    push_str(&mut s, path);
    push_str(&mut s, "`\n\nFailed to read file: \n\n`");
    push_str(&mut s, error);
    push_str(&mut s, "`");
    s
}

/// Where the line that starts at `start` ends: at the next `\n`, or the end
/// of the text.
pub open spec fn newline_from(b: Seq<u8>, start: int) -> int
    decreases b.len() - start,
{
    if start < 0 || start >= b.len() || b[start] == 0x0a {
        start
    } else {
        newline_from(b, start + 1)
    }
}

/// Line `n` of a text (counting from 0) as a byte range, lines starting at
/// `start`: lines end at `\n` (a `\r` right before it is not part of the
/// line); the text after the last `\n` is a line only when not empty.
pub open spec fn nth_line(b: Seq<u8>, start: int, n: nat) -> Option<(int, int)>
    decreases b.len() + 1 - start,
{
    if start < 0 || start >= b.len() {
        None
    } else {
        let nl = newline_from(b, start);
        proof {
            lemma_newline_from(b, start);
        }
        if n == 0 {
            let end = if nl < b.len() && nl > start && b[nl - 1] == 0x0d {
                nl - 1
            } else {
                nl
            };
            Some((start, end))
        } else {
            nth_line(b, nl + 1, (n - 1) as nat)
        }
    }
}

pub proof fn lemma_newline_from(b: Seq<u8>, start: int)
    requires
        0 <= start <= b.len(),
    ensures
        start <= newline_from(b, start) <= b.len(),
        newline_from(b, start) < b.len() ==> b[newline_from(b, start)] == 0x0a,
    decreases b.len() - start,
{
    if start < b.len() && b[start] != 0x0a {
        lemma_newline_from(b, start + 1);
    }
}

/// Line `n` of a text, as the lines of a text are counted.
pub fn line_at(text: &str, n: usize) -> (res: Option<&str>)
    ensures
        match nth_line(text.spec_bytes(), 0, n as nat) {
            Some((s, e)) => res matches Some(l) && l.spec_bytes() == text.spec_bytes().subrange(
                s,
                e,
            ),
            None => res is None,
        },
{
    let b = text.as_bytes();
    let len = b.len();
    let mut start: usize = 0;
    let mut k: usize = n;
    proof {
        encode_utf8_valid_utf8(text@);
    }
    loop
        invariant
            start <= len == b@.len(),
            b@ == text.spec_bytes(),
            vstd::utf8::valid_utf8(b@),
            start == 0 || b@[start - 1] == 0x0a,
            nth_line(b@, 0, n as nat) == nth_line(b@, start as int, k as nat),
        decreases len - start,
    {
        if start >= len {
            return None;
        }
        let mut nl = start;
        while nl < len && b[nl] != 0x0a
            invariant
                start <= nl <= len == b@.len(),
                newline_from(b@, start as int) == newline_from(b@, nl as int),
            decreases len - nl,
        {
            nl = nl + 1;
        }
        proof {
            lemma_newline_from(b@, start as int);
        }
        if k == 0 {
            let end = if nl < len && nl > start && b[nl - 1] == 0x0d {
                nl - 1
            } else {
                nl
            };
            proof {
                if start > 0 && start < len {
                    lemma_after_ascii(b@, start - 1);
                }
            }
            return Some(str_slice(text, start, end));
        }
        if nl >= len {
            assert(nth_line(b@, nl + 1, (k - 1) as nat) is None);
            assert(nth_line(b@, start as int, k as nat) == nth_line(b@, nl + 1, (k - 1) as nat));
            return None;
        }
        k = k - 1;
        start = nl + 1;
    }
}

/// Whether `extract_path` can cut the line at the positions it needs: the
/// byte at the (clamped) position, and the one before it when the first
/// is not a path byte, start characters. Where they do not, the path
/// search in a line cannot be done.
pub fn path_cut_ok(line: &str, byte_idx: usize) -> (res: bool)
    ensures
        res == path_positions_ok(line.spec_bytes(), byte_idx as int),
{
    let b = line.as_bytes();
    let len = b.len();
    if len == 0 {
        return true;
    }
    if extract_quoted_path(line, byte_idx).is_some() {
        return true;
    }
    let p0 = if byte_idx < len - 1 {
        byte_idx
    } else {
        len - 1
    };
    let not_continuation = !(0x80 <= b[p0] && b[p0] <= 0xbf);
    not_continuation && (is_path_byte_exec(b[p0]) || p0 == 0 || !(0x80 <= b[p0 - 1] && b[p0 - 1]
        <= 0xbf))
}

proof fn lemma_no_apostrophes(cs: Seq<char>)
    requires
        forall|i: int| 0 <= i < cs.len() ==> #[trigger] cs[i] != '\'',
    ensures
        remove_apostrophes(cs) == cs,
    decreases cs.len(),
{
    reveal_with_fuel(Seq::<_>::filter, 1);
    if cs.len() > 0 {
        let init = cs.drop_last();
        assert forall|i: int| 0 <= i < init.len() implies #[trigger] init[i] != '\'' by {
            assert(init[i] == cs[i]);
        }
        lemma_no_apostrophes(init);
        assert(init.push(cs.last()) =~= cs);
    }
}

/// The bytes of the digits of a number: ASCII digits and letters of its
/// base, none of them an apostrophe, a sign, a suffix letter or `.`.
proof fn lemma_digit_bytes(v: nat, radix: nat)
    requires
        2 <= radix <= 16,
    ensures
        ({
            let d = digits(v, radix);
            let db = ascii_bytes(d);
            &&& d.len() >= 1
            &&& all_ascii_chars(d)
            &&& forall|i: int| 0 <= i < d.len() ==> #[trigger] d[i] != '\''
            &&& db.len() == d.len()
            &&& forall|i: int|
                0 <= i < db.len() ==> {
                    let c = #[trigger] db[i];
                    &&& (0x30 <= c <= 0x39) || (0x41 <= c <= 0x46)
                    &&& radix <= 10 ==> 0x30 <= c <= 0x39
                }
        }),
{
    let d = digits(v, radix);
    let db = ascii_bytes(d);
    lemma_digits_shape(v, radix);
    assert forall|i: int| 0 <= i < db.len() implies {
        let c = #[trigger] db[i];
        &&& (0x30 <= c <= 0x39) || (0x41 <= c <= 0x46)
        &&& radix <= 10 ==> 0x30 <= c <= 0x39
    } by {
        let u = d[i] as u32;
        assert(u < 0x80 ==> (u as u8) as u32 == u) by (bit_vector);
    }
}

proof fn lemma_no_byte(db: Seq<u8>, x: u8)
    requires
        forall|i: int| 0 <= i < db.len() ==> #[trigger] db[i] != x,
    ensures
        !db.contains(x),
{
}

/// The preview of the decimal digits of a value.
proof fn lemma_decimal_preview(v: u64)
    ensures
        numeric_preview_spec(digits(v as nat, 10)) == Some(
            NumericPreviewModel::Integer(integer_preview_text(v as nat)),
        ),
{
    let d = digits(v as nat, 10);
    let db = ascii_bytes(d);
    lemma_digit_bytes(v as nat, 10);
    lemma_no_apostrophes(d);
    lemma_encode_ascii(d);
    lemma_no_byte(db, 0x2e);
    lemma_no_byte(db, 0x65);
    lemma_no_byte(db, 0x45);
    assert(!has_radix_prefix(db));
    assert(!is_integer_suffix(db.last()));
    assert(trim_integer_suffix(db) == db);
    assert(radix_and_digits(db) == (10nat, db));
    lemma_digits_value_roundtrip(v as nat, 10);
    assert(parse_u64_spec(db, 10) == Some(v as nat));
}

/// The bytes of a two-character ASCII prefix followed by digits.
proof fn lemma_prefixed_bytes(v: nat, radix: nat, prefix: Seq<char>)
    requires
        2 <= radix <= 16,
        prefix.len() == 2,
        (prefix[0] as u32) < 0x80 && (prefix[1] as u32) < 0x80,
        prefix[0] != '\'' && prefix[1] != '\'',
    ensures
        encode_utf8(remove_apostrophes(prefix + digits(v, radix))) == ascii_bytes(prefix)
            + ascii_bytes(digits(v, radix)),
{
    let d = digits(v, radix);
    let t = prefix + d;
    lemma_digit_bytes(v, radix);
    assert forall|i: int| 0 <= i < t.len() implies #[trigger] t[i] != '\'' by {
        if i >= 2 {
            assert(t[i] == d[i - 2]);
        }
    }
    lemma_no_apostrophes(t);
    assert(all_ascii_chars(t)) by {
        assert forall|i: int| 0 <= i < t.len() implies (#[trigger] t[i] as u32) < 0x80 by {
            if i >= 2 {
                assert(t[i] == d[i - 2]);
            }
        }
    }
    lemma_encode_ascii(t);
    assert(ascii_bytes(t) =~= ascii_bytes(prefix) + ascii_bytes(d));
}

/// The preview of a radix prefix followed by the digits of a value in
/// that base.
proof fn lemma_prefixed_preview(v: u64, radix: nat, prefix: Seq<char>)
    requires
        radix == 16 || radix == 2,
        prefix.len() == 2,
        prefix[0] == '0',
        radix == 16 ==> prefix[1] == 'x' || prefix[1] == 'X',
        radix == 2 ==> prefix[1] == 'b' || prefix[1] == 'B',
    ensures
        numeric_preview_spec(prefix + digits(v as nat, radix)) == Some(
            NumericPreviewModel::Integer(integer_preview_text(v as nat)),
        ),
{
    let d = digits(v as nat, radix);
    let db = ascii_bytes(d);
    lemma_digit_bytes(v as nat, radix);
    lemma_prefixed_bytes(v as nat, radix, prefix);
    let cb = ascii_bytes(prefix) + db;
    assert(cb[0] == 0x30u8);
    assert(cb[1] == (prefix[1] as u32) as u8);
    assert(has_radix_prefix(cb));
    assert(cb.last() == db.last());
    assert(!is_integer_suffix(cb.last()));
    assert(trim_integer_suffix(cb) == cb);
    assert(cb.skip(2) =~= db);
    assert(radix_and_digits(cb) == (radix, db));
    lemma_digits_value_roundtrip(v as nat, radix);
    assert(parse_u64_spec(db, radix) == Some(v as nat));
}

/// The preview of an integer does not depend on the base it is written
/// in: the decimal digits of a 64-bit value, its upper-case hexadecimal
/// digits after `0x` or `0X`, and its binary digits after `0b` or `0B`
/// all give the preview of that value.
pub proof fn lemma_integer_preview_in_every_base(v: u64)
    ensures
        numeric_preview_spec(dec(v as nat)) == Some(
            NumericPreviewModel::Integer(integer_preview_text(v as nat)),
        ),
        numeric_preview_spec(seq!['0', 'x'] + hex(v as nat, 0)) == Some(
            NumericPreviewModel::Integer(integer_preview_text(v as nat)),
        ),
        numeric_preview_spec(seq!['0', 'X'] + hex(v as nat, 0)) == Some(
            NumericPreviewModel::Integer(integer_preview_text(v as nat)),
        ),
        numeric_preview_spec(seq!['0', 'b'] + bin(v as nat)) == Some(
            NumericPreviewModel::Integer(integer_preview_text(v as nat)),
        ),
        numeric_preview_spec(seq!['0', 'B'] + bin(v as nat)) == Some(
            NumericPreviewModel::Integer(integer_preview_text(v as nat)),
        ),
{
    lemma_digits_shape(v as nat, 16);
    assert(hex(v as nat, 0) == digits(v as nat, 16));
    lemma_decimal_preview(v);
    lemma_prefixed_preview(v, 16, seq!['0', 'x']);
    lemma_prefixed_preview(v, 16, seq!['0', 'X']);
    lemma_prefixed_preview(v, 2, seq!['0', 'b']);
    lemma_prefixed_preview(v, 2, seq!['0', 'B']);
}

/// Digit separators do not matter to integers: a literal and the same
/// literal without its apostrophes have the same integer preview, or both
/// none.
pub proof fn lemma_separators_do_not_matter(token: Seq<char>)
    ensures
        numeric_preview_spec(token) matches Some(NumericPreviewModel::Integer(_))
            ==> numeric_preview_spec(remove_apostrophes(token)) == numeric_preview_spec(token),
        numeric_preview_spec(token) is None ==> numeric_preview_spec(remove_apostrophes(token))
            is None,
{
    let cleaned = remove_apostrophes(token);
    assert forall|i: int| 0 <= i < cleaned.len() implies #[trigger] cleaned[i] != '\'' by {
        token.filter_lemma(|c: char| c != '\'');
        assert(cleaned.contains(cleaned[i]));
    }
    lemma_no_apostrophes(cleaned);
}

/// A run of decimal digits from `i` up to `j`, followed by a byte that is
/// neither a decimal digit nor an apostrophe (or by the end), ends at `j`.
proof fn lemma_decimal_run(b: Seq<u8>, i: int, j: int)
    requires
        0 <= i <= j <= b.len(),
        forall|k: int| i <= k < j ==> is_ascii_digit(#[trigger] b[k]),
        j == b.len() || !(is_ascii_digit(b[j]) || b[j] == 0x27),
    ensures
        digits_end(b, i, 10) == j,
    decreases j - i,
{
    if i < j {
        lemma_decimal_run(b, i + 1, j);
    }
}

/// A number in exponent notation with a signed exponent is one literal:
/// from its first digit, decimal digits, an `e` or `E`, a `+` or `-` and
/// decimal digits make a literal that ends right after the exponent's
/// digits, or one byte later when `f`, `F`, `l` or `L` follows.
pub proof fn lemma_signed_exponent_is_part_of_literal(b: Seq<u8>, start: int, i: int, j: int)
    requires
        0 <= start < i,
        i + 2 < j <= b.len(),
        forall|k: int| start <= k < i ==> is_ascii_digit(#[trigger] b[k]),
        b[i] == 0x65 || b[i] == 0x45,
        b[i + 1] == 0x2b || b[i + 1] == 0x2d,
        forall|k: int| i + 2 <= k < j ==> is_ascii_digit(#[trigger] b[k]),
        j == b.len() || !(is_ascii_digit(b[j]) || b[j] == 0x27),
    ensures
        literal_end(b, start) == if j < b.len() && (b[j] == 0x66 || b[j] == 0x46 || b[j] == 0x6c
            || b[j] == 0x4c) {
            j + 1
        } else {
            j
        },
{
    lemma_decimal_run(b, start, i);
    lemma_decimal_run(b, i + 2, j);
    assert(is_ascii_digit(b[start]));
    if i == start + 1 {
        assert(b[start + 1] == b[i]);
    } else {
        assert(is_ascii_digit(b[start + 1]));
    }
}

/// Trailing suffix bytes do not change what is left when they are trimmed.
proof fn lemma_trim_suffix_run(db: Seq<u8>, sb: Seq<u8>)
    requires
        forall|i: int| 0 <= i < sb.len() ==> is_integer_suffix(#[trigger] sb[i]),
    ensures
        trim_integer_suffix(db + sb) == trim_integer_suffix(db),
    decreases sb.len(),
{
    if sb.len() == 0 {
        assert(db + sb =~= db);
    } else {
        assert((db + sb).drop_last() =~= db + sb.drop_last());
        assert((db + sb).last() == sb.last());
        lemma_trim_suffix_run(db, sb.drop_last());
    }
}

/// Integer suffix letters, `u`, `l` and `z` in either case and in any
/// number, do not change an integer's preview: the decimal digits of a
/// 64-bit value followed by suffix letters preview that value.
pub proof fn lemma_integer_suffixes_are_dropped(v: u64, suffix: Seq<char>)
    requires
        forall|i: int|
            0 <= i < suffix.len() ==> {
                let c = #[trigger] suffix[i];
                c == 'u' || c == 'U' || c == 'l' || c == 'L' || c == 'z' || c == 'Z'
            },
    ensures
        numeric_preview_spec(dec(v as nat) + suffix) == Some(
            NumericPreviewModel::Integer(integer_preview_text(v as nat)),
        ),
{
    let d = digits(v as nat, 10);
    let t = d + suffix;
    let db = ascii_bytes(d);
    let sb = ascii_bytes(suffix);
    lemma_digit_bytes(v as nat, 10);
    assert forall|i: int| 0 <= i < t.len() implies #[trigger] t[i] != '\'' by {
        if i >= d.len() {
            assert(t[i] == suffix[i - d.len()]);
        }
    }
    lemma_no_apostrophes(t);
    assert(all_ascii_chars(t)) by {
        assert forall|i: int| 0 <= i < t.len() implies (#[trigger] t[i] as u32) < 0x80 by {
            if i >= d.len() {
                assert(t[i] == suffix[i - d.len()]);
            }
        }
    }
    lemma_encode_ascii(t);
    let cb = ascii_bytes(t);
    assert(cb =~= db + sb);
    assert forall|i: int| 0 <= i < sb.len() implies is_integer_suffix(#[trigger] sb[i]) by {
        assert(sb[i] == (suffix[i] as u32) as u8);
    }
    assert forall|i: int| 0 <= i < cb.len() implies {
        let c = #[trigger] cb[i];
        c != 0x2e && c != 0x65 && c != 0x45 && c != 0x78 && c != 0x58 && c != 0x62 && c != 0x42
    } by {
        if i >= db.len() {
            assert(cb[i] == sb[i - db.len()]);
        } else {
            assert(cb[i] == db[i]);
        }
    }
    lemma_no_byte(cb, 0x2e);
    lemma_no_byte(cb, 0x65);
    lemma_no_byte(cb, 0x45);
    assert(!has_radix_prefix(cb)) by {
        if cb.len() >= 2 {
            assert(cb[1] != 0x78 && cb[1] != 0x58 && cb[1] != 0x62 && cb[1] != 0x42);
        }
    }
    lemma_trim_suffix_run(db, sb);
    assert(!is_integer_suffix(db.last()));
    assert(trim_integer_suffix(db) == db);
    assert(radix_and_digits(db) == (10nat, db));
    lemma_digits_value_roundtrip(v as nat, 10);
    assert(parse_u64_spec(db, 10) == Some(v as nat));
}

/// An unquoted path is the whole run of path bytes around the position:
/// every byte in it is an ASCII letter or digit or one of `/ \\ . _ - :`,
/// the bytes just before and just after it are not, and it reaches the
/// position (clamped to the last byte), or ends right before it.
pub proof fn lemma_unquoted_path_is_whole_run(b: Seq<u8>, idx: int)
    requires
        0 <= idx,
        b.len() > 0,
    ensures
        unquoted_path(b, idx) matches Some((s, e)) ==> {
            let path_byte = |c: u8|
                (0x30 <= c <= 0x39) || (0x41 <= c <= 0x5a) || (0x61 <= c <= 0x7a) || c == 0x2f
                    || c == 0x5c || c == 0x2e || c == 0x5f || c == 0x2d || c == 0x3a;
            let p0 = if idx < b.len() - 1 {
                idx
            } else {
                b.len() - 1
            };
            &&& 0 <= s <= p0 <= e <= b.len()
            &&& s < e
            &&& forall|k: int| s <= k < e ==> path_byte(#[trigger] b[k])
            &&& s == 0 || !path_byte(b[s - 1])
            &&& e == b.len() || !path_byte(b[e])
        },
{
    let p0 = if idx < b.len() - 1 {
        idx
    } else {
        b.len() - 1
    };
    if is_path_byte(b[p0]) {
        lemma_run_start(b, p0);
        lemma_run_end(b, p0 + 1);
    } else if p0 > 0 && is_path_byte(b[p0 - 1]) {
        lemma_run_start(b, p0 - 1);
        lemma_run_end(b, p0);
    }
}

/// A literal found under a position touches that position (it may end
/// right before it), starts with a digit or `.`, and is neither preceded
/// nor followed by an identifier character: digits inside identifiers are
/// never taken for literals.
pub proof fn lemma_found_literal_stands_alone(b: Seq<u8>, idx: int, start: int)
    requires
        0 <= start,
    ensures
        find_literal(b, idx, start) matches Some((s, e)) ==> {
            &&& start <= s <= idx <= e <= b.len()
            &&& s < e
            &&& is_ascii_digit(b[s]) || b[s] == 0x2e
            &&& s == 0 || !is_identifier_byte(b[s - 1])
            &&& e == b.len() || !is_identifier_byte(b[e])
        },
    decreases b.len() - start,
{
    if start < b.len() {
        lemma_literal_end(b, start);
        let end = literal_end(b, start);
        lemma_found_literal_stands_alone(b, idx, start + 1);
        if end > start {
            lemma_found_literal_stands_alone(b, idx, end);
        }
    }
}

proof fn lemma_quoted_scan_looks_like_path(b: Seq<u8>, idx: int, i: int, opening: Option<(int, u8)>)
    requires
        0 <= i,
        opening matches Some((st, _)) ==> 0 <= st < i,
    ensures
        quoted_scan(b, idx, i, opening) matches Some((s, e)) ==> {
            &&& 0 < s <= idx <= e < b.len()
            &&& looks_like_path_bytes(b.subrange(s, e))
        },
    decreases b.len() - i,
{
    if 0 <= i < b.len() {
        lemma_quoted_scan_looks_like_path(b, idx, i + 1, opening);
        lemma_quoted_scan_looks_like_path(b, idx, i + 1, None);
        lemma_quoted_scan_looks_like_path(b, idx, i + 1, Some((i, b[i])));
    }
}

/// A path found in a line lies within it and looks like a path: it holds
/// a `.`, `/` or `\\`. A quoted path holds the position.
pub proof fn lemma_found_path_looks_like_path(b: Seq<u8>, idx: int)
    requires
        0 <= idx,
    ensures
        path_spec(b, idx) matches Some((s, e)) ==> {
            &&& 0 <= s <= e <= b.len()
            &&& looks_like_path_bytes(b.subrange(s, e))
        },
        quoted_scan(b, idx, 0, None) matches Some((s, e)) ==> s <= idx <= e,
{
    lemma_quoted_scan_looks_like_path(b, idx, 0, None);
    if b.len() > 0 && quoted_scan(b, idx, 0, None) is None {
        let p0 = if idx < b.len() - 1 {
            idx
        } else {
            b.len() - 1
        };
        if is_path_byte(b[p0]) {
            lemma_run_start(b, p0);
            lemma_run_end(b, p0 + 1);
        } else if p0 > 0 && is_path_byte(b[p0 - 1]) {
            lemma_run_start(b, p0 - 1);
            lemma_run_end(b, p0);
        }
    }
}

proof fn lemma_utf16_scan_bounds(cs: Seq<char>, col: int, k: int, count: int)
    ensures
        utf16_scan(cs, col, k, count) matches Some(r) ==> 0 <= k <= r <= cs.len(),
    decreases cs.len() - k,
{
    if 0 <= k < cs.len() && count != col && count + utf16_len(cs[k]) <= col {
        lemma_utf16_scan_bounds(cs, col, k + 1, count + utf16_len(cs[k]));
    }
}

/// The byte position of a UTF-16 column lies in the line and starts a
/// character (or is the end of the line), so the line can be cut there.
pub proof fn lemma_utf16_col_is_boundary(cs: Seq<char>, col: int)
    ensures
        utf16_col_spec(cs, col) matches Some(b) ==> {
            &&& 0 <= b <= encode_utf8(cs).len()
            &&& b == encode_utf8(cs).len() || !is_continuation_byte(encode_utf8(cs)[b])
        },
{
    lemma_utf16_scan_bounds(cs, col, 0, 0);
    if let Some(k) = utf16_scan(cs, col, 0, 0) {
        let head = cs.take(k);
        let tail = cs.skip(k);
        assert(head + tail =~= cs);
        lemma_encode_concat(head, tail);
        if k < cs.len() {
            vstd::utf8::encode_utf8_first_scalar(tail);
            let eb = encode_utf8(cs);
            let b = encode_utf8(head).len() as int;
            assert(eb[b] == encode_utf8(tail)[0]);
        }
    }
}

proof fn lemma_hex_digits_fit(v: nat, k: nat)
    requires
        k >= 1,
        v < pow16(k),
    ensures
        digits(v, 16).len() <= k,
    decreases v,
{
    if v >= 16 {
        lemma_div_decreases(v as int, 16);
        assert(k >= 2) by {
            if k == 1 {
                assert(pow16(1) == 16) by {
                    reveal_with_fuel(pow16, 2);
                }
            }
        }
        assert(v / 16 < pow16((k - 1) as nat)) by {
            assert(pow16(k) == 16 * pow16((k - 1) as nat));
        }
        lemma_hex_digits_fit(v / 16, (k - 1) as nat);
    }
}

/// `16` raised to the power `k`.
pub open spec fn pow16(k: nat) -> nat
    decreases k,
{
    if k == 0 {
        1
    } else {
        16 * pow16((k - 1) as nat)
    }
}

proof fn lemma_hex_width(v: nat, width: nat)
    requires
        1 <= width <= 8,
        v < pow16(width),
    ensures
        hex(v, width).len() == width,
{
    lemma_hex_digits_fit(v, width);
}

proof fn lemma_hex_cells_len(chunk: Seq<u8>, i: int)
    requires
        0 <= i <= 16,
        chunk.len() <= 16,
    ensures
        hex_cells(chunk, i).len() == 4 * (16 - i) - if chunk.len() > i {
            chunk.len() - i
        } else {
            0
        },
    decreases 16 - i,
{
    reveal_with_fuel(pow16, 3);
    reveal_strlit(" ");
    reveal_strlit("    ");
    if i < 16 {
        lemma_hex_cells_len(chunk, i + 1);
        if i < chunk.len() {
            lemma_hex_width(chunk[i] as nat, 2);
        }
    }
}

/// The number of characters of a dump line is fixed.
proof fn lemma_dump_line_len(chunk: Seq<u8>, offset: nat)
    requires
        1 <= chunk.len() <= 16,
        offset < 0x1_0000_0000,
    ensures
        dump_line(chunk, offset).len() == 76,
{
    reveal_with_fuel(pow16, 9);
    reveal_strlit("  ");
    reveal_strlit(" ");
    reveal_strlit("\n");
    lemma_hex_width(offset, 8);
    lemma_hex_cells_len(chunk, 0);
}

proof fn lemma_dump_from_len(data: Seq<u8>, base: int)
    requires
        0 <= base,
        data.len() <= 0x1_0000_0000,
    ensures
        dump_from(data, base).len() == 76 * (((if data.len() > base {
            data.len() - base
        } else {
            0
        }) + 15) / 16),
    decreases data.len() - base,
{
    if base < data.len() {
        let end = if base + 16 < data.len() {
            base + 16
        } else {
            data.len() as int
        };
        lemma_dump_line_len(data.subrange(base, end), base as nat);
        lemma_dump_from_len(data, end);
    }
}

/// A hex dump (of fewer than 2^32 bytes) has one line per 16 bytes, the
/// last one possibly shorter, and each line has 76 characters: offset,
/// sixteen cells and the characters, whatever the bytes.
pub proof fn lemma_hex_dump_shape(data: Seq<u8>)
    requires
        data.len() <= 0x1_0000_0000,
    ensures
        dump_from(data, 0).len() == 76 * ((data.len() + 15) / 16),
{
    lemma_dump_from_len(data, 0);
}

} // verus!
