//! Utility functions shared by the physical and logical ADIF layers:
//! case-insensitive ASCII comparison, decimal rendering of numbers, and
//! conversion of validated byte sequences to strings.

use vstd::prelude::*;
use vstd::string::StringExecFns;
use vstd::string::StringSliceAdditionalSpecFns;

verus! {

/// ASCII lower-casing of one byte: `A`..`Z` map to `a`..`z`, every other
/// byte is unchanged.
pub open spec fn spec_lower_byte(b: u8) -> u8 {
    if 0x41 <= b <= 0x5a {
        (b + 0x20) as u8
    } else {
        b
    }
}

/// Two byte sequences represent the same ASCII string when compared
/// case-insensitively, byte by byte.
pub open spec fn spec_bytes_eq_ci(a: Seq<u8>, b: Seq<u8>) -> bool {
    a.len() == b.len() && forall|i: int|
        0 <= i < a.len() ==> spec_lower_byte(a[i]) == spec_lower_byte(b[i])
}

/// Returns true if `bytes` and `s` represent the same ASCII string when
/// compared case-insensitively.  The comparison is byte-wise, so a
/// non-ASCII byte on either side simply compares unequal unless it is
/// identical on the other side.
pub fn byteseq_equal_ci(bytes: &Vec<u8>, s: &str) -> (r: bool)
    ensures
        r == spec_bytes_eq_ci(bytes@, s.spec_bytes()),
{
    let sb: &[u8] = s.as_bytes();
    if bytes.len() != sb.len() {
        return false;
    }
    let mut i: usize = 0;
    while i < bytes.len()
        invariant
            0 <= i <= bytes@.len(),
            bytes@.len() == sb@.len(),
            sb@ == s.spec_bytes(),
            forall|j: int| 0 <= j < i ==> spec_lower_byte(bytes@[j]) == spec_lower_byte(sb@[j]),
        decreases bytes@.len() - i,
    {
        if lower_byte(bytes[i]) != lower_byte(sb[i]) {
            return false;
        }
        i += 1;
    }
    true
}

/// ASCII lower-casing of one byte.
pub fn lower_byte(b: u8) -> (r: u8)
    ensures
        r == spec_lower_byte(b),
{
    if 0x41 <= b && b <= 0x5a {
        b + 0x20
    } else {
        b
    }
}

/// ASCII lower-casing of a whole byte sequence.
pub open spec fn spec_lower_bytes(s: Seq<u8>) -> Seq<u8> {
    s.map_values(|b: u8| spec_lower_byte(b))
}

/// The characters denoted by a sequence of ASCII bytes, one character per
/// byte.
pub open spec fn spec_ascii_chars(s: Seq<u8>) -> Seq<char> {
    s.map_values(|b: u8| b as char)
}

/// True when every byte of the sequence is ASCII.
pub open spec fn spec_all_ascii(s: Seq<u8>) -> bool {
    forall|i: int| 0 <= i < s.len() ==> s[i] < 0x80
}

/// A sequence of ASCII bytes is valid UTF-8 and decodes to one character
/// per byte.
pub proof fn lemma_ascii_decode(s: Seq<u8>)
    requires
        spec_all_ascii(s),
    ensures
        vstd::utf8::valid_utf8(s),
        vstd::utf8::decode_utf8(s) == spec_ascii_chars(s),
    decreases s.len(),
{
    if s.len() == 0 {
        assert(vstd::utf8::decode_utf8(s) =~= spec_ascii_chars(s));
    } else {
        assert(vstd::utf8::is_leading_byte_width_1(s[0]));
        assert(vstd::utf8::valid_first_scalar(s));
        let rest = vstd::utf8::pop_first_scalar(s);
        assert(rest =~= s.skip(1));
        lemma_ascii_decode(s.skip(1));
        let b0 = s[0];
        assert(b0 & 0x7f == b0) by (bit_vector)
            requires
                b0 < 0x80,
        ;
        assert(vstd::utf8::decode_first_scalar(s) == s[0] as u32);
        assert((s[0] as u32) as char == s[0] as char);
        assert(vstd::utf8::decode_utf8(s) =~= spec_ascii_chars(s));
    }
}

/// The UTF-8 encoding of the characters denoted by a sequence of ASCII
/// bytes is that byte sequence itself.
pub proof fn lemma_ascii_encode(s: Seq<u8>)
    requires
        spec_all_ascii(s),
    ensures
        vstd::utf8::encode_utf8(spec_ascii_chars(s)) == s,
{
    let chars = spec_ascii_chars(s);
    assert forall|i: int| 0 <= i < chars.len() implies '\0' <= #[trigger] chars[i] <= '\u{7f}' by {
        assert(chars[i] == s[i] as char);
    }
    assert(vstd::utf8::is_ascii_chars(chars));
    vstd::utf8::is_ascii_chars_encode_utf8(chars);
    assert forall|i: int| 0 <= i < s.len() implies vstd::utf8::encode_utf8(chars)[i] == s[i] by {
        assert(chars[i] as u8 == vstd::utf8::encode_utf8(chars)[i]);
        assert((s[i] as char) as u8 == s[i]);
    }
    assert(vstd::utf8::encode_utf8(chars) =~= s);
}

/// Relies on `String::from_utf8`: it succeeds exactly when the bytes are a
/// valid UTF-8 encoding, and the resulting string contains exactly those
/// bytes.
#[verifier::external_body]
pub fn string_from_utf8(v: &Vec<u8>) -> (r: Option<String>)
    ensures
        r is Some <==> vstd::utf8::valid_utf8(v@),
        r matches Some(s) ==> vstd::utf8::encode_utf8(s@) == v@,
{
    match String::from_utf8(v.clone()) {
        Ok(s) => Some(s),
        Err(_) => None,
    }
}

/// ASCII lower-casing of a whole byte slice.
pub fn lower_bytes_vec(v: &[u8]) -> (r: Vec<u8>)
    ensures
        r@ == spec_lower_bytes(v@),
{
    let mut r: Vec<u8> = Vec::new();
    let mut i: usize = 0;
    while i < v.len()
        invariant
            0 <= i <= v@.len(),
            r@ =~= spec_lower_bytes(v@).take(i as int),
        decreases v@.len() - i,
    {
        r.push(lower_byte(v[i]));
        i += 1;
    }
    assert(r@ =~= spec_lower_bytes(v@));
    r
}

/// True when the byte is an ASCII decimal digit.
pub open spec fn spec_is_digit(b: u8) -> bool {
    0x30 <= b <= 0x39
}

/// True when every byte of the sequence is an ASCII decimal digit.
pub open spec fn spec_all_digits(s: Seq<u8>) -> bool {
    forall|i: int| 0 <= i < s.len() ==> spec_is_digit(s[i])
}

/// The numeric value denoted by a sequence of ASCII decimal digits.
pub open spec fn spec_dec_val(s: Seq<u8>) -> nat
    decreases s.len(),
{
    if s.len() == 0 {
        0
    } else {
        (spec_dec_val(s.drop_last()) * 10 + (s.last() - 0x30)) as nat
    }
}

/// The character for one decimal digit.
pub open spec fn spec_digit_char(d: nat) -> char
    recommends
        d < 10,
{
    ((0x30 + d) as u8) as char
}

/// The decimal rendering of a number, most significant digit first.
pub open spec fn spec_dec_chars(n: nat) -> Seq<char>
    decreases n,
{
    if n < 10 {
        seq![spec_digit_char(n)]
    } else {
        spec_dec_chars(n / 10).push(spec_digit_char(n % 10))
    }
}

/// The string for one decimal digit.
pub fn digit_str(d: usize) -> (r: &'static str)
    requires
        d < 10,
    ensures
        r@ == seq![spec_digit_char(d as nat)],
{
    proof {
        reveal_strlit("0");
        reveal_strlit("1");
        reveal_strlit("2");
        reveal_strlit("3");
        reveal_strlit("4");
        reveal_strlit("5");
        reveal_strlit("6");
        reveal_strlit("7");
        reveal_strlit("8");
        reveal_strlit("9");
    }
    match d {
        0 => "0",
        1 => "1",
        2 => "2",
        3 => "3",
        4 => "4",
        5 => "5",
        6 => "6",
        7 => "7",
        8 => "8",
        _ => "9",
    }
}

/// Renders a number in decimal, most significant digit first.
pub fn usize_to_string(n: usize) -> (r: String)
    ensures
        r@ == spec_dec_chars(n as nat),
    decreases n,
{
    if n < 10 {
        String::from_str(digit_str(n))
    } else {
        let mut r = usize_to_string(n / 10);
        r.append(digit_str(n % 10));
        assert(r@ =~= spec_dec_chars(n as nat));
        r
    }
}

/// Outcome of reading a length field as a bounded decimal number.
pub enum DecParse {
    /// The bytes are not a non-empty run of decimal digits.
    NotANumber,
    /// The denoted value exceeds the given bound.
    TooBig,
    /// The denoted value, at most the given bound.
    Value(usize),
}

/// Reads a sequence of ASCII decimal digits as a number, rejecting values
/// above `max`; the value is computed without overflow for any input
/// length.
pub fn parse_dec_bounded(bytes: &Vec<u8>, max: usize) -> (r: DecParse)
    ensures
        r is NotANumber <==> !(bytes@.len() >= 1 && spec_all_digits(bytes@)),
        r is TooBig <==> bytes@.len() >= 1 && spec_all_digits(bytes@) && spec_dec_val(bytes@)
            > max,
        r matches DecParse::Value(v) ==> spec_dec_val(bytes@) == v && v <= max
            && bytes@.len() >= 1 && spec_all_digits(bytes@),
{
    if bytes.len() == 0 {
        return DecParse::NotANumber;
    }
    let mut val: usize = 0;
    let mut big: bool = false;
    let mut i: usize = 0;
    while i < bytes.len()
        invariant
            0 <= i <= bytes@.len(),
            spec_all_digits(bytes@.take(i as int)),
            !big ==> val == spec_dec_val(bytes@.take(i as int)) && val <= max,
            big ==> spec_dec_val(bytes@.take(i as int)) > max,
        decreases bytes@.len() - i,
    {
        let b = bytes[i];
        if b < 0x30 || b > 0x39 {
            return DecParse::NotANumber;
        }
        let d = (b - 0x30) as usize;
        proof {
            assert(bytes@.take(i + 1).drop_last() =~= bytes@.take(i as int));
            assert(bytes@.take(i + 1).last() == bytes@[i as int]);
            lemma_dec_val_grow(bytes@.take(i as int), bytes@[i as int], max as nat);
        }
        if big {
        } else if val > max / 10 || (val == max / 10 && d > max % 10) {
            big = true;
            proof {
                assert(val * 10 + d > max) by (nonlinear_arith)
                    requires
                        val > max / 10 || (val == max / 10 && d > max % 10),
                        d < 10,
                        max >= 0,
                        val >= 0,
                ;
            }
        } else {
            proof {
                assert(val * 10 + d <= max) by (nonlinear_arith)
                    requires
                        val <= max / 10,
                        !(val == max / 10 && d > max % 10),
                        d < 10,
                        val >= 0,
                        max >= 0,
                ;
            }
            val = val * 10 + d;
        }
        i += 1;
    }
    proof {
        assert(bytes@.take(bytes@.len() as int) =~= bytes@);
    }
    if big {
        DecParse::TooBig
    } else {
        DecParse::Value(val)
    }
}

/// Appending a digit multiplies the denoted value by ten and adds the
/// digit, so a value already above a bound stays above it.
proof fn lemma_dec_val_grow(s: Seq<u8>, b: u8, max: nat)
    requires
        spec_is_digit(b),
    ensures
        spec_dec_val(s.push(b)) == spec_dec_val(s) * 10 + (b - 0x30),
        spec_dec_val(s) > max ==> spec_dec_val(s.push(b)) > max,
{
    assert(s.push(b).drop_last() =~= s);
    assert(s.push(b).last() == b);
    if spec_dec_val(s) > max {
        assert(spec_dec_val(s) * 10 >= spec_dec_val(s)) by (nonlinear_arith)
            requires
                spec_dec_val(s) >= 0,
        ;
    }
}

/// Converts a sequence of ASCII bytes to the string holding one character
/// per byte.
pub fn ascii_to_string(v: &Vec<u8>) -> (r: String)
    requires
        spec_all_ascii(v@),
    ensures
        r@ == spec_ascii_chars(v@),
{
    proof {
        lemma_ascii_decode(v@);
    }
    let r = string_from_utf8(v);
    let s = r.unwrap();
    proof {
        vstd::utf8::decode_utf8_encode_utf8(v@);
        assert(vstd::utf8::encode_utf8(s@) == v@);
        assert(vstd::utf8::decode_utf8(vstd::utf8::encode_utf8(s@)) == s@) by {
            vstd::utf8::encode_utf8_decode_utf8(s@);
        }
    }
    s
}

} // verus!
