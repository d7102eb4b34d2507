use vstd::prelude::*;

use chrono::{DateTime, Datelike, Timelike, Utc};
use sha2::{Digest, Sha256};
use std::time::SystemTime;
use vstd::utf8::encode_utf8;

verus! {

/// The abbreviated English name of a month numbered from 1 (January) to 12.
pub open spec fn month_abr_spec(month: u32) -> Seq<char> {
    if month == 1 { "Jan"@ }
    else if month == 2 { "Feb"@ }
    else if month == 3 { "Mar"@ }
    else if month == 4 { "Apr"@ }
    else if month == 5 { "May"@ }
    else if month == 6 { "Jun"@ }
    else if month == 7 { "Jul"@ }
    else if month == 8 { "Aug"@ }
    else if month == 9 { "Sep"@ }
    else if month == 10 { "Oct"@ }
    else if month == 11 { "Nov"@ }
    else if month == 12 { "Dec"@ }
    else { "-"@ }
}

/// Generate an abbreviated string for the name of a month.
pub fn month_abr(month: u32) -> (s: &'static str)
    ensures
        s@ == month_abr_spec(month),
{
    match month {
        1 => "Jan",
        2 => "Feb",
        3 => "Mar",
        4 => "Apr",
        5 => "May",
        6 => "Jun",
        7 => "Jul",
        8 => "Aug",
        9 => "Sep",
        10 => "Oct",
        11 => "Nov",
        12 => "Dec",
        _ => "-",
    }
}

} // verus!

verus! {

/// The base64 digit (standard alphabet) of a 6-bit value.
pub open spec fn b64_digit(v: u8) -> u8 {
    if v < 26 {
        (65 + v) as u8
    } else if v < 52 {
        (71 + v) as u8
    } else if v < 62 {
        (v - 4) as u8
    } else if v == 62 {
        43u8
    } else {
        47u8
    }
}

/// The 6-bit value of a base64 digit, if it is one.
pub open spec fn b64_value(c: u8) -> Option<u8> {
    if 65 <= c <= 90 {
        Some((c - 65) as u8)
    } else if 97 <= c <= 122 {
        Some((c - 71) as u8)
    } else if 48 <= c <= 57 {
        Some((c + 4) as u8)
    } else if c == 43 {
        Some(62u8)
    } else if c == 47 {
        Some(63u8)
    } else {
        None
    }
}

/// Unpadded base64 (standard alphabet) of `s`, as ASCII bytes: each group of
/// three bytes gives four digits, a trailing group of one or two bytes two
/// or three digits.
pub open spec fn base64_spec(s: Seq<u8>) -> Seq<u8>
    decreases s.len(),
{
    if s.len() == 0 {
        seq![]
    } else if s.len() == 1 {
        seq![b64_digit(s[0] >> 2), b64_digit((s[0] & 3) << 4)]
    } else if s.len() == 2 {
        seq![b64_digit(s[0] >> 2), b64_digit(((s[0] & 3) << 4) | (s[1] >> 4)), b64_digit((s[1] & 15) << 2)]
    } else {
        seq![
            b64_digit(s[0] >> 2),
            b64_digit(((s[0] & 3) << 4) | (s[1] >> 4)),
            b64_digit(((s[1] & 15) << 2) | (s[2] >> 6)),
            b64_digit(s[2] & 63),
        ] + base64_spec(s.subrange(3, s.len() as int))
    }
}

/// `rest` with `prefix` in front, when there is a `rest`.
pub open spec fn prepend_some(prefix: Seq<u8>, rest: Option<Seq<u8>>) -> Option<Seq<u8>> {
    match rest {
        Some(r) => Some(prefix + r),
        None => None,
    }
}

/// Decoding of unpadded base64 (standard alphabet). Refused: a character out
/// of the alphabet, a length of the form `4k + 1`, and a last digit whose
/// unused low bits are not zero (so that every byte string has one
/// encoding).
pub open spec fn base64_decode_spec(t: Seq<u8>) -> Option<Seq<u8>>
    decreases t.len(),
{
    if t.len() == 0 {
        Some(seq![])
    } else if t.len() == 1 {
        None
    } else if t.len() == 2 {
        match (b64_value(t[0]), b64_value(t[1])) {
            (Some(a), Some(b)) => if b & 15 == 0 {
                Some(seq![(a << 2) | (b >> 4)])
            } else {
                None
            },
            _ => None,
        }
    } else if t.len() == 3 {
        match (b64_value(t[0]), b64_value(t[1]), b64_value(t[2])) {
            (Some(a), Some(b), Some(c)) => if c & 3 == 0 {
                Some(seq![(a << 2) | (b >> 4), ((b & 15) << 4) | (c >> 2)])
            } else {
                None
            },
            _ => None,
        }
    } else {
        match (b64_value(t[0]), b64_value(t[1]), b64_value(t[2]), b64_value(t[3])) {
            (Some(a), Some(b), Some(c), Some(d)) => prepend_some(
                seq![(a << 2) | (b >> 4), ((b & 15) << 4) | (c >> 2), ((c & 3) << 6) | d],
                base64_decode_spec(t.subrange(4, t.len() as int)),
            ),
            _ => None,
        }
    }
}

/// A digit gives back the 6-bit value it encodes.
proof fn lemma_b64_digit_value(v: u8)
    requires
        v < 64,
    ensures
        b64_value(b64_digit(v)) == Some(v),
        b64_digit(v) != 32u8,
        b64_digit(v) != 10u8,
{
}

/// Decoding gives back what was encoded.
pub proof fn lemma_base64_round_trip(s: Seq<u8>)
    ensures
        base64_decode_spec(base64_spec(s)) == Some(s),
    decreases s.len(),
{
    let e = base64_spec(s);
    if s.len() == 0 {
        assert(base64_decode_spec(e) == Some(s)) by {
            assert(s =~= seq![]);
        }
    } else if s.len() == 1 {
        let x = s[0];
        assert(x >> 2 < 64 && (x & 3) << 4 < 64) by (bit_vector);
        lemma_b64_digit_value(x >> 2);
        lemma_b64_digit_value((x & 3) << 4);
        assert((((x >> 2) << 2) | (((x & 3) << 4) >> 4)) == x && ((x & 3) << 4) & 15 == 0) by (bit_vector);
        assert(base64_decode_spec(e) =~= Some(s));
    } else if s.len() == 2 {
        let x = s[0];
        let y = s[1];
        assert(x >> 2 < 64 && (((x & 3) << 4) | (y >> 4)) < 64 && (y & 15) << 2 < 64) by (bit_vector);
        lemma_b64_digit_value(x >> 2);
        lemma_b64_digit_value(((x & 3) << 4) | (y >> 4));
        lemma_b64_digit_value((y & 15) << 2);
        assert(((x >> 2) << 2) | ((((x & 3) << 4) | (y >> 4)) >> 4) == x) by (bit_vector);
        assert(((((x & 3) << 4) | (y >> 4)) & 15) << 4 | (((y & 15) << 2) >> 2) == y) by (bit_vector);
        assert(((y & 15) << 2) & 3 == 0) by (bit_vector);
        assert(base64_decode_spec(e) =~= Some(s)) by {
            assert(seq![(x >> 2) << 2 | ((((x & 3) << 4) | (y >> 4)) >> 4), ((((x & 3) << 4) | (y >> 4)) & 15) << 4
                | (((y & 15) << 2) >> 2)] =~= s);
        }
    } else {
        let x = s[0];
        let y = s[1];
        let z = s[2];
        let rest = s.subrange(3, s.len() as int);
        assert(x >> 2 < 64 && (((x & 3) << 4) | (y >> 4)) < 64 && (((y & 15) << 2) | (z >> 6)) < 64 && z & 63 < 64)
            by (bit_vector);
        lemma_b64_digit_value(x >> 2);
        lemma_b64_digit_value(((x & 3) << 4) | (y >> 4));
        lemma_b64_digit_value(((y & 15) << 2) | (z >> 6));
        lemma_b64_digit_value(z & 63);
        let a = x >> 2;
        let b = ((x & 3) << 4) | (y >> 4);
        let c = ((y & 15) << 2) | (z >> 6);
        let d = z & 63;
        assert((a << 2) | (b >> 4) == x) by (bit_vector)
            requires
                a == x >> 2,
                b == ((x & 3) << 4) | (y >> 4),
        ;
        assert(((b & 15) << 4) | (c >> 2) == y) by (bit_vector)
            requires
                b == ((x & 3) << 4) | (y >> 4),
                c == ((y & 15) << 2) | (z >> 6),
        ;
        assert(((c & 3) << 6) | d == z) by (bit_vector)
            requires
                c == ((y & 15) << 2) | (z >> 6),
                d == z & 63,
        ;
        lemma_base64_round_trip(rest);
        let head = seq![b64_digit(a), b64_digit(b), b64_digit(c), b64_digit(d)];
        assert(e == head + base64_spec(rest));
        assert(e.subrange(4, e.len() as int) =~= base64_spec(rest));
        assert(e.len() >= 4);
        assert(seq![(a << 2) | (b >> 4), ((b & 15) << 4) | (c >> 2), ((c & 3) << 6) | d] + rest =~= s);
    }
}

/// The base64 digit of a 6-bit value.
fn b64_digit_exec(v: u8) -> (c: u8)
    requires
        v < 64,
    ensures
        c == b64_digit(v),
{
    if v < 26 {
        65 + v
    } else if v < 52 {
        71 + v
    } else if v < 62 {
        v - 4
    } else if v == 62 {
        43
    } else {
        47
    }
}

/// The 6-bit value of a base64 digit.
fn b64_value_exec(c: u8) -> (v: Option<u8>)
    ensures
        v == b64_value(c),
{
    if 65 <= c && c <= 90 {
        Some(c - 65)
    } else if 97 <= c && c <= 122 {
        Some(c - 71)
    } else if 48 <= c && c <= 57 {
        Some(c + 4)
    } else if c == 43 {
        Some(62)
    } else if c == 47 {
        Some(63)
    } else {
        None
    }
}

/// Unpadded base64 of `data` (see `base64_spec`), as ASCII bytes.
pub fn base64_encode(data: &[u8]) -> (out: Vec<u8>)
    ensures
        out@ == base64_spec(data@),
{
    let n = data.len();
    let mut out: Vec<u8> = Vec::new();
    let mut i: usize = 0;
    assert(data@.subrange(0, n as int) =~= data@);
    assert(out@ + base64_spec(data@) =~= base64_spec(data@));
    while n - i >= 3
        invariant
            n == data@.len(),
            i <= n,
            base64_spec(data@) == out@ + base64_spec(data@.subrange(i as int, n as int)),
        decreases n - i,
    {
        let x = data[i];
        let y = data[i + 1];
        let z = data[i + 2];
        assert(x >> 2 < 64 && (((x & 3) << 4) | (y >> 4)) < 64 && (((y & 15) << 2) | (z >> 6)) < 64 && z & 63 < 64)
            by (bit_vector);
        let ghost tail = data@.subrange(i as int, n as int);
        let ghost prev = out@;
        out.push(b64_digit_exec(x >> 2));
        out.push(b64_digit_exec(((x & 3) << 4) | (y >> 4)));
        out.push(b64_digit_exec(((y & 15) << 2) | (z >> 6)));
        out.push(b64_digit_exec(z & 63));
        assert(tail.subrange(3, tail.len() as int) =~= data@.subrange(i + 3, n as int));
        assert(base64_spec(tail) == out@.subrange(prev.len() as int, out@.len() as int) + base64_spec(
            data@.subrange(i + 3, n as int),
        ));
        assert(out@ =~= prev + out@.subrange(prev.len() as int, out@.len() as int));
        i = i + 3;
    }
    let ghost tail = data@.subrange(i as int, n as int);
    let ghost prev = out@;
    if n - i == 2 {
        let x = data[i];
        let y = data[i + 1];
        assert(x >> 2 < 64 && (((x & 3) << 4) | (y >> 4)) < 64 && (y & 15) << 2 < 64) by (bit_vector);
        out.push(b64_digit_exec(x >> 2));
        out.push(b64_digit_exec(((x & 3) << 4) | (y >> 4)));
        out.push(b64_digit_exec((y & 15) << 2));
        assert(out@ =~= prev + base64_spec(tail));
    } else if n - i == 1 {
        let x = data[i];
        assert(x >> 2 < 64 && (x & 3) << 4 < 64) by (bit_vector);
        out.push(b64_digit_exec(x >> 2));
        out.push(b64_digit_exec((x & 3) << 4));
        assert(out@ =~= prev + base64_spec(tail));
    } else {
        assert(out@ =~= prev + base64_spec(tail));
    }
    out
}

/// Decoding of unpadded base64 (see `base64_decode_spec`).
pub fn base64_decode(text: &[u8]) -> (out: Option<Vec<u8>>)
    ensures
        match out {
            Some(v) => base64_decode_spec(text@) == Some(v@),
            None => base64_decode_spec(text@) is None,
        },
{
    let n = text.len();
    let mut out: Vec<u8> = Vec::new();
    let mut i: usize = 0;
    assert(text@.subrange(0, n as int) =~= text@);
    proof {
        match base64_decode_spec(text@) {
            Some(r) => {
                assert(out@ + r =~= r);
            },
            None => {},
        }
    }
    while n - i >= 4
        invariant
            n == text@.len(),
            i <= n,
            base64_decode_spec(text@) == prepend_some(out@, base64_decode_spec(text@.subrange(i as int, n as int))),
        decreases n - i,
    {
        let ghost tail = text@.subrange(i as int, n as int);
        assert(tail.subrange(4, tail.len() as int) =~= text@.subrange(i + 4, n as int));
        let a = match b64_value_exec(text[i]) {
            Some(v) => v,
            None => return None,
        };
        let b = match b64_value_exec(text[i + 1]) {
            Some(v) => v,
            None => return None,
        };
        let c = match b64_value_exec(text[i + 2]) {
            Some(v) => v,
            None => return None,
        };
        let d = match b64_value_exec(text[i + 3]) {
            Some(v) => v,
            None => return None,
        };
        let ghost prev = out@;
        out.push((a << 2) | (b >> 4));
        out.push(((b & 15) << 4) | (c >> 2));
        out.push(((c & 3) << 6) | d);
        assert(out@ =~= prev + seq![(a << 2) | (b >> 4), ((b & 15) << 4) | (c >> 2), ((c & 3) << 6) | d]);
        proof {
            let rest = base64_decode_spec(text@.subrange(i + 4, n as int));
            match rest {
                Some(r) => {
                    assert(prev + (seq![(a << 2) | (b >> 4), ((b & 15) << 4) | (c >> 2), ((c & 3) << 6) | d] + r)
                        =~= out@ + r);
                },
                None => {},
            }
        }
        i = i + 4;
    }
    let ghost tail = text@.subrange(i as int, n as int);
    let ghost prev = out@;
    if n - i == 1 {
        return None;
    } else if n - i == 2 {
        let a = match b64_value_exec(text[i]) {
            Some(v) => v,
            None => return None,
        };
        let b = match b64_value_exec(text[i + 1]) {
            Some(v) => v,
            None => return None,
        };
        if b & 15 != 0 {
            return None;
        }
        out.push((a << 2) | (b >> 4));
        assert(out@ =~= prev + seq![(a << 2) | (b >> 4)]);
    } else if n - i == 3 {
        let a = match b64_value_exec(text[i]) {
            Some(v) => v,
            None => return None,
        };
        let b = match b64_value_exec(text[i + 1]) {
            Some(v) => v,
            None => return None,
        };
        let c = match b64_value_exec(text[i + 2]) {
            Some(v) => v,
            None => return None,
        };
        if c & 3 != 0 {
            return None;
        }
        out.push((a << 2) | (b >> 4));
        out.push(((b & 15) << 4) | (c >> 2));
        assert(out@ =~= prev + seq![(a << 2) | (b >> 4), ((b & 15) << 4) | (c >> 2)]);
    } else {
        assert(out@ =~= prev + seq![]);
    }
    Some(out)
}

/// Base64 digits are ASCII letters, digits, `+` and `/`: each is at
/// least 43 and below 123.
pub proof fn lemma_base64_ascii(s: Seq<u8>)
    ensures
        forall|i: int| 0 <= i < base64_spec(s).len() ==> 43 <= #[trigger] base64_spec(s)[i] < 123,
    decreases s.len(),
{
    let e = base64_spec(s);
    if s.len() >= 3 {
        let rest = s.subrange(3, s.len() as int);
        lemma_base64_ascii(rest);
        let x = s[0];
        let y = s[1];
        let z = s[2];
        assert(x >> 2 < 64 && (((x & 3) << 4) | (y >> 4)) < 64 && (((y & 15) << 2) | (z >> 6)) < 64 && z & 63 < 64)
            by (bit_vector);
        assert forall|i: int| 0 <= i < e.len() implies 43 <= #[trigger] e[i] < 123 by {
            if i >= 4 {
                assert(e[i] == base64_spec(rest)[i - 4]);
            }
        }
    } else if s.len() == 2 {
        let x = s[0];
        let y = s[1];
        assert(x >> 2 < 64 && (((x & 3) << 4) | (y >> 4)) < 64 && (y & 15) << 2 < 64) by (bit_vector);
    } else if s.len() == 1 {
        let x = s[0];
        assert(x >> 2 < 64 && (x & 3) << 4 < 64) by (bit_vector);
    }
}

/// The decimal digit of a value below 10.
pub open spec fn dec_digit(v: u64) -> char {
    (48 + v) as char
}

/// Decimal writing of an unsigned integer, without leading zeros.
pub open spec fn u64_decimal(v: u64) -> Seq<char>
    decreases v,
{
    if v < 10 {
        seq![dec_digit(v)]
    } else {
        u64_decimal(v / 10) + seq![dec_digit(v % 10)]
    }
}

fn dec_digit_exec(v: u64) -> (c: char)
    requires
        v < 10,
    ensures
        c == dec_digit(v),
{
    match v {
        0 => '0',
        1 => '1',
        2 => '2',
        3 => '3',
        4 => '4',
        5 => '5',
        6 => '6',
        7 => '7',
        8 => '8',
        _ => '9',
    }
}

/// Writes an unsigned integer in decimal (see `u64_decimal`).
pub fn u64_to_chars(v: u64) -> (d: Vec<char>)
    ensures
        d@ == u64_decimal(v),
    decreases v,
{
    if v < 10 {
        let mut d: Vec<char> = Vec::new();
        d.push(dec_digit_exec(v));
        assert(d@ =~= u64_decimal(v));
        d
    } else {
        let mut d = u64_to_chars(v / 10);
        d.push(dec_digit_exec(v % 10));
        assert(d@ =~= u64_decimal(v));
        d
    }
}

/// An ASCII decimal digit.
pub open spec fn is_digit_char(c: char) -> bool {
    '0' <= c <= '9'
}

/// Every character is a decimal digit.
pub open spec fn all_digit_chars(d: Seq<char>) -> bool {
    forall|i: int| 0 <= i < d.len() ==> #[trigger] is_digit_char(d[i])
}

/// Value of a string of decimal digits.
pub open spec fn decimal_chars_value(d: Seq<char>) -> int
    decreases d.len(),
{
    if d.len() == 0 {
        0
    } else {
        decimal_chars_value(d.drop_last()) * 10 + (d.last() as int - 48)
    }
}

/// `u64::from_str`: an optional `+`, then at least one decimal digit, for a
/// value of at most `u64::MAX`.
pub open spec fn parse_u64_spec(s: Seq<char>) -> Option<u64> {
    let d = unsigned_digit_chars(s);
    if d.len() == 0 || !all_digit_chars(d) {
        None
    } else if decimal_chars_value(d) > u64::MAX {
        None
    } else {
        Some(decimal_chars_value(d) as u64)
    }
}

/// A number written in decimal by `u64_to_chars` is read back by
/// `parse_u64`.
pub proof fn lemma_decimal_round_trip(v: u64)
    ensures
        parse_u64_spec(u64_decimal(v)) == Some(v),
{
    lemma_decimal_digits_value(v);
    let d = u64_decimal(v);
    assert(is_digit_char(d[0]));
    assert(unsigned_digit_chars(d) == d);
}

/// The decimal writing of `v` is made of digits, whose value is `v`.
proof fn lemma_decimal_digits_value(v: u64)
    ensures
        u64_decimal(v).len() > 0,
        all_digit_chars(u64_decimal(v)),
        decimal_chars_value(u64_decimal(v)) == v,
    decreases v,
{
    let d = u64_decimal(v);
    assert(decimal_chars_value(d) == decimal_chars_value(d.drop_last()) * 10 + (d.last() as int - 48));
    if v < 10 {
        assert(d.drop_last() =~= Seq::<char>::empty());
        assert(d.last() == dec_digit(v));
        assert(dec_digit(v) as int == 48 + v);
    } else {
        lemma_decimal_digits_value(v / 10);
        let r = (v % 10) as u64;
        assert(d.drop_last() =~= u64_decimal(v / 10));
        assert(dec_digit(r) as int == 48 + r);
        assert(d.last() == dec_digit(r));
        assert forall|i: int| 0 <= i < d.len() implies #[trigger] is_digit_char(d[i]) by {
            if i < d.len() - 1 {
                assert(d[i] == u64_decimal(v / 10)[i]);
            }
        }
        assert((v / 10) as int * 10 + r == v);
    }
}

/// The characters of a string (`str::chars`, collected).
#[verifier::external_body]
pub(crate) fn chars_of(s: &str) -> (v: Vec<char>)
    ensures
        v@ == s@,
{
    s.chars().collect()
}

/// A string made of characters (`String::from_iter`).
#[verifier::external_body]
pub(crate) fn string_from_chars(v: &[char]) -> (s: String)
    ensures
        s@ == v@,
{
    v.iter().collect()
}

/// The digits of an unsigned number: without a leading `+`.
pub open spec fn unsigned_digit_chars(s: Seq<char>) -> Seq<char> {
    if s.len() > 0 && s[0] == '+' { s.subrange(1, s.len() as int) } else { s }
}

proof fn lemma_decimal_chars_nonneg(d: Seq<char>)
    requires
        forall|j: int| 0 <= j < d.len() ==> #[trigger] is_digit_char(d[j]),
    ensures
        decimal_chars_value(d) >= 0,
    decreases d.len(),
{
    if d.len() > 0 {
        assert(forall|j: int| 0 <= j < d.drop_last().len() ==> d.drop_last()[j] == d[j]);
        lemma_decimal_chars_nonneg(d.drop_last());
        assert(is_digit_char(d[d.len() - 1]));
    }
}

proof fn lemma_decimal_chars_prefix(d: Seq<char>, i: int)
    requires
        0 <= i <= d.len(),
        forall|j: int| 0 <= j < d.len() ==> #[trigger] is_digit_char(d[j]),
    ensures
        decimal_chars_value(d.subrange(0, i)) <= decimal_chars_value(d),
    decreases d.len() - i,
{
    if i < d.len() {
        lemma_decimal_chars_prefix(d, i + 1);
        assert(d.subrange(0, i + 1).drop_last() =~= d.subrange(0, i));
        assert(is_digit_char(d[i]));
        assert(decimal_chars_value(d.subrange(0, i)) >= 0) by {
            lemma_decimal_chars_nonneg(d.subrange(0, i));
        }
    } else {
        assert(d.subrange(0, i) =~= d);
    }
}

/// Reads an unsigned integer written in decimal (see `parse_u64_spec`).
pub fn parse_u64(s: &str) -> (v: Option<u64>)
    ensures
        v == parse_u64_spec(s@),
{
    let c = chars_of(s);
    let n = c.len();
    let start: usize = if n > 0 && c[0] == '+' { 1 } else { 0 };
    let ghost d = unsigned_digit_chars(s@);
    assert(d =~= c@.subrange(start as int, n as int));
    if start == n {
        return None;
    }
    let mut acc: u128 = 0;
    let mut i: usize = start;
    while i < n
        invariant
            n == c@.len(),
            c@ == s@,
            start <= i <= n,
            d == c@.subrange(start as int, n as int),
            d == unsigned_digit_chars(s@),
            d.len() > 0,
            acc <= u64::MAX,
            acc == decimal_chars_value(d.subrange(0, i - start)),
            forall|j: int| 0 <= j < i - start ==> #[trigger] is_digit_char(d[j]),
        decreases n - i,
    {
        let ch = c[i];
        if ch < '0' || ch > '9' {
            assert(d[i - start] == ch);
            assert(!is_digit_char(d[i - start]));
            return None;
        }
        let digit: u128 = (ch as u32 - 48) as u128;
        assert(d.subrange(0, i + 1 - start).drop_last() =~= d.subrange(0, i - start));
        assert(d[i - start] == ch);
        let next = acc * 10 + digit;
        if next > u64::MAX as u128 {
            proof {
                assert(decimal_chars_value(d.subrange(0, i + 1 - start)) == next);
                if all_digit_chars(d) {
                    lemma_decimal_chars_prefix(d, i + 1 - start);
                }
            }
            return None;
        }
        acc = next;
        i = i + 1;
    }
    assert(d.subrange(0, d.len() as int) =~= d);
    Some(acc as u64)
}

/// `u32::from_str`: as `parse_u64_spec`, for a value of at most
/// `u32::MAX`.
pub open spec fn parse_u32_spec(s: Seq<char>) -> Option<u32> {
    match parse_u64_spec(s) {
        Some(v) => if v <= u32::MAX { Some(v as u32) } else { None },
        None => None,
    }
}

/// Reads an unsigned 32-bit integer written in decimal (see
/// `parse_u32_spec`).
pub fn parse_u32(s: &str) -> (v: Option<u32>)
    ensures
        v == parse_u32_spec(s@),
{
    match parse_u64(s) {
        Some(v) => if v <= u32::MAX as u64 {
            Some(v as u32)
        } else {
            None
        },
        None => None,
    }
}

/// Seconds from the Unix epoch to now (`SystemTime::now`,
/// `SystemTime::duration_since` and `Duration::as_secs`), or an error when
/// the clock is set before the epoch. Nothing is promised of the value.
#[verifier::external_body]
fn seconds_since_epoch() -> (r: Result<u64, ()>) {
    match SystemTime::now().duration_since(SystemTime::UNIX_EPOCH) {
        Ok(n) => Ok(n.as_secs()),
        Err(_) => Err(()),
    }
}

/// The time read from the clock, in seconds since the Unix epoch: the
/// seconds read, or 0 when the clock is set before the epoch.
pub fn epoch_seconds_or_zero(since_epoch: Result<u64, ()>) -> (t: u64)
    ensures
        match since_epoch {
            Ok(n) => t == n,
            Err(_) => t == 0,
        },
{
    match since_epoch {
        Ok(n) => n,
        Err(_) => 0,
    }
}

/// Seconds since the Unix epoch, 0 when the clock is set before it (see
/// `epoch_seconds_or_zero`).
pub fn time_now() -> (t: u64) {
    epoch_seconds_or_zero(seconds_since_epoch())
}

/// The SHA-256 digest of `msg`.
pub uninterp spec fn sha256(msg: Seq<u8>) -> [u8; 32];

/// SHA-256 (`Sha256::new`, `Digest::update` and `Digest::finalize` of the
/// `sha2` crate); the contract names the digest.
#[verifier::external_body]
fn sha256_digest(msg: &[u8]) -> (d: [u8; 32])
    ensures
        d == sha256(msg@),
{
    let mut hasher = Sha256::new();
    hasher.update(msg);
    let mut d = [0u8; 32];
    d.copy_from_slice(&hasher.finalize());
    d
}

/// The SHA-256 digest of a text, as a vector of 32 bytes.
pub fn hash_sha256(entropy: &str) -> (h: Vec<u8>)
    ensures
        h@ == sha256(encode_utf8(entropy@))@,
        h@.len() == 32,
{
    let d = sha256_digest(entropy.as_bytes());
    vstd::slice::slice_to_vec(d.as_slice())
}

/// The calendar fields of an instant, in UTC: the year of the common era,
/// the month (from 1), the day of the month, the weekday counted from
/// Monday (0), the hour and the minute.
pub struct DateFields {
    pub year_ce: u32,
    pub month: u32,
    pub day: u32,
    pub weekday: u32,
    pub hour: u32,
    pub minute: u32,
}

/// The calendar fields, in UTC, of the Unix timestamp `unix_ts` (in
/// seconds), or those of the earliest date that `chrono` can hold when the
/// timestamp is out of its range.
pub uninterp spec fn utc_fields(unix_ts: i64) -> (u32, u32, u32, u32, u32, u32);

/// The calendar fields, in the proleptic Gregorian calendar, of a
/// timestamp from the Unix epoch on: the days since 1970-01-01 are counted
/// in eras of 400 years (146097 days) from 0000-03-01, each year from March
/// so that the leap day ends it. 1970-01-01 was a Thursday.
pub open spec fn civil_fields(ts: int) -> (u32, u32, u32, u32, u32, u32) {
    let days = ts / 86400;
    let secs = ts % 86400;
    let z = days + 719468;
    let era = z / 146097;
    let doe = z - era * 146097;
    let yoe = (doe - doe / 1460 + doe / 36524 - doe / 146096) / 365;
    let doy = doe - (365 * yoe + yoe / 4 - yoe / 100);
    let mp = (5 * doy + 2) / 153;
    let day = doy - (153 * mp + 2) / 5 + 1;
    let month = if mp < 10 { mp + 3 } else { mp - 9 };
    let year = yoe + era * 400 + if month <= 2 { 1int } else { 0int };
    (year as u32, month as u32, day as u32, ((days + 3) % 7) as u32, (secs / 3600) as u32, (secs % 3600 / 60) as u32)
}

/// The last second of the year 9999.
pub open spec fn last_second_of_9999() -> int {
    253402300799
}

/// The fields of `DateFields` as a tuple, in their order.
pub open spec fn date_tuple(d: DateFields) -> (u32, u32, u32, u32, u32, u32) {
    (d.year_ce, d.month, d.day, d.weekday, d.hour, d.minute)
}

/// The date of a Unix timestamp (`DateTime::from_timestamp` of the `chrono`
/// crate, or `DateTime::MIN_UTC` when it gives none), read as calendar
/// fields (`year_ce`, `month`, `day`, `weekday` with
/// `num_days_from_monday`, `hour`, `minute`). The fields depend on the
/// timestamp alone; the contract names them, and states them from the
/// epoch to the end of the year 9999, well inside the range of `chrono`
/// (years up to 262142), by the civil calendar (see `civil_fields`).
#[verifier::external_body]
pub fn datetime_from_unix(unix_ts: i64) -> (d: DateFields)
    ensures
        date_tuple(d) == utc_fields(unix_ts),
        0 <= unix_ts <= last_second_of_9999() ==> date_tuple(d) == civil_fields(unix_ts as int),
{
    let dt = match DateTime::from_timestamp(unix_ts, 0) {
        Some(date) => date,
        None => DateTime::<Utc>::MIN_UTC,
    };
    let day = dt.date_naive();
    DateFields {
        year_ce: day.year_ce().1,
        month: day.month(),
        day: day.day(),
        weekday: day.weekday().num_days_from_monday(),
        hour: dt.time().hour(),
        minute: dt.time().minute(),
    }
}

} // verus!
