//! UTF-8 text and decimal numbers.

use vstd::prelude::*;
use vstd::utf8::*;
use vstd::string::StringSliceAdditionalSpecFns;

verus! {

/// `std::str::from_utf8`: the bytes as text when they are valid UTF-8.
///
/// Claimed of the std function: it succeeds exactly on valid UTF-8, and the text it
/// gives back is made of the same bytes.
#[verifier::external_body]
pub fn str_from_utf8<'a>(bytes: &'a [u8]) -> (res: Option<&'a str>)
    ensures
        res is Some <==> valid_utf8(bytes@),
        res matches Some(s) ==> s.spec_bytes() == bytes@,
{
    std::str::from_utf8(bytes).ok()
}

} // verus!

verus! {

/// Whether `b` is an ASCII decimal digit.
pub open spec fn is_digit(b: u8) -> bool {
    48 <= b <= 57
}

/// Whether every byte of `s` is an ASCII decimal digit.
pub open spec fn all_digits(s: Seq<u8>) -> bool {
    forall|i: int| 0 <= i < s.len() ==> is_digit(#[trigger] s[i])
}

/// The number that the decimal digits `s` spell.
pub open spec fn digits_value(s: Seq<u8>) -> nat
    decreases s.len(),
{
    if s.len() == 0 {
        0
    } else {
        digits_value(s.drop_last()) * 10 + (s.last() - 48) as nat
    }
}

/// The ASCII decimal digits of `v`, without leading zeros.
pub open spec fn dec(v: nat) -> Seq<u8>
    decreases v,
{
    if v < 10 {
        seq![(48 + v) as u8]
    } else {
        dec(v / 10) + seq![(48 + v % 10) as u8]
    }
}

/// The lowercase hexadecimal digit of `d`.
pub open spec fn hex_digit(d: nat) -> u8 {
    if d < 10 {
        (48 + d) as u8
    } else {
        (87 + d) as u8
    }
}

/// The lowercase ASCII hexadecimal digits of `v`, without leading zeros.
pub open spec fn hex(v: nat) -> Seq<u8>
    decreases v,
{
    if v < 16 {
        seq![hex_digit(v)]
    } else {
        hex(v / 16) + seq![hex_digit(v % 16)]
    }
}

/// The digits of an unsigned number in text: a leading `+` is allowed.
pub open spec fn unsigned_digits(s: Seq<u8>) -> Seq<u8> {
    if s.len() > 0 && s[0] == 43 {
        s.drop_first()
    } else {
        s
    }
}

/// What parsing `s` as a `u8` gives: an optional `+` and at least one decimal digit, of
/// value at most 255.
pub open spec fn parse_dec_u8(s: Seq<u8>) -> Option<u8> {
    let d = unsigned_digits(s);
    if d.len() > 0 && all_digits(d) && digits_value(d) <= 255 {
        Some(digits_value(d) as u8)
    } else {
        None
    }
}

/// The decimal digits of a number spell that number.
pub proof fn lemma_dec(v: nat)
    ensures
        dec(v).len() > 0,
        all_digits(dec(v)),
        digits_value(dec(v)) == v,
        v < 10 ==> dec(v).len() == 1,
        v < 100 ==> dec(v).len() <= 2,
        v < 1000 ==> dec(v).len() <= 3,
    decreases v,
{
    if v < 10 {
        let s = dec(v);
        assert(s.drop_last() =~= Seq::<u8>::empty());
        assert(digits_value(s.drop_last()) == 0);
        assert(s.last() == (48 + v) as u8);
        assert(digits_value(s) == digits_value(s.drop_last()) * 10 + (s.last() - 48) as nat);
    } else {
        lemma_dec(v / 10);
        let s = dec(v);
        assert(s.drop_last() =~= dec(v / 10));
        assert(s.last() == (48 + v % 10) as u8);
        vstd::arithmetic::div_mod::lemma_fundamental_div_mod(v as int, 10);
        assert(digits_value(s) == digits_value(dec(v / 10)) * 10 + v % 10);
        assert forall|i: int| 0 <= i < s.len() implies is_digit(#[trigger] s[i]) by {
            if i < s.len() - 1 {
                assert(s[i] == dec(v / 10)[i]);
            }
        }
    }
}

/// Parsing the decimal digits of a byte gives the byte back.
pub proof fn lemma_parse_dec_u8(v: u8)
    ensures
        parse_dec_u8(dec(v as nat)) == Some(v),
{
    lemma_dec(v as nat);
    assert(dec(v as nat)[0] != 43);
}

/// Appends the decimal digits of `v` to `out`.
pub fn push_dec(out: &mut Vec<u8>, v: u32)
    ensures
        final(out)@ == old(out)@ + dec(v as nat),
    decreases v,
{
    if v < 10 {
        out.push(48 + v as u8);
        assert(dec(v as nat) =~= seq![(48 + v) as u8]);
    } else {
        push_dec(out, v / 10);
        out.push(48 + (v % 10) as u8);
        assert(dec(v as nat) =~= dec((v / 10) as nat) + seq![(48 + v % 10) as u8]);
    }
}

/// Appends the lowercase hexadecimal digits of `v` to `out`.
pub fn push_hex(out: &mut Vec<u8>, v: u32)
    ensures
        final(out)@ == old(out)@ + hex(v as nat),
    decreases v,
{
    if v < 16 {
        let d: u8 = if v < 10 { 48 + v as u8 } else { 87 + v as u8 };
        out.push(d);
        assert(hex(v as nat) =~= seq![d]);
    } else {
        push_hex(out, v / 16);
        let m = v % 16;
        let d: u8 = if m < 10 { 48 + m as u8 } else { 87 + m as u8 };
        out.push(d);
        assert(hex(v as nat) =~= hex((v / 16) as nat) + seq![d]);
    }
}

/// Parses `s` as a `u8` the way `str::parse::<u8>` does.
pub fn parse_u8(s: &[u8]) -> (r: Option<u8>)
    ensures
        r == parse_dec_u8(s@),
{
    let mut start: usize = 0;
    if s.len() > 0 && s[0] == 43 {
        start = 1;
    }
    let ghost d = unsigned_digits(s@);
    assert(d =~= s@.subrange(start as int, s@.len() as int));
    if start >= s.len() {
        return None;
    }
    let mut acc: u32 = 0;
    let mut i: usize = start;
    while i < s.len()
        invariant
            start <= i <= s@.len(),
            start < s@.len(),
            d == s@.subrange(start as int, s@.len() as int),
            d == unsigned_digits(s@),
            all_digits(d.take(i - start)),
            acc as nat == if digits_value(d.take(i - start)) < 256 {
                digits_value(d.take(i - start))
            } else {
                256
            },
        decreases s@.len() - i,
    {
        let b = s[i];
        if b < 48 || b > 57 {
            assert(d[i - start] == b);
            assert(!is_digit(d[i - start]));
            return None;
        }
        let ghost k: int = i - start;
        assert(d.take(k + 1).drop_last() =~= d.take(k));
        assert(d.take(k + 1).last() == b);
        let next = acc * 10 + (b - 48) as u32;
        acc = if next < 256 { next } else { 256 };
        i = i + 1;
        assert forall|j: int| 0 <= j < d.take(k + 1).len() implies is_digit(
            #[trigger] d.take(k + 1)[j],
        ) by {
            if j < k {
                assert(d.take(k + 1)[j] == d.take(k)[j]);
            }
        }
    }
    assert(d.take(d.len() as int) =~= d);
    if acc < 256 {
        Some(acc as u8)
    } else {
        None
    }
}

/// Bytes below 128 are valid UTF-8.
pub proof fn lemma_ascii_valid_utf8(s: Seq<u8>)
    requires
        forall|i: int| 0 <= i < s.len() ==> #[trigger] s[i] < 128,
    ensures
        valid_utf8(s),
    decreases s.len(),
{
    if s.len() > 0 {
        let rest = pop_first_scalar(s);
        assert(rest =~= s.subrange(1, s.len() as int));
        assert forall|i: int| 0 <= i < rest.len() implies #[trigger] rest[i] < 128 by {
            assert(rest[i] == s[i + 1]);
        }
        lemma_ascii_valid_utf8(rest);
    }
}

/// Decimal digits are valid UTF-8.
pub proof fn lemma_dec_valid_utf8(v: nat)
    ensures
        valid_utf8(dec(v)),
{
    lemma_dec(v);
    assert forall|i: int| 0 <= i < dec(v).len() implies #[trigger] dec(v)[i] < 128 by {
        assert(is_digit(dec(v)[i]));
    }
    lemma_ascii_valid_utf8(dec(v));
}


/// In valid UTF-8, an ASCII byte ends the text before it and starts the text after it.
pub proof fn lemma_valid_around_ascii(s: Seq<u8>, k: int)
    requires
        valid_utf8(s),
        0 <= k < s.len(),
        s[k] < 128,
    ensures
        valid_utf8(s.subrange(0, k)),
        valid_utf8(s.subrange(k, s.len() as int)),
        valid_utf8(s.subrange(k + 1, s.len() as int)),
{
    is_char_boundary_iff_not_is_continuation_byte(s, k);
    valid_utf8_split(s, k);
    let t = s.subrange(k, s.len() as int);
    assert(t[0] == s[k]);
    assert(length_of_first_scalar(t) == 1);
    assert(pop_first_scalar(t) =~= s.subrange(k + 1, s.len() as int));
}

/// What parsing `s` as a `u32` gives: an optional `+` and at least one decimal digit, of
/// value below 2^32.
pub open spec fn parse_dec_u32(s: Seq<u8>) -> Option<u32> {
    let d = unsigned_digits(s);
    if d.len() > 0 && all_digits(d) && digits_value(d) <= u32::MAX {
        Some(digits_value(d) as u32)
    } else {
        None
    }
}

/// Parses `s` as a `u32` the way `str::parse::<u32>` does.
pub fn parse_u32(s: &[u8]) -> (r: Option<u32>)
    ensures
        r == parse_dec_u32(s@),
{
    let mut start: usize = 0;
    if s.len() > 0 && s[0] == 43 {
        start = 1;
    }
    let ghost d = unsigned_digits(s@);
    assert(d =~= s@.subrange(start as int, s@.len() as int));
    if start >= s.len() {
        return None;
    }
    let mut acc: u64 = 0;
    let mut i: usize = start;
    while i < s.len()
        invariant
            start <= i <= s@.len(),
            start < s@.len(),
            d == s@.subrange(start as int, s@.len() as int),
            d == unsigned_digits(s@),
            all_digits(d.take(i - start)),
            acc as nat == if digits_value(d.take(i - start)) <= u32::MAX {
                digits_value(d.take(i - start))
            } else {
                0x1_0000_0000
            },
        decreases s@.len() - i,
    {
        let b = s[i];
        if b < 48 || b > 57 {
            assert(d[i - start] == b);
            assert(!is_digit(d[i - start]));
            return None;
        }
        let ghost k: int = i - start;
        assert(d.take(k + 1).drop_last() =~= d.take(k));
        assert(d.take(k + 1).last() == b);
        let next = acc * 10 + (b - 48) as u64;
        acc = if next <= 0xffff_ffff { next } else { 0x1_0000_0000 };
        i = i + 1;
        assert forall|j: int| 0 <= j < d.take(k + 1).len() implies is_digit(
            #[trigger] d.take(k + 1)[j],
        ) by {
            if j < k {
                assert(d.take(k + 1)[j] == d.take(k)[j]);
            }
        }
    }
    assert(d.take(d.len() as int) =~= d);
    if acc <= 0xffff_ffff {
        Some(acc as u32)
    } else {
        None
    }
}

} // verus!
