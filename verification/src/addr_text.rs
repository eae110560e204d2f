//! The text form of socket addresses, as `std::net` writes and reads it.

use vstd::prelude::*;

use crate::net::{ipv4_from_octets, ipv4_octet, SocketAddr, SocketAddrV4, SocketAddrV6};
use crate::text::{all_digits, dec, digits_value, is_digit, lemma_dec, push_dec};

verus! {

/// Whether `b` is a digit of base 16 (`hex`) or base 10.
pub open spec fn is_radix_digit(b: u8, hex: bool) -> bool {
    is_digit(b) || (hex && ((97 <= b <= 102) || (65 <= b <= 70)))
}

/// The value of the digit `b`.
pub open spec fn radix_digit_value(b: u8) -> nat {
    if is_digit(b) {
        (b - 48) as nat
    } else if 97 <= b <= 102 {
        (b - 87) as nat
    } else {
        (b - 55) as nat
    }
}

/// The base of the digits.
pub open spec fn radix(hex: bool) -> nat {
    if hex {
        16
    } else {
        10
    }
}

/// The number that the digits `s` spell in base 16 (`hex`) or 10.
pub open spec fn radix_value(s: Seq<u8>, hex: bool) -> nat
    decreases s.len(),
{
    if s.len() == 0 {
        0
    } else {
        radix_value(s.drop_last(), hex) * radix(hex) + radix_digit_value(s.last())
    }
}

/// The number of digits at the start of `s`.
pub open spec fn digit_run(s: Seq<u8>, hex: bool) -> nat
    decreases s.len(),
{
    if s.len() > 0 && is_radix_digit(s[0], hex) {
        1 + digit_run(s.drop_first(), hex)
    } else {
        0
    }
}

/// Reading a number at the start of `s` the way `std::net` does: all the digits that
/// follow are read; there must be at least one and at most `max_digits` (no limit when
/// it is 0); the value must not exceed `bound`; without `allow_zero_prefix` a number of
/// several digits must not begin with `0`. The result is the value and the number of
/// digits.
#[verifier::opaque]
pub open spec fn read_number(s: Seq<u8>, hex: bool, max_digits: nat, allow_zero_prefix: bool, bound: nat) -> Option<(nat, nat)> {
    let r = digit_run(s, hex);
    let v = radix_value(s.take(r as int), hex);
    if r == 0 || (max_digits > 0 && r > max_digits) || v > bound || (!allow_zero_prefix
        && s[0] == 48 && r > 1) {
        None
    } else {
        Some((v, r))
    }
}

/// The digits at the start of `s` are the first `k` bytes.
pub proof fn lemma_digit_run(s: Seq<u8>, hex: bool, k: nat)
    requires
        k <= s.len(),
        forall|i: int| 0 <= i < k ==> is_radix_digit(#[trigger] s[i], hex),
        k == s.len() || !is_radix_digit(s[k as int], hex),
    ensures
        digit_run(s, hex) == k,
    decreases k,
{
    if k > 0 {
        assert(is_radix_digit(s[0], hex));
        lemma_digit_run(s.drop_first(), hex, (k - 1) as nat);
    }
}

/// Decimal digits have the same value as a number of base 10.
pub proof fn lemma_radix_value_dec(s: Seq<u8>)
    requires
        all_digits(s),
    ensures
        radix_value(s, false) == digits_value(s),
    decreases s.len(),
{
    if s.len() > 0 {
        assert(all_digits(s.drop_last())) by {
            assert forall|i: int| 0 <= i < s.drop_last().len() implies is_digit(
                #[trigger] s.drop_last()[i],
            ) by {
                assert(s.drop_last()[i] == s[i]);
            }
        }
        lemma_radix_value_dec(s.drop_last());
        assert(is_digit(s[s.len() - 1]));
    }
}

/// The decimal digits of a number of more than one digit do not begin with `0`.
pub proof fn lemma_dec_first(v: nat)
    ensures
        v >= 10 ==> dec(v)[0] != 48,
        v < 10 ==> dec(v)[0] == 48 + v,
    decreases v,
{
    if v >= 10 {
        lemma_dec_first(v / 10);
        lemma_dec(v / 10);
        assert(dec(v)[0] == dec(v / 10)[0]);
        if v / 10 < 10 {
            assert(v / 10 >= 1);
        }
    }
}

/// Reading a number at the start of `dec(v) + t`, where `t` does not begin with a digit,
/// gives `v` and the number of its digits.
pub proof fn lemma_read_dec(v: nat, t: Seq<u8>, max_digits: nat, allow_zero_prefix: bool, bound: nat)
    requires
        t.len() == 0 || !is_radix_digit(t[0], false),
        v <= bound,
        max_digits == 0 || dec(v).len() <= max_digits,
    ensures
        read_number(dec(v) + t, false, max_digits, allow_zero_prefix, bound) == Some(
            (v, dec(v).len()),
        ),
{
    reveal(read_number);
    let d = dec(v);
    let s = d + t;
    lemma_dec(v);
    lemma_dec_first(v);
    assert forall|i: int| 0 <= i < d.len() implies is_radix_digit(#[trigger] s[i], false) by {
        assert(s[i] == d[i]);
        assert(is_digit(d[i]));
    }
    if t.len() > 0 {
        assert(s[d.len() as int] == t[0]);
    }
    lemma_digit_run(s, false, d.len());
    assert(s.take(d.len() as int) =~= d);
    lemma_radix_value_dec(d);
}

/// Reads a number at `pos` in `s`; see `read_number`.
pub fn read_number_at(s: &[u8], pos: usize, hex: bool, max_digits: usize, allow_zero_prefix: bool, bound: u32) -> (r: Option<(u32, usize)>)
    requires
        pos <= s@.len(),
    ensures
        match read_number(s@.skip(pos as int), hex, max_digits as nat, allow_zero_prefix, bound as nat) {
            Some((v, l)) => r == Some((v as u32, l as usize)) && v <= bound && pos + l <= s@.len(),
            None => r is None,
        },
        r matches Some((v, l)) ==> pos + l <= s@.len() && v <= bound,
{
    reveal(read_number);
    let ghost t = s@.skip(pos as int);
    let len = s.len();
    let mut i: usize = pos;
    let mut acc: u64 = 0;
    let ghost cap: nat = bound as nat + 1;
    while i < len && (is_digit_exec(s[i]) || (hex && is_hex_letter_exec(s[i])))
        invariant
            len == s@.len(),
            pos <= i <= len,
            t == s@.skip(pos as int),
            forall|j: int| 0 <= j < i - pos ==> is_radix_digit(#[trigger] t[j], hex),
            acc <= bound as u64 + 1,
            cap == bound as nat + 1,
            acc as nat == if radix_value(t.take(i - pos), hex) < cap {
                radix_value(t.take(i - pos), hex)
            } else {
                cap
            },
        decreases len - i,
    {
        let b = s[i];
        let d: u64 = if b >= 48 && b <= 57 {
            (b - 48) as u64
        } else if b >= 97 && b <= 102 {
            (b - 87) as u64
        } else {
            (b - 55) as u64
        };
        let ghost k: int = i - pos;
        assert(t[k] == b);
        assert(t.take(k + 1).drop_last() =~= t.take(k));
        assert(t.take(k + 1).last() == b);
        let base: u64 = if hex { 16 } else { 10 };
        let ghost x = radix_value(t.take(k), hex);
        assert(radix_value(t.take(k + 1), hex) == x * radix(hex) + radix_digit_value(b));
        assert(d as nat == radix_digit_value(b));
        assert(base as nat == radix(hex));
        let next = acc * base + d;
        proof {
            if x >= cap {
                assert(x * radix(hex) >= cap && cap * radix(hex) >= cap) by (nonlinear_arith)
                    requires
                        x >= cap,
                        radix(hex) >= 10,
                ;
            }
        }
        acc = if next <= bound as u64 { next } else { bound as u64 + 1 };
        assert(next as nat == (acc_old_val(x, cap)) * radix(hex) + radix_digit_value(b));
        i = i + 1;
    }
    let ghost r = (i - pos) as nat;
    proof {
        if i < len {
            assert(t[r as int] == s@[i as int]);
        }
        lemma_digit_run(t, hex, r);
    }
    let n = i - pos;
    if n == 0 || (max_digits > 0 && n > max_digits) || acc > bound as u64 {
        return None;
    }
    if !allow_zero_prefix && s[pos] == 48 && n > 1 {
        return None;
    }
    Some((acc as u32, n))
}

spec fn acc_old_val(x: nat, cap: nat) -> nat {
    if x < cap { x } else { cap }
}

/// Whether `b` is an ASCII decimal digit.
pub fn is_digit_exec(b: u8) -> (r: bool)
    ensures
        r == is_digit(b),
{
    b >= 48 && b <= 57
}

/// Whether `b` is an ASCII letter among the hexadecimal digits.
pub fn is_hex_letter_exec(b: u8) -> (r: bool)
    ensures
        r == ((97 <= b <= 102) || (65 <= b <= 70)),
{
    (b >= 97 && b <= 102) || (b >= 65 && b <= 70)
}

/// A `.` and an octet at the start of `s`; the result is the octet and the bytes read.
pub open spec fn read_dot_octet(s: Seq<u8>) -> Option<(nat, nat)> {
    if s.len() > 0 && s[0] == 46 {
        match read_number(s.drop_first(), false, 3, false, 255) {
            Some((v, l)) => Some((v, l + 1)),
            None => None,
        }
    } else {
        None
    }
}

/// An IPv4 address at the start of `s`, the way `std::net` reads one: four decimal
/// octets of at most three digits, without leading zeros, separated by dots. The result
/// is the address and the bytes read.
pub open spec fn read_ipv4(s: Seq<u8>) -> Option<(u32, nat)> {
    match read_number(s, false, 3, false, 255) {
        None => None,
        Some((a, l0)) => match read_dot_octet(s.skip(l0 as int)) {
            None => None,
            Some((b, l1)) => match read_dot_octet(s.skip((l0 + l1) as int)) {
                None => None,
                Some((c, l2)) => match read_dot_octet(s.skip((l0 + l1 + l2) as int)) {
                    None => None,
                    Some((d, l3)) => Some(
                        (ipv4_from_octets(a as u8, b as u8, c as u8, d as u8), l0 + l1 + l2 + l3),
                    ),
                },
            },
        },
    }
}

/// The text of an IPv4 address: its four octets in decimal, separated by dots.
pub open spec fn ipv4_text(ip: u32) -> Seq<u8> {
    dec(ipv4_octet(ip, 0) as nat) + seq![46u8] + dec(ipv4_octet(ip, 1) as nat) + seq![46u8] + dec(
        ipv4_octet(ip, 2) as nat,
    ) + seq![46u8] + dec(ipv4_octet(ip, 3) as nat)
}

/// The text of an IPv4 socket address: the address, `:` and the port in decimal.
pub open spec fn socket_addr_v4_text(a: SocketAddrV4) -> Seq<u8> {
    ipv4_text(a.ip) + seq![58u8] + dec(a.port as nat)
}

/// An IPv4 socket address that fills `s`, the way `std::net` reads one: an address, `:`
/// and a port (any number of decimal digits, of value at most 65535).
pub open spec fn parse_socket_addr_v4(s: Seq<u8>) -> Option<SocketAddrV4> {
    match read_ipv4(s) {
        None => None,
        Some((ip, l)) => if l < s.len() && s[l as int] == 58 {
            match read_number(s.skip((l + 1) as int), false, 0, true, 65535) {
                Some((port, lp)) => if l + 1 + lp == s.len() {
                    Some(SocketAddrV4 { ip, port: port as u16 })
                } else {
                    None
                },
                None => None,
            }
        } else {
            None
        },
    }
}

/// Reads a `.` and an octet at `pos` in `s`; see `read_dot_octet`.
fn read_dot_octet_at(s: &[u8], pos: usize) -> (r: Option<(u32, usize)>)
    requires
        pos <= s@.len(),
    ensures
        match read_dot_octet(s@.skip(pos as int)) {
            Some((v, l)) => r == Some((v as u32, l as usize)) && pos + l <= s@.len() && v <= 255,
            None => r is None,
        },
        r matches Some((v, l)) ==> pos + l <= s@.len(),
{
    reveal(read_number);
    if pos < s.len() && s[pos] == 46 {
        assert(s@.skip(pos as int).drop_first() =~= s@.skip(pos + 1));
        match read_number_at(s, pos + 1, false, 3, false, 255) {
            Some((v, l)) => Some((v, l + 1)),
            None => None,
        }
    } else {
        None
    }
}

/// Reads an IPv4 address at `pos` in `s`; see `read_ipv4`.
pub fn read_ipv4_at(s: &[u8], pos: usize) -> (r: Option<(u32, usize)>)
    requires
        pos <= s@.len(),
    ensures
        match read_ipv4(s@.skip(pos as int)) {
            Some((v, l)) => r == Some((v, l as usize)) && pos + l <= s@.len(),
            None => r is None,
        },
        r matches Some((v, l)) ==> pos + l <= s@.len(),
{
    reveal(read_number);
    let ghost t = s@.skip(pos as int);
    let _len = s.len();
    let (a, l0) = match read_number_at(s, pos, false, 3, false, 255) {
        Some(x) => x,
        None => return None,
    };
    assert(t.skip(l0 as int) =~= s@.skip(pos + l0));
    let (b, l1) = match read_dot_octet_at(s, pos + l0) {
        Some(x) => x,
        None => return None,
    };
    assert(t.skip(l0 + l1) =~= s@.skip(pos + l0 + l1));
    let (c, l2) = match read_dot_octet_at(s, pos + l0 + l1) {
        Some(x) => x,
        None => return None,
    };
    assert(t.skip(l0 + l1 + l2) =~= s@.skip(pos + l0 + l1 + l2));
    let (d, l3) = match read_dot_octet_at(s, pos + l0 + l1 + l2) {
        Some(x) => x,
        None => return None,
    };
    let ip = ((a as u8 as u32) << 24u32) | ((b as u8 as u32) << 16u32) | ((c as u8 as u32)
        << 8u32) | (d as u8 as u32);
    Some((ip, l0 + l1 + l2 + l3))
}

/// Parses `s` as an IPv4 socket address; see `parse_socket_addr_v4`.
pub fn parse_socket_addr_v4_exec(s: &[u8]) -> (r: Option<SocketAddrV4>)
    ensures
        r == parse_socket_addr_v4(s@),
{
    reveal(read_number);
    assert(s@.skip(0) =~= s@);
    let _len = s.len();
    let (ip, l) = match read_ipv4_at(s, 0) {
        Some(x) => x,
        None => return None,
    };
    if l < s.len() && s[l] == 58 {
        match read_number_at(s, l + 1, false, 0, true, 65535) {
            Some((port, lp)) => if l + 1 + lp == s.len() {
                Some(SocketAddrV4 { ip, port: port as u16 })
            } else {
                None
            },
            None => None,
        }
    } else {
        None
    }
}

/// Appends the text of an IPv4 address to `out`.
pub fn push_ipv4(out: &mut Vec<u8>, ip: u32)
    ensures
        final(out)@ == old(out)@ + ipv4_text(ip),
{
    push_dec(out, ((ip >> 24u32) & 0xff) as u32);
    out.push(46);
    push_dec(out, ((ip >> 16u32) & 0xff) as u32);
    out.push(46);
    push_dec(out, ((ip >> 8u32) & 0xff) as u32);
    out.push(46);
    push_dec(out, (ip & 0xff) as u32);
    proof {
        assert(ipv4_octet(ip, 0) == ((ip >> 24u32) & 0xffu32) as u8);
        assert(ipv4_octet(ip, 1) == ((ip >> 16u32) & 0xffu32) as u8);
        assert(ipv4_octet(ip, 2) == ((ip >> 8u32) & 0xffu32) as u8);
        assert(ipv4_octet(ip, 3) == ((ip >> 0u32) & 0xffu32) as u8);
        assert(((ip >> 24u32) & 0xffu32) < 256 && ((ip >> 16u32) & 0xffu32) < 256 && ((ip
            >> 8u32) & 0xffu32) < 256 && (ip & 0xffu32) < 256 && (ip >> 0u32) == ip) by (bit_vector);
    }
    assert(final(out)@ =~= old(out)@ + ipv4_text(ip));
}

} // verus!

verus! {

/// The octets of an IPv4 address give the address back.
pub proof fn lemma_ipv4_octets(ip: u32)
    ensures
        ipv4_from_octets(ipv4_octet(ip, 0), ipv4_octet(ip, 1), ipv4_octet(ip, 2), ipv4_octet(ip, 3))
            == ip,
        ipv4_octet(ip, 0) as nat <= 255,
{
    let a = ipv4_octet(ip, 0);
    let b = ipv4_octet(ip, 1);
    let c = ipv4_octet(ip, 2);
    let d = ipv4_octet(ip, 3);
    assert(a == ((ip >> 24u32) & 0xffu32) as u8);
    assert(b == ((ip >> 16u32) & 0xffu32) as u8);
    assert(c == ((ip >> 8u32) & 0xffu32) as u8);
    assert(d == ((ip >> 0u32) & 0xffu32) as u8);
    assert(ipv4_from_octets(a, b, c, d) == ip) by (bit_vector)
        requires
            a == ((ip >> 24u32) & 0xffu32) as u8,
            b == ((ip >> 16u32) & 0xffu32) as u8,
            c == ((ip >> 8u32) & 0xffu32) as u8,
            d == ((ip >> 0u32) & 0xffu32) as u8,
    ;
}

/// Reading `.` and an octet from `.` + its digits + `t`, where `t` does not begin with a
/// digit.
proof fn lemma_read_dot_octet(v: u8, t: Seq<u8>)
    requires
        t.len() == 0 || !is_radix_digit(t[0], false),
    ensures
        read_dot_octet(seq![46u8] + dec(v as nat) + t) == Some((v as nat, dec(v as nat).len() + 1)),
{
    let s = seq![46u8] + dec(v as nat) + t;
    assert(s.drop_first() =~= dec(v as nat) + t);
    lemma_dec(v as nat);
    lemma_read_dec(v as nat, t, 3, false, 255);
}

/// Reading an IPv4 address from its text followed by `t`, where `t` does not begin with
/// a digit or a dot, gives the address and the length of its text.
#[verifier::rlimit(40)]
pub proof fn lemma_read_ipv4_text(ip: u32, t: Seq<u8>)
    requires
        t.len() == 0 || (!is_radix_digit(t[0], false) && t[0] != 46),
    ensures
        read_ipv4(ipv4_text(ip) + t) == Some((ip, ipv4_text(ip).len())),
{
    let o0 = ipv4_octet(ip, 0);
    let o1 = ipv4_octet(ip, 1);
    let o2 = ipv4_octet(ip, 2);
    let o3 = ipv4_octet(ip, 3);
    let d0 = dec(o0 as nat);
    let d1 = dec(o1 as nat);
    let d2 = dec(o2 as nat);
    let d3 = dec(o3 as nat);
    let dot = seq![46u8];
    let s = ipv4_text(ip) + t;
    let t3 = t;
    let t2 = dot + d3 + t3;
    let t1 = dot + d2 + t2;
    let t0 = dot + d1 + t1;
    assert(s =~= d0 + t0);
    lemma_dec(o0 as nat);
    lemma_read_dec(o0 as nat, t0, 3, false, 255);
    let l0 = d0.len();
    assert(s.skip(l0 as int) =~= t0);
    lemma_read_dot_octet(o1, t1);
    let l1 = d1.len() + 1;
    assert(s.skip((l0 + l1) as int) =~= t1);
    lemma_read_dot_octet(o2, t2);
    let l2 = d2.len() + 1;
    assert(s.skip((l0 + l1 + l2) as int) =~= t2);
    lemma_read_dot_octet(o3, t3);
    lemma_ipv4_octets(ip);
    assert(read_number(s, false, 3, false, 255) == Some((o0 as nat, l0)));
    assert(read_dot_octet(s.skip(l0 as int)) == Some((o1 as nat, l1)));
    assert(read_dot_octet(s.skip((l0 + l1) as int)) == Some((o2 as nat, l2)));
    let l3 = d3.len() + 1;
    assert(s.skip((l0 + l1 + l2) as int) == t2);
    assert(read_dot_octet(s.skip((l0 + l1 + l2) as int)) == Some((o3 as nat, l3)));
    assert(ipv4_text(ip).len() == l0 + l1 + l2 + l3);
}

/// The text of an IPv4 socket address reads back as the same address.
pub proof fn lemma_socket_addr_v4_text_roundtrip(a: SocketAddrV4)
    ensures
        parse_socket_addr_v4(socket_addr_v4_text(a)) == Some(a),
{
    let dp = dec(a.port as nat);
    let t = seq![58u8] + dp;
    let s = socket_addr_v4_text(a);
    assert(s =~= ipv4_text(a.ip) + t);
    lemma_read_ipv4_text(a.ip, t);
    let l = ipv4_text(a.ip).len();
    assert(s[l as int] == 58);
    assert(s.skip((l + 1) as int) =~= dp + Seq::<u8>::empty());
    lemma_dec(a.port as nat);
    lemma_read_dec(a.port as nat, Seq::<u8>::empty(), 0, true, 65535);
}

} // verus!

verus! {

/// The high and low halves of an IPv4 address, as two IPv6 segments.
pub open spec fn ipv4_high(ip: u32) -> u16 {
    (ip >> 16u32) as u16
}

/// The low half of an IPv4 address.
pub open spec fn ipv4_low(ip: u32) -> u16 {
    (ip & 0xffffu32) as u16
}

/// Up to `limit - i` colon-separated groups at the start of `s`, the way `std::net` reads
/// the groups of an IPv6 address: group `i` is preceded by `:` unless it is the first; it
/// is an embedded IPv4 address (two groups, and the end) when at least two groups are
/// left, else one to four hexadecimal digits. The result is the groups, whether the last
/// ones came from an IPv4 address, and the bytes read.
pub open spec fn read_groups(s: Seq<u8>, i: nat, limit: nat) -> (Seq<u16>, bool, nat)
    decreases limit - i,
{
    if i >= limit {
        (Seq::empty(), false, 0)
    } else {
        let sep_ok = i == 0 || (s.len() > 0 && s[0] == 58);
        let sl: nat = if i == 0 {
            0
        } else {
            1
        };
        let body = s.skip(sl as int);
        if sep_ok && i + 1 < limit && read_ipv4(body) is Some {
            let (v4, l) = read_ipv4(body).unwrap();
            (seq![ipv4_high(v4), ipv4_low(v4)], true, sl + l)
        } else if sep_ok && read_number(body, true, 4, true, 65535) is Some {
            let (g, l) = read_number(body, true, 4, true, 65535).unwrap();
            let (rest, v4, lr) = read_groups(s.skip((sl + l) as int), i + 1, limit);
            (seq![g as u16] + rest, v4, sl + l + lr)
        } else {
            (Seq::empty(), false, 0)
        }
    }
}

/// The address whose big-endian segments are `g`.
pub open spec fn segments_value(g: Seq<u16>) -> nat
    decreases g.len(),
{
    if g.len() == 0 {
        0
    } else {
        segments_value(g.drop_last()) * 65536 + g.last() as nat
    }
}

/// An IPv6 address at the start of `s`, the way `std::net` reads one: eight groups, or
/// fewer groups around one `::` that stands for at least one zero group. The result is
/// the address and the bytes read.
pub open spec fn read_ipv6(s: Seq<u8>) -> Option<(u128, nat)> {
    let (head, h4, hl) = read_groups(s, 0, 8);
    if head.len() == 8 {
        Some((segments_value(head) as u128, hl))
    } else if h4 {
        None
    } else {
        let s2 = s.skip(hl as int);
        if s2.len() >= 2 && s2[0] == 58 && s2[1] == 58 {
            let (tail, t4, tl) = read_groups(s2.skip(2), 0, (7 - head.len()) as nat);
            let groups = head + Seq::new((8 - head.len() - tail.len()) as nat, |k: int| 0u16)
                + tail;
            Some((segments_value(groups) as u128, hl + 2 + tl))
        } else {
            None
        }
    }
}

/// An optional scope `%` + decimal `u32` at the start of `s`: the scope (0 when absent)
/// and the bytes read.
pub open spec fn read_scope(s: Seq<u8>) -> (nat, nat) {
    if s.len() > 0 && s[0] == 37 && read_number(s.drop_first(), false, 0, true, 0xffff_ffff)
        is Some {
        let (v, l) = read_number(s.drop_first(), false, 0, true, 0xffff_ffff).unwrap();
        (v, l + 1)
    } else {
        (0, 0)
    }
}

/// An IPv6 socket address that fills `s`, the way `std::net` reads one: `[`, an address,
/// an optional scope, `]:` and a port.
pub open spec fn parse_socket_addr_v6(s: Seq<u8>) -> Option<SocketAddrV6> {
    if s.len() > 0 && s[0] == 91 {
        match read_ipv6(s.drop_first()) {
            None => None,
            Some((ip, l)) => {
                let r = s.skip((1 + l) as int);
                let (scope, ls) = read_scope(r);
                let r2 = r.skip(ls as int);
                if r2.len() >= 2 && r2[0] == 93 && r2[1] == 58 {
                    match read_number(r2.skip(2), false, 0, true, 65535) {
                        Some((port, lp)) => if 2 + lp == r2.len() {
                            Some(
                                SocketAddrV6 {
                                    ip,
                                    port: port as u16,
                                    flowinfo: 0,
                                    scope_id: scope as u32,
                                },
                            )
                        } else {
                            None
                        },
                        None => None,
                    }
                } else {
                    None
                }
            },
        }
    } else {
        None
    }
}

/// The socket address that `std::net` reads from all of `s`: IPv4 is tried first.
#[verifier::opaque]
pub open spec fn parse_socket_addr(s: Seq<u8>) -> Option<SocketAddr> {
    match parse_socket_addr_v4(s) {
        Some(a) => Some(SocketAddr::V4(a)),
        None => match parse_socket_addr_v6(s) {
            Some(a) => Some(SocketAddr::V6(a)),
            None => None,
        },
    }
}

/// Reads groups `i` to `limit` of an IPv6 address at `pos` in `s`; see `read_groups`.
fn read_groups_at(s: &[u8], pos: usize, i: usize, limit: usize) -> (r: (Vec<u16>, bool, usize))
    requires
        pos <= s@.len(),
        i <= limit <= 8,
    ensures
        ({
            let (g, v4, l) = read_groups(s@.skip(pos as int), i as nat, limit as nat);
            r.0@ == g && r.1 == v4 && r.2 == l && pos + l <= s@.len() && g.len() <= limit - i
        }),
    decreases limit - i,
{
    let _len = s.len();
    let ghost u = s@.skip(pos as int);
    if i >= limit {
        return (Vec::new(), false, 0);
    }
    let sep_ok = i == 0 || (pos < s.len() && s[pos] == 58);
    let sl: usize = if i == 0 { 0 } else { 1 };
    if sep_ok {
        assert(u.skip(sl as int) =~= s@.skip(pos + sl));
        if i + 1 < limit {
            if let Some((v4, l)) = read_ipv4_at(s, pos + sl) {
                let mut g: Vec<u16> = Vec::new();
                g.push((v4 >> 16u32) as u16);
                g.push((v4 & 0xffff) as u16);
                assert(g@ =~= seq![ipv4_high(v4), ipv4_low(v4)]);
                return (g, true, sl + l);
            }
        }
        if let Some((v, l)) = read_number_at(s, pos + sl, true, 4, true, 65535) {
            assert(u.skip(sl + l) =~= s@.skip(pos + sl + l));
            let (mut rest, v4, lr) = read_groups_at(s, pos + sl + l, i + 1, limit);
            let mut g: Vec<u16> = Vec::new();
            g.push(v as u16);
            g.append(&mut rest);
            return (g, v4, sl + l + lr);
        }
    }
    (Vec::new(), false, 0)
}

/// The big-endian value of at most eight segments.
fn segments_to_u128(g: &Vec<u16>) -> (r: u128)
    requires
        g@.len() <= 8,
    ensures
        r as nat == segments_value(g@),
{
    let mut acc: u128 = 0;
    let mut i: usize = 0;
    while i < g.len()
        invariant
            i <= g@.len() <= 8,
            acc as nat == segments_value(g@.take(i as int)),
            (acc as nat) < pow65536(i as nat),
        decreases g@.len() - i,
    {
        assert(g@.take(i + 1).drop_last() =~= g@.take(i as int));
        proof {
            lemma_pow65536_bound(i as nat);
            assert((acc as nat) * 65536 + (g@[i as int] as nat) < pow65536(i as nat) * 65536) by (nonlinear_arith)
                requires
                    (acc as nat) < pow65536(i as nat),
                    g@[i as int] < 65536,
            ;
        }
        acc = acc * 65536 + g[i] as u128;
        i = i + 1;
    }
    assert(g@.take(g@.len() as int) =~= g@);
    acc
}

/// `65536` to the power `n`.
pub open spec fn pow65536(n: nat) -> nat
    decreases n,
{
    if n == 0 {
        1
    } else {
        pow65536((n - 1) as nat) * 65536
    }
}

proof fn lemma_pow65536_bound(n: nat)
    requires
        n < 8,
    ensures
        pow65536(n) * 65536 <= 0x1_0000_0000_0000_0000_0000_0000_0000_0000,
        pow65536(n + 1) == pow65536(n) * 65536,
    decreases n,
{
    reveal_with_fuel(pow65536, 9);
}

/// Segments never exceed the number of their bits.
proof fn lemma_segments_value_bound(g: Seq<u16>)
    ensures
        segments_value(g) < pow65536(g.len()),
    decreases g.len(),
{
    if g.len() > 0 {
        lemma_segments_value_bound(g.drop_last());
        assert(segments_value(g.drop_last()) * 65536 + (g.last() as nat) < pow65536(g.len())) by (nonlinear_arith)
            requires
                segments_value(g.drop_last()) < pow65536((g.len() - 1) as nat),
                g.last() < 65536,
                pow65536(g.len()) == pow65536((g.len() - 1) as nat) * 65536,
        ;
    }
}

/// Reads an IPv6 address at `pos` in `s`; see `read_ipv6`.
pub fn read_ipv6_at(s: &[u8], pos: usize) -> (r: Option<(u128, usize)>)
    requires
        pos <= s@.len(),
    ensures
        match read_ipv6(s@.skip(pos as int)) {
            Some((v, l)) => r == Some((v, l as usize)) && pos + l <= s@.len(),
            None => r is None,
        },
{
    let _len = s.len();
    let ghost t = s@.skip(pos as int);
    assert(t =~= s@.skip(pos as int).skip(0));
    let (mut head, h4, hl) = read_groups_at(s, pos, 0, 8);
    if head.len() == 8 {
        return Some((segments_to_u128(&head), hl));
    }
    if h4 {
        return None;
    }
    let p = pos + hl;
    assert(t.skip(hl as int) =~= s@.skip(p as int));
    if 2 <= s.len() - p && s[p] == 58 && s[p + 1] == 58 {
        assert(s@.skip(p as int).skip(2) =~= s@.skip(p + 2).skip(0));
        let (mut tail, _t4, tl) = read_groups_at(s, p + 2, 0, 7 - head.len());
        let zeros = 8 - head.len() - tail.len();
        let mut k: usize = 0;
        let ghost h0 = head@;
        while k < zeros
            invariant
                k <= zeros,
                head@ =~= h0 + Seq::new(k as nat, |j: int| 0u16),
                h0.len() + zeros <= 8,
            decreases zeros - k,
        {
            head.push(0);
            k = k + 1;
        }
        head.append(&mut tail);
        proof {
            let (g, t4, l) = read_groups(s@.skip(p + 2), 0, (7 - h0.len()) as nat);
            assert(s@.skip(p as int).skip(2) =~= s@.skip(p + 2));
        }
        return Some((segments_to_u128(&head), hl + 2 + tl));
    }
    None
}

} // verus!

verus! {

/// Reads an optional scope at `pos` in `s`; see `read_scope`.
fn read_scope_at(s: &[u8], pos: usize) -> (r: (u32, usize))
    requires
        pos <= s@.len(),
    ensures
        r.0 as nat == read_scope(s@.skip(pos as int)).0,
        r.1 as nat == read_scope(s@.skip(pos as int)).1,
        pos + r.1 <= s@.len(),
{
    let _len = s.len();
    if pos < s.len() && s[pos] == 37 {
        assert(s@.skip(pos as int).drop_first() =~= s@.skip(pos + 1));
        if let Some((v, l)) = read_number_at(s, pos + 1, false, 0, true, 0xffff_ffff) {
            return (v, l + 1);
        }
    }
    (0, 0)
}

/// Parses all of `s` as an IPv6 socket address; see `parse_socket_addr_v6`.
pub fn parse_socket_addr_v6_exec(s: &[u8]) -> (r: Option<SocketAddrV6>)
    ensures
        r == parse_socket_addr_v6(s@),
{
    let _len = s.len();
    if s.len() == 0 || s[0] != 91 {
        return None;
    }
    assert(s@.drop_first() =~= s@.skip(1));
    let (ip, l) = match read_ipv6_at(s, 1) {
        Some(x) => x,
        None => return None,
    };
    let p = 1 + l;
    let (scope, ls) = read_scope_at(s, p);
    let q = p + ls;
    assert(s@.skip(p as int).skip(ls as int) =~= s@.skip(q as int));
    if 2 <= s.len() - q && s[q] == 93 && s[q + 1] == 58 {
        assert(s@.skip(q as int).skip(2) =~= s@.skip(q + 2));
        match read_number_at(s, q + 2, false, 0, true, 65535) {
            Some((port, lp)) => if q + 2 + lp == s.len() {
                Some(SocketAddrV6 { ip, port: port as u16, flowinfo: 0, scope_id: scope })
            } else {
                None
            },
            None => None,
        }
    } else {
        None
    }
}

/// Parses all of `s` as a socket address the way `<std::net::SocketAddr as FromStr>`
/// does; see `parse_socket_addr`.
pub fn parse_socket_addr_exec(s: &[u8]) -> (r: Option<SocketAddr>)
    ensures
        r == parse_socket_addr(s@),
{
    reveal(parse_socket_addr);
    match parse_socket_addr_v4_exec(s) {
        Some(a) => Some(SocketAddr::V4(a)),
        None => match parse_socket_addr_v6_exec(s) {
            Some(a) => Some(SocketAddr::V6(a)),
            None => None,
        },
    }
}

} // verus!

verus! {

/// Segment `i` (counted from the most significant) of an IPv6 address.
pub open spec fn ipv6_segment(ip: u128, i: int) -> u16 {
    ((ip >> ((112 - 16 * i) as u128)) & 0xffffu128) as u16
}

/// The eight segments of an IPv6 address.
pub open spec fn ipv6_segments(ip: u128) -> Seq<u16> {
    Seq::new(8, |i: int| ipv6_segment(ip, i))
}

/// Whether the segments are those of an IPv4-mapped address (`::ffff:a.b.c.d`).
pub open spec fn is_ipv4_mapped(g: Seq<u16>) -> bool {
    g[0] == 0 && g[1] == 0 && g[2] == 0 && g[3] == 0 && g[4] == 0 && g[5] == 0xffff
}

/// The IPv4 address in the last two segments.
pub open spec fn mapped_ipv4(g: Seq<u16>) -> u32 {
    ((g[6] as u32) << 16u32) | (g[7] as u32)
}

/// The first longest run of zero segments from `i` on, scanning as `std` does, given the
/// current run (`cs`, `cl`) and the longest so far (`bs`, `bl`): its start and length.
pub open spec fn zero_span_scan(g: Seq<u16>, i: nat, cs: nat, cl: nat, bs: nat, bl: nat) -> (nat, nat)
    decreases g.len() - i,
{
    if i >= g.len() {
        (bs, bl)
    } else if g[i as int] == 0 {
        let ncs = if cl == 0 {
            i
        } else {
            cs
        };
        let ncl = cl + 1;
        if ncl > bl {
            zero_span_scan(g, i + 1, ncs, ncl, ncs, ncl)
        } else {
            zero_span_scan(g, i + 1, ncs, ncl, bs, bl)
        }
    } else {
        zero_span_scan(g, i + 1, 0, 0, bs, bl)
    }
}

/// The segments in lowercase hexadecimal, separated by `:`.
pub open spec fn hex_groups(g: Seq<u16>) -> Seq<u8>
    decreases g.len(),
{
    if g.len() == 0 {
        Seq::empty()
    } else if g.len() == 1 {
        crate::text::hex(g[0] as nat)
    } else {
        hex_groups(g.drop_last()) + seq![58u8] + crate::text::hex(g.last() as nat)
    }
}

/// The text that `std` displays for an IPv6 address: `::ffff:` and the IPv4 address for
/// an IPv4-mapped address; else the segments in hexadecimal, where the first longest run
/// of at least two zero segments is written `::`.
pub open spec fn ipv6_text(ip: u128) -> Seq<u8> {
    let g = ipv6_segments(ip);
    if is_ipv4_mapped(g) {
        seq![58u8, 58u8, 102u8, 102u8, 102u8, 102u8, 58u8] + ipv4_text(mapped_ipv4(g))
    } else {
        let (st, ln) = zero_span_scan(g, 0, 0, 0, 0, 0);
        if ln > 1 {
            hex_groups(g.take(st as int)) + seq![58u8, 58u8] + hex_groups(g.skip((st + ln) as int))
        } else {
            hex_groups(g)
        }
    }
}

/// The text of an IPv6 socket address: `[`, the address, `%` and the scope when it is
/// not 0, `]:` and the port. The flow information is not written.
pub open spec fn socket_addr_v6_text(a: SocketAddrV6) -> Seq<u8> {
    seq![91u8] + ipv6_text(a.ip) + (if a.scope_id != 0 {
        seq![37u8] + dec(a.scope_id as nat)
    } else {
        Seq::empty()
    }) + seq![93u8, 58u8] + dec(a.port as nat)
}

/// The text of a socket address, as `std` displays it.
#[verifier::opaque]
pub open spec fn socket_addr_text(a: SocketAddr) -> Seq<u8> {
    match a {
        SocketAddr::V4(a) => socket_addr_v4_text(a),
        SocketAddr::V6(a) => socket_addr_v6_text(a),
    }
}

/// The eight segments of an IPv6 address.
fn segments_of(ip: u128) -> (r: Vec<u16>)
    ensures
        r@ == ipv6_segments(ip),
{
    let mut v: Vec<u16> = Vec::new();
    let mut i: usize = 0;
    while i < 8
        invariant
            i <= 8,
            v@.len() == i,
            forall|j: int| 0 <= j < i ==> v@[j] == ipv6_segment(ip, j),
        decreases 8 - i,
    {
        let shift: u128 = (112 - 16 * i) as u128;
        v.push(((ip >> shift) & 0xffff) as u16);
        i = i + 1;
    }
    assert(v@ =~= ipv6_segments(ip));
    v
}

/// Appends segments `from` to `to` in hexadecimal, separated by `:`.
fn push_hex_groups(out: &mut Vec<u8>, g: &Vec<u16>, from: usize, to: usize)
    requires
        from <= to <= g@.len(),
    ensures
        final(out)@ == old(out)@ + hex_groups(g@.subrange(from as int, to as int)),
{
    let mut i = from;
    while i < to
        invariant
            from <= i <= to <= g@.len(),
            out@ == old(out)@ + hex_groups(g@.subrange(from as int, i as int)),
        decreases to - i,
    {
        let ghost before = g@.subrange(from as int, i as int);
        let ghost after = g@.subrange(from as int, i + 1);
        assert(after.drop_last() =~= before);
        if i > from {
            out.push(58);
        }
        crate::text::push_hex(out, g[i] as u32);
        i = i + 1;
        proof {
            if after.len() == 1 {
                assert(before =~= Seq::<u16>::empty());
            }
        }
        assert(out@ =~= old(out)@ + hex_groups(after));
    }
}

/// Appends the text of an IPv6 address to `out`; see `ipv6_text`.
pub fn push_ipv6(out: &mut Vec<u8>, ip: u128)
    ensures
        final(out)@ == old(out)@ + ipv6_text(ip),
{
    let g = segments_of(ip);
    if g[0] == 0 && g[1] == 0 && g[2] == 0 && g[3] == 0 && g[4] == 0 && g[5] == 0xffff {
        out.push(58);
        out.push(58);
        out.push(102);
        out.push(102);
        out.push(102);
        out.push(102);
        out.push(58);
        let v4 = ((g[6] as u32) << 16u32) | (g[7] as u32);
        push_ipv4(out, v4);
        assert(final(out)@ =~= old(out)@ + ipv6_text(ip));
        return;
    }
    let mut cs: usize = 0;
    let mut cl: usize = 0;
    let mut bs: usize = 0;
    let mut bl: usize = 0;
    let mut i: usize = 0;
    while i < 8
        invariant
            i <= 8,
            g@ == ipv6_segments(ip),
            cs <= i,
            cl <= i,
            bs + bl <= 8,
            bl <= i,
            zero_span_scan(g@, 0, 0, 0, 0, 0) == zero_span_scan(
                g@,
                i as nat,
                cs as nat,
                cl as nat,
                bs as nat,
                bl as nat,
            ),
            bs + bl <= i,
            cl > 0 ==> cs + cl == i,
        decreases 8 - i,
    {
        if g[i] == 0 {
            if cl == 0 {
                cs = i;
            }
            cl = cl + 1;
            if cl > bl {
                bs = cs;
                bl = cl;
            }
        } else {
            cs = 0;
            cl = 0;
        }
        i = i + 1;
    }
    if bl > 1 {
        push_hex_groups(out, &g, 0, bs);
        out.push(58);
        out.push(58);
        push_hex_groups(out, &g, bs + bl, 8);
        assert(g@.subrange(0, bs as int) =~= g@.take(bs as int));
        assert(g@.subrange((bs + bl) as int, 8) =~= g@.skip((bs + bl) as int));
    } else {
        push_hex_groups(out, &g, 0, 8);
        assert(g@.subrange(0, 8) =~= g@);
    }
}

} // verus!

verus! {

/// Appends the text of a socket address to `out`, as `std` displays it.
pub fn push_socket_addr(out: &mut Vec<u8>, a: &SocketAddr)
    ensures
        final(out)@ == old(out)@ + socket_addr_text(*a),
{
    reveal(socket_addr_text);
    match a {
        SocketAddr::V4(v4) => {
            push_ipv4(out, v4.ip);
            out.push(58);
            push_dec(out, v4.port as u32);
            assert(final(out)@ =~= old(out)@ + socket_addr_text(*a));
        },
        SocketAddr::V6(v6) => {
            out.push(91);
            push_ipv6(out, v6.ip);
            if v6.scope_id != 0 {
                out.push(37);
                push_dec(out, v6.scope_id);
            }
            out.push(93);
            out.push(58);
            push_dec(out, v6.port as u32);
            assert(final(out)@ =~= old(out)@ + socket_addr_text(*a));
        },
    }
}

/// The text of an IPv4 socket address reads back as the same address.
pub proof fn lemma_socket_addr_text_roundtrip_v4(a: SocketAddrV4)
    ensures
        parse_socket_addr(socket_addr_text(SocketAddr::V4(a))) == Some(SocketAddr::V4(a)),
        socket_addr_text(SocketAddr::V4(a)) == socket_addr_v4_text(a),
{
    reveal(parse_socket_addr);
    reveal(socket_addr_text);
    lemma_socket_addr_v4_text_roundtrip(a);
}

/// Every byte of `s` is a decimal digit, `.` or `:`.
pub open spec fn is_v4_text(s: Seq<u8>) -> bool {
    forall|i: int| 0 <= i < s.len() ==> (is_digit(#[trigger] s[i]) || s[i] == 46 || s[i] == 58)
}

proof fn lemma_v4_text_concat(a: Seq<u8>, b: Seq<u8>)
    requires
        is_v4_text(a),
        is_v4_text(b),
    ensures
        is_v4_text(a + b),
{
    assert forall|i: int| 0 <= i < (a + b).len() implies (is_digit(#[trigger] (a + b)[i]) || (a
        + b)[i] == 46 || (a + b)[i] == 58) by {
        if i < a.len() {
            assert((a + b)[i] == a[i]);
        } else {
            assert((a + b)[i] == b[i - a.len()]);
        }
    }
}

proof fn lemma_dec_v4_text(v: nat)
    ensures
        is_v4_text(dec(v)),
{
    lemma_dec(v);
}

/// The text of an IPv4 socket address is made of digits, dots and a colon: it is ASCII
/// and holds no zero byte.
pub proof fn lemma_socket_addr_v4_text_ascii(a: SocketAddrV4)
    ensures
        forall|i: int| 0 <= i < socket_addr_v4_text(a).len() ==> #[trigger] socket_addr_v4_text(a)[i] < 128
            && socket_addr_v4_text(a)[i] != 0,
{
    let dot = seq![46u8];
    let colon = seq![58u8];
    assert(is_v4_text(dot));
    assert(is_v4_text(colon));
    lemma_dec_v4_text(ipv4_octet(a.ip, 0) as nat);
    lemma_dec_v4_text(ipv4_octet(a.ip, 1) as nat);
    lemma_dec_v4_text(ipv4_octet(a.ip, 2) as nat);
    lemma_dec_v4_text(ipv4_octet(a.ip, 3) as nat);
    lemma_dec_v4_text(a.port as nat);
    let d0 = dec(ipv4_octet(a.ip, 0) as nat);
    let d1 = dec(ipv4_octet(a.ip, 1) as nat);
    let d2 = dec(ipv4_octet(a.ip, 2) as nat);
    let d3 = dec(ipv4_octet(a.ip, 3) as nat);
    lemma_v4_text_concat(d0, dot);
    lemma_v4_text_concat(d0 + dot, d1);
    lemma_v4_text_concat(d0 + dot + d1, dot);
    lemma_v4_text_concat(d0 + dot + d1 + dot, d2);
    lemma_v4_text_concat(d0 + dot + d1 + dot + d2, dot);
    lemma_v4_text_concat(d0 + dot + d1 + dot + d2 + dot, d3);
    lemma_v4_text_concat(ipv4_text(a.ip), colon);
    lemma_v4_text_concat(ipv4_text(a.ip) + colon, dec(a.port as nat));
    let t = socket_addr_v4_text(a);
    assert forall|i: int| 0 <= i < t.len() implies #[trigger] t[i] < 128 && t[i] != 0 by {
        assert(is_digit(t[i]) || t[i] == 46 || t[i] == 58);
    }
}

} // verus!
