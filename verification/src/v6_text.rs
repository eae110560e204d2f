//! IPv6 socket addresses in text read back as themselves: what `std` writes for an
//! address, `std` reads as that address.

use vstd::prelude::*;

use crate::addr_text::{
    lemma_read_dec, parse_socket_addr, parse_socket_addr_v6, read_scope, socket_addr_text, socket_addr_v6_text,
    digit_run, hex_groups, ipv4_high, ipv4_low, ipv4_text, ipv6_segment, ipv6_segments, ipv6_text,
    is_ipv4_mapped, is_radix_digit, lemma_digit_run, lemma_read_ipv4_text, mapped_ipv4, radix_digit_value,
    radix_value, read_dot_octet, read_groups, read_ipv4, read_ipv6, read_number, segments_value,
    zero_span_scan,
};
use crate::net::{ipv4_octet, SocketAddr, SocketAddrV6};
use crate::text::{dec, hex, hex_digit, is_digit, lemma_dec};

verus! {

/// The hexadecimal digits of a number are digits of base 16, spell the number, and are at
/// most four for a 16-bit number.
pub proof fn lemma_hex(v: nat)
    ensures
        hex(v).len() >= 1,
        forall|i: int| 0 <= i < hex(v).len() ==> is_radix_digit(#[trigger] hex(v)[i], true),
        forall|i: int| 0 <= i < hex(v).len() ==> (is_digit(#[trigger] hex(v)[i]) || 97 <= hex(v)[i] <= 102),
        radix_value(hex(v), true) == v,
        v < 16 ==> hex(v).len() == 1,
        v < 256 ==> hex(v).len() <= 2,
        v < 4096 ==> hex(v).len() <= 3,
        v < 65536 ==> hex(v).len() <= 4,
    decreases v,
{
    if v < 16 {
        let s = hex(v);
        assert(s.drop_last() =~= Seq::<u8>::empty());
        assert(radix_value(s.drop_last(), true) == 0);
    } else {
        lemma_hex(v / 16);
        let s = hex(v);
        assert(s.drop_last() =~= hex(v / 16));
        assert(s.last() == hex_digit(v % 16));
        vstd::arithmetic::div_mod::lemma_fundamental_div_mod(v as int, 16);
        assert forall|i: int| 0 <= i < s.len() implies is_radix_digit(#[trigger] s[i], true) && (is_digit(s[i])
            || 97 <= s[i] <= 102) by {
            if i < s.len() - 1 {
                assert(s[i] == hex(v / 16)[i]);
            }
        }
    }
}

/// The digits at the start of `s` are digits, and the byte after them is not.
pub proof fn lemma_digit_run_bounds(s: Seq<u8>, hex_digits: bool)
    ensures
        digit_run(s, hex_digits) <= s.len(),
        forall|i: int| 0 <= i < digit_run(s, hex_digits) ==> is_radix_digit(#[trigger] s[i], hex_digits),
        digit_run(s, hex_digits) < s.len() ==> !is_radix_digit(s[digit_run(s, hex_digits) as int], hex_digits),
    decreases s.len(),
{
    if s.len() > 0 && is_radix_digit(s[0], hex_digits) {
        lemma_digit_run_bounds(s.drop_first(), hex_digits);
        assert forall|i: int| 0 <= i < digit_run(s, hex_digits) implies is_radix_digit(#[trigger] s[i], hex_digits) by {
            if i > 0 {
                assert(s[i] == s.drop_first()[i - 1]);
            }
        }
    }
}

/// Reading a 16-bit group at the start of `hex(v) + t`, where `t` does not begin with a
/// digit of base 16, gives `v` and the number of its digits.
pub proof fn lemma_read_hex(v: nat, t: Seq<u8>)
    requires
        v < 65536,
        t.len() == 0 || !is_radix_digit(t[0], true),
    ensures
        read_number(hex(v) + t, true, 4, true, 65535) == Some((v, hex(v).len())),
{
    reveal(read_number);
    let d = hex(v);
    let s = d + t;
    lemma_hex(v);
    assert forall|i: int| 0 <= i < d.len() implies is_radix_digit(#[trigger] s[i], true) by {
        assert(s[i] == d[i]);
    }
    if t.len() > 0 {
        assert(s[d.len() as int] == t[0]);
    }
    lemma_digit_run(s, true, d.len());
    assert(s.take(d.len() as int) =~= d);
}

/// No IPv4 address starts `s` when the first byte after its leading decimal digits is not a
/// dot.
pub proof fn lemma_no_ipv4(s: Seq<u8>)
    requires
        digit_run(s, false) < s.len() ==> s[digit_run(s, false) as int] != 46,
    ensures
        read_ipv4(s) is None,
{
    reveal(read_number);
    lemma_digit_run_bounds(s, false);
    let r = digit_run(s, false);
    if read_number(s, false, 3, false, 255) is Some {
        assert(read_number(s, false, 3, false, 255).unwrap().1 == r);
        assert(s.skip(r as int).len() == 0 || s.skip(r as int)[0] != 46);
        assert(read_dot_octet(s.skip(r as int)) is None);
    }
}

/// No IPv4 address starts `hex(v) + t` when `t` begins with neither a decimal digit nor a
/// dot.
pub proof fn lemma_no_ipv4_hex(v: nat, t: Seq<u8>)
    requires
        t.len() == 0 || (!is_digit(t[0]) && t[0] != 46),
    ensures
        read_ipv4(hex(v) + t) is None,
{
    let d = hex(v);
    let s = d + t;
    lemma_hex(v);
    lemma_digit_run_bounds(s, false);
    let r = digit_run(s, false);
    if r < s.len() {
        if r < d.len() {
            assert(s[r as int] == d[r as int]);
        } else {
            if r > d.len() {
                assert(is_radix_digit(s[d.len() as int], false));
                assert(s[d.len() as int] == t[0]);
            }
            assert(s[r as int] == t[0]);
        }
    }
    lemma_no_ipv4(s);
}

/// Nothing is read at the start of `s` when it begins with neither a digit nor a dot.
pub proof fn lemma_read_nothing(s: Seq<u8>)
    requires
        s.len() == 0 || (!is_radix_digit(s[0], true) && s[0] != 46),
    ensures
        read_ipv4(s) is None,
        read_number(s, true, 4, true, 65535) is None,
        read_number(s, false, 3, false, 255) is None,
{
    reveal(read_number);
    lemma_no_ipv4(s);
}

/// Groups `1..` of an address in text: each is `:` and its hexadecimal digits.
pub open spec fn colon_groups(g: Seq<u16>) -> Seq<u8>
    decreases g.len(),
{
    if g.len() == 0 {
        Seq::empty()
    } else {
        seq![58u8] + hex(g[0] as nat) + colon_groups(g.drop_first())
    }
}

/// Appending a group appends `:` and its digits.
pub proof fn lemma_colon_groups_push(g: Seq<u16>, x: u16)
    ensures
        colon_groups(g.push(x)) == colon_groups(g) + seq![58u8] + hex(x as nat),
    decreases g.len(),
{
    if g.len() == 0 {
        assert(g.push(x).drop_first() =~= Seq::<u16>::empty());
        assert(g.push(x)[0] == x);
        assert(colon_groups(Seq::<u16>::empty()) =~= Seq::<u8>::empty());
        assert(colon_groups(g) =~= Seq::<u8>::empty());
        assert(colon_groups(g.push(x)) =~= seq![58u8] + hex(x as nat));
    } else {
        assert(g.push(x).drop_first() =~= g.drop_first().push(x));
        lemma_colon_groups_push(g.drop_first(), x);
        assert(colon_groups(g.push(x)) =~= colon_groups(g) + seq![58u8] + hex(x as nat));
    }
}

/// Groups in text, read from the front: the first group, then `:` before each other.
pub proof fn lemma_hex_groups_front(g: Seq<u16>)
    requires
        g.len() >= 1,
    ensures
        hex_groups(g) == hex(g[0] as nat) + colon_groups(g.drop_first()),
    decreases g.len(),
{
    if g.len() == 1 {
        assert(g.drop_first() =~= Seq::<u16>::empty());
        assert(hex(g[0] as nat) + colon_groups(g.drop_first()) =~= hex(g[0] as nat));
    } else {
        let h = g.drop_last();
        lemma_hex_groups_front(h);
        assert(g.drop_first() =~= h.drop_first().push(g.last()));
        lemma_colon_groups_push(h.drop_first(), g.last());
        assert(hex_groups(g) =~= hex(g[0] as nat) + colon_groups(g.drop_first()));
    }
}

/// Whether reading groups stops before `t`: `t` does not start a further group.
pub open spec fn stops_groups(t: Seq<u8>) -> bool {
    &&& t.len() == 0 || (!is_radix_digit(t[0], true) && t[0] != 46)
    &&& t.len() == 0 || t[0] != 58 || (t.len() >= 2 && t[1] == 58)
}

/// The text of a group ends a group read.
proof fn lemma_group_tail(g: Seq<u16>, t: Seq<u8>)
    requires
        stops_groups(t),
    ensures
        colon_groups(g) + t == t || (colon_groups(g) + t)[0] == 58u8,
        (colon_groups(g) + t).len() == 0 || (!is_radix_digit((colon_groups(g) + t)[0], true)
            && (colon_groups(g) + t)[0] != 46),
{
    if g.len() > 0 {
        assert((colon_groups(g) + t)[0] == 58u8);
    } else {
        assert(colon_groups(g) + t =~= t);
    }
}

/// Reading groups `i` on (after the first) from their text gives them back, when the text
/// after them stops the read.
pub proof fn lemma_read_colon_groups(g: Seq<u16>, t: Seq<u8>, i: nat, limit: nat)
    requires
        i >= 1,
        i + g.len() <= limit,
        stops_groups(t),
    ensures
        read_groups(colon_groups(g) + t, i, limit) == (g, false, colon_groups(g).len()),
    decreases g.len(),
{
    let s = colon_groups(g) + t;
    if g.len() == 0 {
        assert(s =~= t);
        if i < limit && t.len() > 0 && t[0] == 58 {
            lemma_read_nothing(t.skip(1));
        }
    } else {
        let rest = g.drop_first();
        let d = hex(g[0] as nat);
        let after = colon_groups(rest) + t;
        assert(s =~= seq![58u8] + d + after);
        assert(s.skip(1) =~= d + after);
        lemma_group_tail(rest, t);
        lemma_hex(g[0] as nat);
        lemma_no_ipv4_hex(g[0] as nat, after);
        lemma_read_hex(g[0] as nat, after);
        lemma_read_colon_groups(rest, t, i + 1, limit);
        assert(s.skip((1 + d.len()) as int) =~= after);
        assert(seq![g[0]] + rest =~= g);
    }
}

/// Reading the groups of an address from their text gives them back, when the text after
/// them stops the read.
pub proof fn lemma_read_hex_groups(g: Seq<u16>, t: Seq<u8>, limit: nat)
    requires
        1 <= g.len() <= limit,
        stops_groups(t),
    ensures
        read_groups(hex_groups(g) + t, 0, limit) == (g, false, hex_groups(g).len()),
{
    lemma_hex_groups_front(g);
    let rest = g.drop_first();
    let d = hex(g[0] as nat);
    let after = colon_groups(rest) + t;
    let s = hex_groups(g) + t;
    assert(s =~= d + after);
    lemma_group_tail(rest, t);
    lemma_hex(g[0] as nat);
    lemma_no_ipv4_hex(g[0] as nat, after);
    lemma_read_hex(g[0] as nat, after);
    lemma_read_colon_groups(rest, t, 1, limit);
    assert(s.skip(0) =~= s);
    assert(s.skip(d.len() as int) =~= after);
    assert(seq![g[0]] + rest =~= g);
}

/// The run of zero segments that the text leaves out lies within the segments, and is made
/// of zeros.
pub proof fn lemma_zero_span_scan(g: Seq<u16>, i: nat, cs: nat, cl: nat, bs: nat, bl: nat)
    requires
        i <= g.len(),
        bs + bl <= i,
        forall|k: int| bs <= k < bs + bl ==> g[k] == 0,
        cl > 0 ==> cs + cl == i && forall|k: int| cs <= k < i ==> g[k] == 0,
        cl <= bl,
    ensures
        zero_span_scan(g, i, cs, cl, bs, bl).0 + zero_span_scan(g, i, cs, cl, bs, bl).1 <= g.len(),
        forall|k: int| zero_span_scan(g, i, cs, cl, bs, bl).0 <= k < zero_span_scan(g, i, cs, cl, bs, bl).0
            + zero_span_scan(g, i, cs, cl, bs, bl).1 ==> g[k] == 0,
    decreases g.len() - i,
{
    if i < g.len() {
        if g[i as int] == 0 {
            let ncs = if cl == 0 { i } else { cs };
            let ncl = cl + 1;
            if ncl > bl {
                lemma_zero_span_scan(g, i + 1, ncs, ncl, ncs, ncl);
            } else {
                lemma_zero_span_scan(g, i + 1, ncs, ncl, bs, bl);
            }
        } else {
            lemma_zero_span_scan(g, i + 1, 0, 0, bs, bl);
        }
    }
}

/// A segment is the 16 bits of the address at its place.
proof fn lemma_segment(ip: u128, i: int)
    requires
        0 <= i < 8,
    ensures
        ipv6_segment(ip, i) as u128 == (ip >> ((112 - 16 * i) as u128)) & 0xffffu128,
{
    let sh = (112 - 16 * i) as u128;
    assert((((ip >> sh) & 0xffffu128) as u16) as u128 == (ip >> sh) & 0xffffu128) by (bit_vector);
}

/// The segments of an address, read back in order, are the address.
pub proof fn lemma_segments_value(ip: u128)
    ensures
        segments_value(ipv6_segments(ip)) == ip,
{
    let g = ipv6_segments(ip);
    let g0 = ipv6_segment(ip, 0) as u128;
    let g1 = ipv6_segment(ip, 1) as u128;
    let g2 = ipv6_segment(ip, 2) as u128;
    let g3 = ipv6_segment(ip, 3) as u128;
    let g4 = ipv6_segment(ip, 4) as u128;
    let g5 = ipv6_segment(ip, 5) as u128;
    let g6 = ipv6_segment(ip, 6) as u128;
    let g7 = ipv6_segment(ip, 7) as u128;
    lemma_segment(ip, 0);
    lemma_segment(ip, 1);
    lemma_segment(ip, 2);
    lemma_segment(ip, 3);
    lemma_segment(ip, 4);
    lemma_segment(ip, 5);
    lemma_segment(ip, 6);
    lemma_segment(ip, 7);
    assert(g0 == (ip >> 112u128) & 0xffffu128);
    assert(g1 == (ip >> 96u128) & 0xffffu128);
    assert(g2 == (ip >> 80u128) & 0xffffu128);
    assert(g3 == (ip >> 64u128) & 0xffffu128);
    assert(g4 == (ip >> 48u128) & 0xffffu128);
    assert(g5 == (ip >> 32u128) & 0xffffu128);
    assert(g6 == (ip >> 16u128) & 0xffffu128);
    assert(g7 == (ip >> 0u128) & 0xffffu128);
    let h1 = ip >> 112u128;
    let h2 = ip >> 96u128;
    let h3 = ip >> 80u128;
    let h4 = ip >> 64u128;
    let h5 = ip >> 48u128;
    let h6 = ip >> 32u128;
    let h7 = ip >> 16u128;
    assert(h1 == g0) by (bit_vector)
        requires
            g0 == (ip >> 112u128) & 0xffffu128,
            h1 == ip >> 112u128;
    assert(h2 == h1 * 65536 + g1) by (bit_vector)
        requires
            g1 == (ip >> 96u128) & 0xffffu128,
            h1 == ip >> 112u128,
            h2 == ip >> 96u128;
    assert(h3 == h2 * 65536 + g2) by (bit_vector)
        requires
            g2 == (ip >> 80u128) & 0xffffu128,
            h2 == ip >> 96u128,
            h3 == ip >> 80u128;
    assert(h4 == h3 * 65536 + g3) by (bit_vector)
        requires
            g3 == (ip >> 64u128) & 0xffffu128,
            h3 == ip >> 80u128,
            h4 == ip >> 64u128;
    assert(h5 == h4 * 65536 + g4) by (bit_vector)
        requires
            g4 == (ip >> 48u128) & 0xffffu128,
            h4 == ip >> 64u128,
            h5 == ip >> 48u128;
    assert(h6 == h5 * 65536 + g5) by (bit_vector)
        requires
            g5 == (ip >> 32u128) & 0xffffu128,
            h5 == ip >> 48u128,
            h6 == ip >> 32u128;
    assert(h7 == h6 * 65536 + g6) by (bit_vector)
        requires
            g6 == (ip >> 16u128) & 0xffffu128,
            h6 == ip >> 32u128,
            h7 == ip >> 16u128;
    assert(ip == h7 * 65536 + g7) by (bit_vector)
        requires
            g7 == (ip >> 0u128) & 0xffffu128,
            h7 == ip >> 16u128;
    assert(g.take(1).drop_last() =~= g.take(0));
    assert(g.take(2).drop_last() =~= g.take(1));
    assert(g.take(3).drop_last() =~= g.take(2));
    assert(g.take(4).drop_last() =~= g.take(3));
    assert(g.take(5).drop_last() =~= g.take(4));
    assert(g.take(6).drop_last() =~= g.take(5));
    assert(g.take(7).drop_last() =~= g.take(6));
    assert(g.drop_last() =~= g.take(7));
    assert(g.take(0) =~= Seq::<u16>::empty());
    assert(segments_value(g.take(0)) == 0);
    assert(g.take(1).last() == ipv6_segment(ip, 0));
    assert(g.take(2).last() == ipv6_segment(ip, 1));
    assert(g.take(3).last() == ipv6_segment(ip, 2));
    assert(g.take(4).last() == ipv6_segment(ip, 3));
    assert(g.take(5).last() == ipv6_segment(ip, 4));
    assert(g.take(6).last() == ipv6_segment(ip, 5));
    assert(g.take(7).last() == ipv6_segment(ip, 6));
    assert(g.last() == ipv6_segment(ip, 7));
    assert(segments_value(g.take(1)) == h1);
    assert(segments_value(g.take(2)) == h2);
    assert(segments_value(g.take(3)) == h3);
    assert(segments_value(g.take(4)) == h4);
    assert(segments_value(g.take(5)) == h5);
    assert(segments_value(g.take(6)) == h6);
    assert(segments_value(g.take(7)) == h7);
}

} // verus!

verus! {

/// Groups that are read back, with zeros filled in where `::` stood, are the segments.
proof fn lemma_fill_zeros(g: Seq<u16>, st: nat, ln: nat)
    requires
        g.len() == 8,
        st + ln <= 8,
        forall|k: int| st <= k < st + ln ==> g[k] == 0,
    ensures
        g.take(st as int) + Seq::new((8 - st - g.skip((st + ln) as int).len()) as nat, |k: int| 0u16)
            + g.skip((st + ln) as int) == g,
{
    let z = Seq::new((8 - st - g.skip((st + ln) as int).len()) as nat, |k: int| 0u16);
    assert(z.len() == ln);
    let r = g.take(st as int) + z + g.skip((st + ln) as int);
    assert forall|k: int| 0 <= k < 8 implies r[k] == g[k] by {
        if k < st {
        } else if k < st + ln {
            assert(r[k] == z[k - st]);
        } else {
            assert(r[k] == g.skip((st + ln) as int)[k - st - ln]);
        }
    }
    assert(r =~= g);
}

/// `hex(0xffff)` is `ffff`.
proof fn lemma_hex_ffff()
    ensures
        hex(65535) == seq![102u8, 102u8, 102u8, 102u8],
{
    reveal_with_fuel(hex, 5);
    assert(hex(65535) =~= seq![102u8, 102u8, 102u8, 102u8]);
}

/// The last two segments of an IPv4-mapped address hold its IPv4 address.
proof fn lemma_mapped_halves(g: Seq<u16>)
    requires
        g.len() == 8,
    ensures
        ipv4_high(mapped_ipv4(g)) == g[6],
        ipv4_low(mapped_ipv4(g)) == g[7],
{
    let a = g[6];
    let b = g[7];
    assert((((((a as u32) << 16u32) | (b as u32)) >> 16u32) as u16) == a) by (bit_vector);
    assert((((((a as u32) << 16u32) | (b as u32)) & 0xffffu32) as u16) == b) by (bit_vector);
}

/// An IPv4-mapped address in text, followed by `]` or `%`, reads back.
#[verifier::spinoff_prover]
#[verifier::rlimit(40)]
proof fn lemma_read_ipv6_mapped(ip: u128, t: Seq<u8>)
    requires
        t.len() > 0,
        t[0] == 93 || t[0] == 37,
        is_ipv4_mapped(ipv6_segments(ip)),
    ensures
        read_ipv6(ipv6_text(ip) + t) == Some((ip, ipv6_text(ip).len())),
{
    let g = ipv6_segments(ip);
    let s = ipv6_text(ip) + t;
    lemma_segments_value(ip);
    let v4 = mapped_ipv4(g);
    let v4t = ipv4_text(v4);
    let prefix = seq![58u8, 58u8, 102u8, 102u8, 102u8, 102u8, 58u8];
    assert(s =~= prefix + v4t + t);
    lemma_read_nothing(s);
    assert(s.skip(0) =~= s);
    assert(read_groups(s, 0, 8) == (Seq::<u16>::empty(), false, 0nat));
    let s3 = s.skip(2);
    lemma_hex_ffff();
    let after = seq![58u8] + v4t + t;
    assert(s3 =~= hex(65535) + after);
    lemma_no_ipv4_hex(65535, after);
    lemma_read_hex(65535, after);
    assert(s3.skip(0) =~= s3);
    assert(s3.skip(4) =~= after);
    lemma_read_ipv4_text(v4, t);
    assert(after.skip(1) =~= v4t + t);
    lemma_mapped_halves(g);
    let tail = seq![65535u16, ipv4_high(v4), ipv4_low(v4)];
    assert(read_groups(after, 1, 7) == (seq![ipv4_high(v4), ipv4_low(v4)], true, 1 + v4t.len()));
    assert(read_groups(s3, 0, 7).0 =~= tail);
    let groups = Seq::<u16>::empty() + Seq::new(5, |k: int| 0u16) + tail;
    assert(groups =~= g);
}

/// An address in text with a run of zeros left out, followed by `]` or `%`, reads back.
#[verifier::spinoff_prover]
#[verifier::rlimit(40)]
proof fn lemma_read_ipv6_compressed(ip: u128, t: Seq<u8>, st: nat, ln: nat)
    requires
        t.len() > 0,
        t[0] == 93 || t[0] == 37,
        !is_ipv4_mapped(ipv6_segments(ip)),
        (st, ln) == zero_span_scan(ipv6_segments(ip), 0, 0, 0, 0, 0),
        ln > 1,
    ensures
        read_ipv6(ipv6_text(ip) + t) == Some((ip, ipv6_text(ip).len())),
{
    let g = ipv6_segments(ip);
    let s = ipv6_text(ip) + t;
    lemma_segments_value(ip);
    lemma_zero_span_scan(g, 0, 0, 0, 0, 0);
    assert(stops_groups(t));
    let head = g.take(st as int);
    let tailg = g.skip((st + ln) as int);
    let mid = seq![58u8, 58u8] + hex_groups(tailg) + t;
    assert(s =~= hex_groups(head) + mid);
    assert(stops_groups(mid));
    if st == 0 {
        assert(head =~= Seq::<u16>::empty());
        assert(hex_groups(head) =~= Seq::<u8>::empty());
        assert(s =~= mid);
        lemma_read_nothing(s);
        assert(s.skip(0) =~= s);
        assert(read_groups(s, 0, 8) == (Seq::<u16>::empty(), false, 0nat));
    } else {
        lemma_read_hex_groups(head, mid, 8);
    }
    let hl = hex_groups(head).len();
    assert(s.skip(hl as int) =~= mid);
    let s3 = mid.skip(2);
    assert(s3 =~= hex_groups(tailg) + t);
    if tailg.len() == 0 {
        assert(hex_groups(tailg) =~= Seq::<u8>::empty());
        assert(s3 =~= t);
        lemma_read_nothing(t);
        assert(t.skip(0) =~= t);
        assert(read_groups(s3, 0, (7 - st) as nat).0 =~= tailg);
    } else {
        lemma_read_hex_groups(tailg, t, (7 - st) as nat);
    }
    lemma_fill_zeros(g, st, ln);
}

/// What `std` writes for an IPv6 address, followed by `]` or `%`, reads back as the address.
pub proof fn lemma_read_ipv6_text(ip: u128, t: Seq<u8>)
    requires
        t.len() > 0,
        t[0] == 93 || t[0] == 37,
    ensures
        read_ipv6(ipv6_text(ip) + t) == Some((ip, ipv6_text(ip).len())),
{
    let g = ipv6_segments(ip);
    if is_ipv4_mapped(g) {
        lemma_read_ipv6_mapped(ip, t);
    } else {
        let (st, ln) = zero_span_scan(g, 0, 0, 0, 0, 0);
        if ln > 1 {
            lemma_read_ipv6_compressed(ip, t, st, ln);
        } else {
            lemma_segments_value(ip);
            assert(stops_groups(t));
            lemma_read_hex_groups(g, t, 8);
            assert(ipv6_text(ip) + t == hex_groups(g) + t);
        }
    }
}

} // verus!

verus! {

/// The text of an IPv6 socket address without flow information reads back as the address.
pub proof fn lemma_socket_addr_v6_text_roundtrip(a: SocketAddrV6)
    requires
        a.flowinfo == 0,
    ensures
        parse_socket_addr_v6(socket_addr_v6_text(a)) == Some(a),
{
    let s = socket_addr_v6_text(a);
    let scope = if a.scope_id != 0 { seq![37u8] + dec(a.scope_id as nat) } else { Seq::<u8>::empty() };
    let dp = dec(a.port as nat);
    let t = scope + seq![93u8, 58u8] + dp;
    assert(s =~= seq![91u8] + ipv6_text(a.ip) + t);
    assert(s.drop_first() =~= ipv6_text(a.ip) + t);
    assert(t[0] == 93 || t[0] == 37);
    lemma_read_ipv6_text(a.ip, t);
    let l = ipv6_text(a.ip).len();
    let r = s.skip((1 + l) as int);
    assert(r =~= t);
    let r2 = seq![93u8, 58u8] + dp;
    lemma_dec(a.port as nat);
    if a.scope_id != 0 {
        lemma_dec(a.scope_id as nat);
        assert(r.drop_first() =~= dec(a.scope_id as nat) + r2);
        lemma_read_dec(a.scope_id as nat, r2, 0, true, 0xffff_ffff);
        assert(read_scope(r) == (a.scope_id as nat, dec(a.scope_id as nat).len() + 1));
        assert(r.skip((dec(a.scope_id as nat).len() + 1) as int) =~= r2);
    } else {
        reveal(read_number);
        assert(r =~= r2);
        assert(read_scope(r) == (0nat, 0nat));
        assert(r.skip(0) =~= r2);
    }
    assert(r2.skip(2) =~= dp + Seq::<u8>::empty());
    lemma_read_dec(a.port as nat, Seq::<u8>::empty(), 0, true, 65535);
}

/// The text of a socket address reads back as the address, flow information aside: IPv6
/// text does not carry it.
pub proof fn lemma_socket_addr_text_roundtrip(a: SocketAddr)
    requires
        a is V6 ==> a->V6_0.flowinfo == 0,
    ensures
        parse_socket_addr(socket_addr_text(a)) == Some(a),
{
    match a {
        SocketAddr::V4(v4) => {
            crate::addr_text::lemma_socket_addr_text_roundtrip_v4(v4);
        },
        SocketAddr::V6(v6) => {
            reveal(parse_socket_addr);
            reveal(socket_addr_text);
            lemma_socket_addr_v6_text_roundtrip(v6);
            let s = socket_addr_v6_text(v6);
            assert(s[0] == 91);
            lemma_read_nothing(s);
            assert(crate::addr_text::parse_socket_addr_v4(s) is None);
        },
    }
}

/// Whether every byte of `s` is printable ASCII.
pub open spec fn printable(s: Seq<u8>) -> bool {
    forall|i: int| 0 <= i < s.len() ==> 32 <= #[trigger] s[i] < 127
}

proof fn lemma_printable_concat(a: Seq<u8>, b: Seq<u8>)
    requires
        printable(a),
        printable(b),
    ensures
        printable(a + b),
{
    assert forall|i: int| 0 <= i < (a + b).len() implies 32 <= #[trigger] (a + b)[i] < 127 by {
        if i < a.len() {
            assert((a + b)[i] == a[i]);
        } else {
            assert((a + b)[i] == b[i - a.len()]);
        }
    }
}

proof fn lemma_hex_printable(v: nat)
    ensures
        printable(hex(v)),
{
    lemma_hex(v);
}

proof fn lemma_dec_printable(v: nat)
    ensures
        printable(dec(v)),
{
    crate::text::lemma_dec(v);
}

proof fn lemma_hex_groups_printable(g: Seq<u16>)
    ensures
        printable(hex_groups(g)),
    decreases g.len(),
{
    if g.len() == 1 {
        lemma_hex_printable(g[0] as nat);
    } else if g.len() > 1 {
        lemma_hex_groups_printable(g.drop_last());
        lemma_hex_printable(g.last() as nat);
        lemma_printable_concat(hex_groups(g.drop_last()), seq![58u8]);
        lemma_printable_concat(hex_groups(g.drop_last()) + seq![58u8], hex(g.last() as nat));
    }
}

proof fn lemma_ipv4_text_printable(ip: u32)
    ensures
        printable(ipv4_text(ip)),
{
    let d0 = dec(ipv4_octet(ip, 0) as nat);
    let d1 = dec(ipv4_octet(ip, 1) as nat);
    let d2 = dec(ipv4_octet(ip, 2) as nat);
    let d3 = dec(ipv4_octet(ip, 3) as nat);
    let dot = seq![46u8];
    lemma_dec_printable(ipv4_octet(ip, 0) as nat);
    lemma_dec_printable(ipv4_octet(ip, 1) as nat);
    lemma_dec_printable(ipv4_octet(ip, 2) as nat);
    lemma_dec_printable(ipv4_octet(ip, 3) as nat);
    lemma_printable_concat(d0, dot);
    lemma_printable_concat(d0 + dot, d1);
    lemma_printable_concat(d0 + dot + d1, dot);
    lemma_printable_concat(d0 + dot + d1 + dot, d2);
    lemma_printable_concat(d0 + dot + d1 + dot + d2, dot);
    lemma_printable_concat(d0 + dot + d1 + dot + d2 + dot, d3);
}

proof fn lemma_ipv6_text_printable(ip: u128)
    ensures
        printable(ipv6_text(ip)),
{
    let g = ipv6_segments(ip);
    if is_ipv4_mapped(g) {
        lemma_ipv4_text_printable(mapped_ipv4(g));
        lemma_printable_concat(seq![58u8, 58u8, 102u8, 102u8, 102u8, 102u8, 58u8], ipv4_text(mapped_ipv4(g)));
    } else {
        let (st, ln) = zero_span_scan(g, 0, 0, 0, 0, 0);
        if ln > 1 {
            lemma_hex_groups_printable(g.take(st as int));
            lemma_hex_groups_printable(g.skip((st + ln) as int));
            lemma_printable_concat(hex_groups(g.take(st as int)), seq![58u8, 58u8]);
            lemma_printable_concat(hex_groups(g.take(st as int)) + seq![58u8, 58u8], hex_groups(g.skip((st + ln) as int)));
        } else {
            lemma_hex_groups_printable(g);
        }
    }
}

/// The text of a socket address is printable ASCII: it is valid UTF-8 and holds no zero
/// byte.
pub proof fn lemma_socket_addr_text_printable(a: SocketAddr)
    ensures
        printable(socket_addr_text(a)),
{
    reveal(socket_addr_text);
    match a {
        SocketAddr::V4(v4) => {
            crate::addr_text::lemma_socket_addr_v4_text_ascii(v4);
            let t = socket_addr_text(a);
            lemma_ipv4_text_printable(v4.ip);
            lemma_dec_printable(v4.port as nat);
            lemma_printable_concat(ipv4_text(v4.ip), seq![58u8]);
            lemma_printable_concat(ipv4_text(v4.ip) + seq![58u8], dec(v4.port as nat));
        },
        SocketAddr::V6(v6) => {
            lemma_ipv6_text_printable(v6.ip);
            let scope = if v6.scope_id != 0 { seq![37u8] + dec(v6.scope_id as nat) } else { Seq::<u8>::empty() };
            lemma_dec_printable(v6.scope_id as nat);
            lemma_dec_printable(v6.port as nat);
            lemma_printable_concat(seq![37u8], dec(v6.scope_id as nat));
            lemma_printable_concat(seq![91u8], ipv6_text(v6.ip));
            lemma_printable_concat(seq![91u8] + ipv6_text(v6.ip), scope);
            lemma_printable_concat(seq![91u8] + ipv6_text(v6.ip) + scope, seq![93u8, 58u8]);
            lemma_printable_concat(seq![91u8] + ipv6_text(v6.ip) + scope + seq![93u8, 58u8], dec(v6.port as nat));
        },
    }
}

} // verus!
