//! Master server packets: the answers of a master server.

use core::marker::PhantomData;

use vstd::prelude::*;
use vstd::string::StringSliceAdditionalSpecFns;
use vstd::utf8::valid_utf8;

use crate::addr_text::{parse_socket_addr, parse_socket_addr_exec, push_socket_addr, socket_addr_text};
use crate::cursor::{put_bytes, put_u16_be, put_u32_le, put_u8, seq_be_u16, seq_le_u32, seq_starts_with, starts_with, u16_be_bytes, u32_le_bytes, written, Cursor};
use crate::error::{end_error, option_result_view, result_view, CursorError, Error};
use crate::net::{SocketAddr, SocketAddrV4, SocketAddrV6};

verus! {

/// `\xff\xff\xff\xffs\n`
pub open spec fn challenge_response_header() -> Seq<u8> {
    seq![255u8, 255u8, 255u8, 255u8, 115u8, 10u8]
}

/// `\xff\xff\xff\xfff\n`
pub open spec fn query_servers_response_header() -> Seq<u8> {
    seq![255u8, 255u8, 255u8, 255u8, 102u8, 10u8]
}

/// `\xff\xff\xff\xffc `
pub open spec fn client_announce_header() -> Seq<u8> {
    seq![255u8, 255u8, 255u8, 255u8, 99u8, 32u8]
}

/// `\xff\xff\xff\xffadminchallenge`
pub open spec fn admin_challenge_response_header() -> Seq<u8> {
    seq![
        255u8, 255u8, 255u8, 255u8, 97u8, 100u8, 109u8, 105u8, 110u8, 99u8, 104u8, 97u8, 108u8,
        108u8, 101u8, 110u8, 103u8, 101u8,
    ]
}

/// Master server challenge response packet.
#[derive(Clone, Copy, Debug, PartialEq, Eq, Structural)]
pub struct ChallengeResponse {
    /// A number that a game server must send back.
    pub master_challenge: u32,
    /// A number that a master server received in challenge packet.
    pub server_challenge: Option<u32>,
}

/// The bytes of a challenge response.
pub open spec fn spec_encode_challenge_response(p: ChallengeResponse) -> Seq<u8> {
    challenge_response_header() + u32_le_bytes(p.master_challenge) + match p.server_challenge {
        Some(c) => u32_le_bytes(c),
        None => Seq::empty(),
    }
}

/// What decoding `s` as a challenge response gives: the header, the master's number and,
/// when exactly four bytes follow, the server's number.
pub open spec fn spec_decode_challenge_response(s: Seq<u8>) -> Result<ChallengeResponse, Error> {
    if !seq_starts_with(s, challenge_response_header()) {
        Err(Error::Cursor(CursorError::Expect))
    } else if s.len() < 10 {
        Err(end_error())
    } else if s.len() == 10 {
        Ok(ChallengeResponse { master_challenge: seq_le_u32(s.skip(6)), server_challenge: None })
    } else if s.len() == 14 {
        Ok(
            ChallengeResponse {
                master_challenge: seq_le_u32(s.skip(6)),
                server_challenge: Some(seq_le_u32(s.skip(10))),
            },
        )
    } else {
        Err(Error::Cursor(CursorError::ExpectEmpty))
    }
}

impl ChallengeResponse {
    /// Packet header.
    pub fn header() -> (r: [u8; 6])
        ensures
            r@ == challenge_response_header(),
    {
        let r = [255u8, 255, 255, 255, 115, 10];
        assert(r@ =~= challenge_response_header());
        r
    }

    /// Creates a new `ChallengeResponse`.
    pub fn new(master_challenge: u32, server_challenge: Option<u32>) -> (r: Self)
        ensures
            r.master_challenge == master_challenge,
            r.server_challenge == server_challenge,
    {
        ChallengeResponse { master_challenge, server_challenge }
    }

    /// Decode packet from `src`.
    pub fn decode(src: &[u8]) -> (r: Result<Self, Error>)
        ensures
            r == spec_decode_challenge_response(src@),
    {
        let mut cur = Cursor::new(src);
        cur.expect(&Self::header())?;
        let master_challenge = cur.get_u32_le()?;
        assert(src@.skip(6).skip(4) =~= src@.skip(10));
        let server_challenge = if cur.remaining() == 4 {
            Some(cur.get_u32_le()?)
        } else {
            None
        };
        cur.expect_empty()?;
        Ok(ChallengeResponse { master_challenge, server_challenge })
    }

    /// Encode packet to `buf`.
    pub fn encode<'b>(&self, buf: &'b mut [u8]) -> (r: Result<&'b [u8], Error>)
        ensures
            r is Ok <==> spec_encode_challenge_response(*self).len() <= old(buf)@.len(),
            r matches Ok(out) ==> out@ == spec_encode_challenge_response(*self),
            r matches Err(e) ==> e == end_error(),
    {
        let p1 = put_bytes(buf, 0, &Self::header())?;
        let mut p = put_u32_le(buf, p1, self.master_challenge)?;
        if let Some(c) = self.server_challenge {
            p = put_u32_le(buf, p, c)?;
        }
        let b: &'b [u8] = buf;
        assert(b@.take(p as int) =~= spec_encode_challenge_response(*self));
        Ok(written(b, p))
    }
}

/// Admin challenge response.
#[derive(Clone, Copy, Debug, PartialEq, Eq, Structural)]
pub struct AdminChallengeResponse {
    /// A number that admin must sent back to a master server.
    pub master_challenge: u32,
    /// A number with which to mix a password hash.
    pub hash_challenge: u32,
}

/// The bytes of an admin challenge response.
pub open spec fn spec_encode_admin_challenge_response(p: AdminChallengeResponse) -> Seq<u8> {
    admin_challenge_response_header() + u32_le_bytes(p.master_challenge) + u32_le_bytes(
        p.hash_challenge,
    )
}

/// What decoding `s` as an admin challenge response gives.
pub open spec fn spec_decode_admin_challenge_response(s: Seq<u8>) -> Result<
    AdminChallengeResponse,
    Error,
> {
    if !seq_starts_with(s, admin_challenge_response_header()) {
        Err(Error::Cursor(CursorError::Expect))
    } else if s.len() < 26 {
        Err(end_error())
    } else if s.len() > 26 {
        Err(Error::Cursor(CursorError::ExpectEmpty))
    } else {
        Ok(
            AdminChallengeResponse {
                master_challenge: seq_le_u32(s.skip(18)),
                hash_challenge: seq_le_u32(s.skip(22)),
            },
        )
    }
}

impl AdminChallengeResponse {
    /// Packet header.
    pub fn header() -> (r: [u8; 18])
        ensures
            r@ == admin_challenge_response_header(),
    {
        let r = [255u8, 255, 255, 255, 97, 100, 109, 105, 110, 99, 104, 97, 108, 108, 101, 110, 103, 101];
        assert(r@ =~= admin_challenge_response_header());
        r
    }

    /// Creates a new `AdminChallengeResponse`.
    pub fn new(master_challenge: u32, hash_challenge: u32) -> (r: Self)
        ensures
            r.master_challenge == master_challenge,
            r.hash_challenge == hash_challenge,
    {
        AdminChallengeResponse { master_challenge, hash_challenge }
    }

    /// Decode packet from `src`.
    pub fn decode(src: &[u8]) -> (r: Result<Self, Error>)
        ensures
            r == spec_decode_admin_challenge_response(src@),
    {
        let mut cur = Cursor::new(src);
        cur.expect(&Self::header())?;
        let master_challenge = cur.get_u32_le()?;
        assert(src@.skip(18).skip(4) =~= src@.skip(22));
        let hash_challenge = cur.get_u32_le()?;
        cur.expect_empty()?;
        Ok(AdminChallengeResponse { master_challenge, hash_challenge })
    }

    /// Encode packet to `buf`.
    pub fn encode<'b>(&self, buf: &'b mut [u8]) -> (r: Result<&'b [u8], Error>)
        ensures
            r is Ok <==> 26 <= old(buf)@.len(),
            r matches Ok(out) ==> out@ == spec_encode_admin_challenge_response(*self),
            r matches Err(e) ==> e == end_error(),
    {
        let p1 = put_bytes(buf, 0, &Self::header())?;
        let p2 = put_u32_le(buf, p1, self.master_challenge)?;
        let p3 = put_u32_le(buf, p2, self.hash_challenge)?;
        let b: &'b [u8] = buf;
        assert(b@.take(p3 as int) =~= spec_encode_admin_challenge_response(*self));
        Ok(written(b, p3))
    }
}

/// Announce a game client to game server behind NAT.
#[derive(Clone, Copy, Debug, PartialEq, Eq, Structural)]
pub struct ClientAnnounce {
    /// Address of the client.
    pub addr: SocketAddr,
}

/// The bytes of a client announce: the header and the address as text.
pub open spec fn spec_encode_client_announce(p: ClientAnnounce) -> Seq<u8> {
    client_announce_header() + socket_addr_text(p.addr)
}

/// What decoding `s` as a client announce gives: the rest of the packet is the address as
/// text.
pub open spec fn spec_decode_client_announce(s: Seq<u8>) -> Result<ClientAnnounce, Error> {
    if !seq_starts_with(s, client_announce_header()) {
        Err(Error::Cursor(CursorError::Expect))
    } else if !valid_utf8(s.skip(6)) {
        Err(Error::Cursor(CursorError::InvalidString))
    } else {
        match parse_socket_addr(s.skip(6)) {
            None => Err(Error::InvalidClientAnnounceIp),
            Some(addr) => Ok(ClientAnnounce { addr }),
        }
    }
}

impl ClientAnnounce {
    /// Packet header.
    pub fn header() -> (r: [u8; 6])
        ensures
            r@ == client_announce_header(),
    {
        let r = [255u8, 255, 255, 255, 99, 32];
        assert(r@ =~= client_announce_header());
        r
    }

    /// Creates a new `ClientAnnounce`.
    pub fn new(addr: SocketAddr) -> (r: Self)
        ensures
            r.addr == addr,
    {
        ClientAnnounce { addr }
    }

    /// Decode packet from `src`.
    pub fn decode(src: &[u8]) -> (r: Result<Self, Error>)
        ensures
            r == spec_decode_client_announce(src@),
    {
        let mut cur = Cursor::new(src);
        cur.expect(&Self::header())?;
        let n = cur.remaining();
        assert(src@.skip(6).take(n as int) =~= src@.skip(6));
        let text = cur.get_str(n)?;
        let addr = match parse_socket_addr_exec(text.as_bytes()) {
            Some(a) => a,
            None => return Err(Error::InvalidClientAnnounceIp),
        };
        cur.expect_empty()?;
        Ok(ClientAnnounce { addr })
    }

    /// Encode packet to `buf`.
    pub fn encode<'b>(&self, buf: &'b mut [u8]) -> (r: Result<&'b [u8], Error>)
        ensures
            r is Ok <==> spec_encode_client_announce(*self).len() <= old(buf)@.len(),
            r matches Ok(out) ==> out@ == spec_encode_client_announce(*self),
            r matches Err(e) ==> e == end_error(),
    {
        let mut text: Vec<u8> = Vec::new();
        push_socket_addr(&mut text, &self.addr);
        assert(text@ =~= socket_addr_text(self.addr));
        let p1 = put_bytes(buf, 0, &Self::header())?;
        let p2 = put_bytes(buf, p1, text.as_slice())?;
        let b: &'b [u8] = buf;
        assert(b@.take(p2 as int) =~= spec_encode_client_announce(*self));
        Ok(written(b, p2))
    }
}

/// The IPv6 address whose big-endian bytes are `b`.
pub open spec fn be_u128(b: Seq<u8>) -> u128 {
    ((b[0] as u128) << 120u128) | ((b[1] as u128) << 112u128) | ((b[2] as u128) << 104u128) | ((
    b[3] as u128) << 96u128) | ((b[4] as u128) << 88u128) | ((b[5] as u128) << 80u128) | ((
    b[6] as u128) << 72u128) | ((b[7] as u128) << 64u128) | ((b[8] as u128) << 56u128) | ((
    b[9] as u128) << 48u128) | ((b[10] as u128) << 40u128) | ((b[11] as u128) << 32u128) | ((
    b[12] as u128) << 24u128) | ((b[13] as u128) << 16u128) | ((b[14] as u128) << 8u128) | (
    b[15] as u128)
}

/// Byte `i` (counted from the most significant) of an IPv6 address.
pub open spec fn u128_byte(v: u128, i: int) -> u8 {
    ((v >> ((120 - 8 * i) as u128)) & 0xffu128) as u8
}

/// The sixteen big-endian bytes of an IPv6 address.
pub open spec fn u128_be_bytes(v: u128) -> Seq<u8> {
    Seq::new(16, |i: int| u128_byte(v, i))
}

/// The bytes of an IPv6 address read back as the address.
pub proof fn lemma_u128_be_roundtrip(v: u128)
    ensures
        be_u128(u128_be_bytes(v)) == v,
{
    let b = u128_be_bytes(v);
    assert(b[0] == ((v >> 120u128) & 0xffu128) as u8);
    assert(b[1] == ((v >> 112u128) & 0xffu128) as u8);
    assert(b[2] == ((v >> 104u128) & 0xffu128) as u8);
    assert(b[3] == ((v >> 96u128) & 0xffu128) as u8);
    assert(b[4] == ((v >> 88u128) & 0xffu128) as u8);
    assert(b[5] == ((v >> 80u128) & 0xffu128) as u8);
    assert(b[6] == ((v >> 72u128) & 0xffu128) as u8);
    assert(b[7] == ((v >> 64u128) & 0xffu128) as u8);
    assert(b[8] == ((v >> 56u128) & 0xffu128) as u8);
    assert(b[9] == ((v >> 48u128) & 0xffu128) as u8);
    assert(b[10] == ((v >> 40u128) & 0xffu128) as u8);
    assert(b[11] == ((v >> 32u128) & 0xffu128) as u8);
    assert(b[12] == ((v >> 24u128) & 0xffu128) as u8);
    assert(b[13] == ((v >> 16u128) & 0xffu128) as u8);
    assert(b[14] == ((v >> 8u128) & 0xffu128) as u8);
    assert(b[15] == ((v >> 0u128) & 0xffu128) as u8);
    let (b0, b1, b2, b3, b4, b5, b6, b7) = (b[0], b[1], b[2], b[3], b[4], b[5], b[6], b[7]);
    let (b8, b9, b10, b11, b12, b13, b14, b15) = (b[8], b[9], b[10], b[11], b[12], b[13], b[14], b[15]);
    assert(((b0 as u128) << 120u128) | ((b1 as u128) << 112u128) | ((b2 as u128) << 104u128) | ((
    b3 as u128) << 96u128) | ((b4 as u128) << 88u128) | ((b5 as u128) << 80u128) | ((
    b6 as u128) << 72u128) | ((b7 as u128) << 64u128) | ((b8 as u128) << 56u128) | ((
    b9 as u128) << 48u128) | ((b10 as u128) << 40u128) | ((b11 as u128) << 32u128) | ((
    b12 as u128) << 24u128) | ((b13 as u128) << 16u128) | ((b14 as u128) << 8u128) | (
    b15 as u128) == v) by (bit_vector)
        requires
            b0 == ((v >> 120u128) & 0xffu128) as u8,
            b1 == ((v >> 112u128) & 0xffu128) as u8,
            b2 == ((v >> 104u128) & 0xffu128) as u8,
            b3 == ((v >> 96u128) & 0xffu128) as u8,
            b4 == ((v >> 88u128) & 0xffu128) as u8,
            b5 == ((v >> 80u128) & 0xffu128) as u8,
            b6 == ((v >> 72u128) & 0xffu128) as u8,
            b7 == ((v >> 64u128) & 0xffu128) as u8,
            b8 == ((v >> 56u128) & 0xffu128) as u8,
            b9 == ((v >> 48u128) & 0xffu128) as u8,
            b10 == ((v >> 40u128) & 0xffu128) as u8,
            b11 == ((v >> 32u128) & 0xffu128) as u8,
            b12 == ((v >> 24u128) & 0xffu128) as u8,
            b13 == ((v >> 16u128) & 0xffu128) as u8,
            b14 == ((v >> 8u128) & 0xffu128) as u8,
            b15 == ((v >> 0u128) & 0xffu128) as u8,
    ;
}

/// An address read from sixteen bytes writes back as the same bytes.
pub proof fn lemma_u128_be_canonical(b: Seq<u8>)
    requires
        b.len() == 16,
    ensures
        u128_be_bytes(be_u128(b)) == b,
{
    let v = be_u128(b);
    let (b0, b1, b2, b3, b4, b5, b6, b7) = (b[0], b[1], b[2], b[3], b[4], b[5], b[6], b[7]);
    let (b8, b9, b10, b11, b12, b13, b14, b15) = (b[8], b[9], b[10], b[11], b[12], b[13], b[14], b[15]);
    assert(b0 == ((v >> 120u128) & 0xffu128) as u8 && b1 == ((v >> 112u128) & 0xffu128) as u8
        && b2 == ((v >> 104u128) & 0xffu128) as u8 && b3 == ((v >> 96u128) & 0xffu128) as u8
        && b4 == ((v >> 88u128) & 0xffu128) as u8 && b5 == ((v >> 80u128) & 0xffu128) as u8
        && b6 == ((v >> 72u128) & 0xffu128) as u8 && b7 == ((v >> 64u128) & 0xffu128) as u8
        && b8 == ((v >> 56u128) & 0xffu128) as u8 && b9 == ((v >> 48u128) & 0xffu128) as u8
        && b10 == ((v >> 40u128) & 0xffu128) as u8 && b11 == ((v >> 32u128) & 0xffu128) as u8
        && b12 == ((v >> 24u128) & 0xffu128) as u8 && b13 == ((v >> 16u128) & 0xffu128) as u8
        && b14 == ((v >> 8u128) & 0xffu128) as u8 && b15 == ((v >> 0u128) & 0xffu128) as u8)
        by (bit_vector)
        requires
            v == ((b0 as u128) << 120u128) | ((b1 as u128) << 112u128) | ((b2 as u128) << 104u128)
                | ((b3 as u128) << 96u128) | ((b4 as u128) << 88u128) | ((b5 as u128) << 80u128)
                | ((b6 as u128) << 72u128) | ((b7 as u128) << 64u128) | ((b8 as u128) << 56u128)
                | ((b9 as u128) << 48u128) | ((b10 as u128) << 40u128) | ((b11 as u128)
                << 32u128) | ((b12 as u128) << 24u128) | ((b13 as u128) << 16u128) | ((
            b14 as u128) << 8u128) | (b15 as u128),
    ;
    assert(u128_be_bytes(v) =~= b);
}

/// The four big-endian bytes of an IPv4 address.
pub open spec fn u32_be_bytes(v: u32) -> Seq<u8> {
    seq![
        ((v >> 24u32) & 0xffu32) as u8,
        ((v >> 16u32) & 0xffu32) as u8,
        ((v >> 8u32) & 0xffu32) as u8,
        (v & 0xffu32) as u8,
    ]
}

/// The IPv4 address whose big-endian bytes start `b`.
pub open spec fn be_u32(b: Seq<u8>) -> u32 {
    crate::net::ipv4_from_octets(b[0], b[1], b[2], b[3])
}

/// Helper trait for dealing with server addresses in server lists.
pub trait ServerAddress: Sized + Copy {
    /// Size of IP and port in bytes.
    spec fn spec_size() -> nat;

    /// The bytes of the address in a server list.
    spec fn spec_bytes(&self) -> Seq<u8>;

    /// The address that `spec_size()` bytes stand for.
    spec fn spec_from_bytes(b: Seq<u8>) -> Self;

    /// The address is written in full: nothing of it is lost in a server list.
    spec fn spec_is_canonical(&self) -> bool;

    /// The bytes of an address have the size, and read back as the address when it is
    /// canonical; bytes read as an address write back as the same bytes.
    proof fn lemma_bytes(a: Self, b: Seq<u8>)
        ensures
            6 <= Self::spec_size() <= 64,
            a.spec_bytes().len() == Self::spec_size(),
            a.spec_is_canonical() ==> Self::spec_from_bytes(a.spec_bytes()) == a,
            b.len() == Self::spec_size() ==> Self::spec_from_bytes(b).spec_bytes() == b,
            b.len() == Self::spec_size() ==> Self::spec_from_bytes(b).spec_is_canonical(),
    ;

    /// Size of IP and port in bytes.
    fn size() -> (r: usize)
        ensures
            r == Self::spec_size(),
    ;

    /// Read address from a cursor.
    fn get(cur: &mut Cursor) -> (r: Result<Self, Error>)
        ensures
            match r {
                Ok(a) => Self::spec_size() <= old(cur)@.len() && a == Self::spec_from_bytes(
                    old(cur)@.take(Self::spec_size() as int),
                ) && final(cur)@ == old(cur)@.skip(Self::spec_size() as int),
                Err(e) => old(cur)@.len() < Self::spec_size() && e == end_error() && final(cur)@
                    == old(cur)@,
            },
    ;

    /// Write address into `buf` at `pos`.
    fn put(&self, buf: &mut [u8], pos: usize) -> (r: Result<usize, Error>)
        requires
            pos <= old(buf)@.len(),
        ensures
            final(buf)@.len() == old(buf)@.len(),
            match r {
                Ok(n) => n == pos + Self::spec_size() && n <= old(buf)@.len() && final(buf)@.take(
                    n as int,
                ) == old(buf)@.take(pos as int) + self.spec_bytes(),
                Err(e) => pos + Self::spec_size() > old(buf)@.len() && e == end_error(),
            },
    ;
}

impl ServerAddress for SocketAddrV4 {
    open spec fn spec_size() -> nat {
        6
    }

    open spec fn spec_bytes(&self) -> Seq<u8> {
        u32_be_bytes(self.ip) + u16_be_bytes(self.port)
    }

    open spec fn spec_from_bytes(b: Seq<u8>) -> Self {
        SocketAddrV4 { ip: be_u32(b), port: seq_be_u16(b.skip(4)) }
    }

    open spec fn spec_is_canonical(&self) -> bool {
        true
    }

    proof fn lemma_bytes(a: Self, b: Seq<u8>) {
        let ip = a.ip;
        let bb = u32_be_bytes(ip);
        assert(crate::net::ipv4_from_octets(bb[0], bb[1], bb[2], bb[3]) == ip) by {
            crate::addr_text::lemma_ipv4_octets(ip);
            assert(crate::net::ipv4_octet(ip, 0) == bb[0]);
            assert(crate::net::ipv4_octet(ip, 1) == bb[1]);
            assert(crate::net::ipv4_octet(ip, 2) == bb[2]);
            assert(crate::net::ipv4_octet(ip, 3) == ((ip >> 0u32) & 0xffu32) as u8);
            assert((ip >> 0u32) == ip) by (bit_vector);
        }
        crate::cursor::lemma_u16_be_roundtrip(a.port);
        let s = a.spec_bytes();
        assert(s.skip(4) =~= u16_be_bytes(a.port));
        if b.len() == 6 {
            let v = be_u32(b);
            let (b0, b1, b2, b3) = (b[0], b[1], b[2], b[3]);
            assert(b0 == ((v >> 24u32) & 0xffu32) as u8 && b1 == ((v >> 16u32) & 0xffu32) as u8
                && b2 == ((v >> 8u32) & 0xffu32) as u8 && b3 == (v & 0xffu32) as u8) by (bit_vector)
                requires
                    v == crate::net::ipv4_from_octets(b0, b1, b2, b3),
            ;
            crate::cursor::lemma_u16_be_canonical(b.skip(4));
            assert(Self::spec_from_bytes(b).spec_bytes() =~= b);
        }
    }

    fn size() -> (r: usize) {
        6
    }

    fn get(cur: &mut Cursor) -> (r: Result<Self, Error>) {
        if cur.remaining() < 6 {
            return Err(Error::Cursor(CursorError::UnexpectedEnd));
        }
        let ghost c0 = cur@;
        let b = cur.get_bytes(4)?;
        let ip = ((b[0] as u32) << 24u32) | ((b[1] as u32) << 16u32) | ((b[2] as u32) << 8u32) | (
        b[3] as u32);
        let port = cur.get_u16_be()?;
        assert(c0.take(6).skip(4) =~= c0.skip(4).take(2));
        assert(c0.skip(4).skip(2) =~= c0.skip(6));
        assert(seq_be_u16(c0.take(6).skip(4)) == seq_be_u16(c0.skip(4)));
        Ok(SocketAddrV4 { ip, port })
    }

    fn put(&self, buf: &mut [u8], pos: usize) -> (r: Result<usize, Error>) {
        let a: [u8; 4] = [
            ((self.ip >> 24u32) & 0xff) as u8,
            ((self.ip >> 16u32) & 0xff) as u8,
            ((self.ip >> 8u32) & 0xff) as u8,
            (self.ip & 0xff) as u8,
        ];
        assert(a@ =~= u32_be_bytes(self.ip));
        let p1 = put_bytes(buf, pos, &a)?;
        let p2 = put_u16_be(buf, p1, self.port)?;
        assert(final(buf)@.take(p2 as int) =~= old(buf)@.take(pos as int) + self.spec_bytes());
        Ok(p2)
    }
}

impl ServerAddress for SocketAddrV6 {
    open spec fn spec_size() -> nat {
        18
    }

    open spec fn spec_bytes(&self) -> Seq<u8> {
        u128_be_bytes(self.ip) + u16_be_bytes(self.port)
    }

    open spec fn spec_from_bytes(b: Seq<u8>) -> Self {
        SocketAddrV6 { ip: be_u128(b), port: seq_be_u16(b.skip(16)), flowinfo: 0, scope_id: 0 }
    }

    /// The flow information and the scope are not written in a server list.
    open spec fn spec_is_canonical(&self) -> bool {
        self.flowinfo == 0 && self.scope_id == 0
    }

    proof fn lemma_bytes(a: Self, b: Seq<u8>) {
        lemma_u128_be_roundtrip(a.ip);
        crate::cursor::lemma_u16_be_roundtrip(a.port);
        let s = a.spec_bytes();
        assert(s.skip(16) =~= u16_be_bytes(a.port));
        assert(be_u128(s) == be_u128(u128_be_bytes(a.ip)));
        if b.len() == 18 {
            lemma_u128_be_canonical(b.take(16));
            assert(be_u128(b.take(16)) == be_u128(b));
            crate::cursor::lemma_u16_be_canonical(b.skip(16));
            assert(Self::spec_from_bytes(b).spec_bytes() =~= b);
        }
    }

    fn size() -> (r: usize) {
        18
    }

    fn get(cur: &mut Cursor) -> (r: Result<Self, Error>) {
        if cur.remaining() < 18 {
            return Err(Error::Cursor(CursorError::UnexpectedEnd));
        }
        let ghost c0 = cur@;
        let b = cur.get_bytes(16)?;
        let ip = ((b[0] as u128) << 120u128) | ((b[1] as u128) << 112u128) | ((b[2] as u128)
            << 104u128) | ((b[3] as u128) << 96u128) | ((b[4] as u128) << 88u128) | ((
        b[5] as u128) << 80u128) | ((b[6] as u128) << 72u128) | ((b[7] as u128) << 64u128) | ((
        b[8] as u128) << 56u128) | ((b[9] as u128) << 48u128) | ((b[10] as u128) << 40u128) | ((
        b[11] as u128) << 32u128) | ((b[12] as u128) << 24u128) | ((b[13] as u128) << 16u128) | ((
        b[14] as u128) << 8u128) | (b[15] as u128);
        let port = cur.get_u16_be()?;
        assert(c0.take(18).skip(16) =~= c0.skip(16).take(2));
        assert(c0.skip(16).skip(2) =~= c0.skip(18));
        assert(seq_be_u16(c0.take(18).skip(16)) == seq_be_u16(c0.skip(16)));
        assert(be_u128(c0.take(18)) == be_u128(b@));
        Ok(SocketAddrV6 { ip, port, flowinfo: 0, scope_id: 0 })
    }

    fn put(&self, buf: &mut [u8], pos: usize) -> (r: Result<usize, Error>) {
        let v = self.ip;
        let a: [u8; 16] = [
            ((v >> 120u128) & 0xff) as u8,
            ((v >> 112u128) & 0xff) as u8,
            ((v >> 104u128) & 0xff) as u8,
            ((v >> 96u128) & 0xff) as u8,
            ((v >> 88u128) & 0xff) as u8,
            ((v >> 80u128) & 0xff) as u8,
            ((v >> 72u128) & 0xff) as u8,
            ((v >> 64u128) & 0xff) as u8,
            ((v >> 56u128) & 0xff) as u8,
            ((v >> 48u128) & 0xff) as u8,
            ((v >> 40u128) & 0xff) as u8,
            ((v >> 32u128) & 0xff) as u8,
            ((v >> 24u128) & 0xff) as u8,
            ((v >> 16u128) & 0xff) as u8,
            ((v >> 8u128) & 0xff) as u8,
            (v & 0xff) as u8,
        ];
        assert((v >> 0u128) == v) by (bit_vector);
        assert(a@ =~= u128_be_bytes(v));
        let p1 = put_bytes(buf, pos, &a)?;
        let p2 = put_u16_be(buf, p1, self.port)?;
        assert(final(buf)@.take(p2 as int) =~= old(buf)@.take(pos as int) + self.spec_bytes());
        Ok(p2)
    }
}

/// Whether a server list begins with the extra header that carries the key of the
/// request: `0x7f`, four bytes of key and `8`.
pub open spec fn has_key_marker(s: Seq<u8>) -> bool {
    s.len() >= 6 && s[0] == 0x7f && s[5] == 8
}

/// The extra header that carries the key of a request, if any.
pub open spec fn key_header(key: Option<u32>) -> Seq<u8> {
    match key {
        Some(k) => seq![0x7fu8] + u32_le_bytes(k) + seq![8u8],
        None => Seq::empty(),
    }
}

/// What decoding `s` as a server list gives: the addresses part and the key.
pub open spec fn spec_decode_query_servers_response(s: Seq<u8>) -> Result<(Seq<u8>, Option<u32>), Error> {
    if !seq_starts_with(s, query_servers_response_header()) {
        Err(Error::Cursor(CursorError::Expect))
    } else {
        let r = s.skip(6);
        if has_key_marker(r) {
            Ok((r.skip(6), Some(seq_le_u32(r.skip(1)))))
        } else {
            Ok((r, None))
        }
    }
}

/// The next address of a list and the bytes after it: `None` at the end, which is a
/// last address of port 0, or fewer bytes than an address.
pub open spec fn addr_step<A: ServerAddress>(s: Seq<u8>) -> Option<(A, Seq<u8>)> {
    let n = A::spec_size();
    if n < 2 || s.len() < n || (s.len() == n && s[n - 2] == 0 && s[n - 1] == 0) {
        None
    } else {
        Some((A::spec_from_bytes(s.take(n as int)), s.skip(n as int)))
    }
}

/// All the addresses of a list, in order.
pub open spec fn addr_items<A: ServerAddress>(s: Seq<u8>) -> Seq<A>
    decreases s.len(),
{
    let n = A::spec_size();
    if n < 2 || s.len() < n || (s.len() == n && s[n - 2] == 0 && s[n - 1] == 0) {
        Seq::empty()
    } else {
        seq![A::spec_from_bytes(s.take(n as int))] + addr_items::<A>(s.skip(n as int))
    }
}

/// The bytes of a list of addresses.
pub open spec fn addrs_bytes<A: ServerAddress>(l: Seq<A>) -> Seq<u8>
    decreases l.len(),
{
    if l.len() == 0 {
        Seq::empty()
    } else {
        l[0].spec_bytes() + addrs_bytes(l.drop_first())
    }
}

/// How many of `len` addresses of `size` bytes are written when `avail` bytes are left:
/// one more is written while room for two remains.
pub open spec fn fit_count(avail: int, size: nat, len: nat) -> nat
    decreases len,
{
    if len == 0 || size == 0 || avail < 2 * size {
        0
    } else {
        1 + fit_count(avail - size, size, (len - 1) as nat)
    }
}

/// `n` zero bytes.
pub open spec fn zeros(n: nat) -> Seq<u8> {
    Seq::new(n, |i: int| 0u8)
}

/// The bytes of a server list with the given key and addresses.
pub open spec fn spec_encode_query_servers_response<A: ServerAddress>(key: Option<u32>, l: Seq<A>) -> Seq<u8> {
    query_servers_response_header() + key_header(key) + addrs_bytes(l) + zeros(A::spec_size())
}

/// Appending an address appends its bytes.
pub proof fn lemma_addrs_bytes_push<A: ServerAddress>(l: Seq<A>, a: A)
    ensures
        addrs_bytes(l.push(a)) == addrs_bytes(l) + a.spec_bytes(),
    decreases l.len(),
{
    if l.len() == 0 {
        assert(l.push(a).drop_first() =~= Seq::<A>::empty());
        assert(addrs_bytes(Seq::<A>::empty()) =~= Seq::<u8>::empty());
        assert(addrs_bytes(l.push(a)) =~= a.spec_bytes());
    } else {
        assert(l.push(a).drop_first() =~= l.drop_first().push(a));
        lemma_addrs_bytes_push(l.drop_first(), a);
        assert(addrs_bytes(l.push(a)) =~= addrs_bytes(l) + a.spec_bytes());
    }
}

/// The bytes of `k` addresses are `k` times the size of one.
pub proof fn lemma_addrs_bytes_len<A: ServerAddress>(l: Seq<A>)
    ensures
        addrs_bytes(l).len() == l.len() * A::spec_size(),
    decreases l.len(),
{
    if l.len() > 0 {
        A::lemma_bytes(l[0], Seq::empty());
        lemma_addrs_bytes_len(l.drop_first());
        assert(l.len() * A::spec_size() == A::spec_size() + (l.len() - 1) * A::spec_size()) by (nonlinear_arith);
    }
}

/// Game server addresses list.
#[derive(Clone, Copy, Debug, PartialEq, Eq)]
pub struct QueryServersResponse<I> {
    inner: I,
    /// A challenge number received in a filter string.
    pub key: Option<u32>,
}

impl<'a> View for QueryServersResponse<&'a [u8]> {
    type V = (Seq<u8>, Option<u32>);

    /// The addresses part of the list, and the key.
    closed spec fn view(&self) -> (Seq<u8>, Option<u32>) {
        (self.inner@, self.key)
    }
}

impl View for QueryServersResponse<()> {
    type V = Option<u32>;

    /// The key.
    closed spec fn view(&self) -> Option<u32> {
        self.key
    }
}

impl QueryServersResponse<()> {
    /// Packet header.
    pub fn header() -> (r: [u8; 6])
        ensures
            r@ == query_servers_response_header(),
    {
        let r = [255u8, 255, 255, 255, 102, 10];
        assert(r@ =~= query_servers_response_header());
        r
    }

    /// Creates a new `QueryServersResponse`.
    pub fn new(key: Option<u32>) -> (r: Self)
        ensures
            r@ == key,
    {
        QueryServersResponse { inner: (), key }
    }

    /// Encode packet to `buf`: the header, the key, as many addresses of `list` as fit while
    /// room for one more address remains, and an address of zeros that ends the list.
    ///
    /// Returns number of bytes written into `buf` and how many items was written.
    pub fn encode<'b, A: ServerAddress>(&mut self, buf: &'b mut [u8], list: &[A]) -> (r: Result<(&'b [u8], usize), Error>)
        ensures
            *final(self) == *old(self),
            final(buf)@.len() == old(buf)@.len(),
            r is Ok <==> query_servers_response_header().len() + key_header(old(self)@).len()
                + A::spec_size() <= old(buf)@.len(),
            r matches Ok((out, count)) ==> count == fit_count(
                old(buf)@.len() - query_servers_response_header().len() - key_header(old(self)@).len(),
                A::spec_size(),
                list@.len(),
            ) && out@ == spec_encode_query_servers_response(old(self)@, list@.take(count as int)),
            r matches Err(e) ==> e == end_error(),
    {
        let size = A::size();
        proof {
            A::lemma_bytes(arbitrary(), Seq::empty());
        }
        let len = buf.len();
        let ghost b0 = buf@;
        let ghost hdr = query_servers_response_header() + key_header(self.key);
        let mut p = put_bytes(buf, 0, &Self::header())?;
        if let Some(key) = self.key {
            p = put_u8(buf, p, 0x7f)?;
            p = put_u32_le(buf, p, key)?;
            p = put_u8(buf, p, 8)?;
        }
        assert(buf@.take(p as int) =~= hdr);
        let h = p;
        let ghost a0: int = len - h;
        let mut count: usize = 0;
        while count < list.len() && len - p >= size * 2
            invariant_except_break
                len == buf@.len(),
                len == b0.len(),
                size == A::spec_size(),
                6 <= size <= 64,
                h == hdr.len(),
                a0 == len - h,
                count <= list@.len(),
                p == h + count * size,
                p <= len,
                buf@.take(p as int) == hdr + addrs_bytes(list@.take(count as int)),
                fit_count(a0, size as nat, list@.len()) == count + fit_count(
                    len - p,
                    size as nat,
                    (list@.len() - count) as nat,
                ),
                count > 0 ==> len - p >= size,
            ensures
                len == buf@.len(),
                size == A::spec_size(),
                h == hdr.len(),
                p == h + count * size,
                p <= len,
                buf@.take(p as int) == hdr + addrs_bytes(list@.take(count as int)),
                fit_count(a0, size as nat, list@.len()) == count,
                count > 0 ==> len - p >= size,
            decreases list@.len() - count,
        {
            let ghost before = buf@;
            let q = list[count].put(buf, p)?;
            proof {
                assert(list@.take(count + 1) =~= list@.take(count as int).push(list@[count as int]));
                lemma_addrs_bytes_push(list@.take(count as int), list@[count as int]);
                assert(before.take(p as int) =~= buf@.take(p as int).take(p as int));
            }
            p = q;
            count = count + 1;
            proof {
                assert(count * size == (count - 1) * size + size) by (nonlinear_arith);
            }
        }
        let mut z: Vec<u8> = Vec::new();
        let mut i: usize = 0;
        while i < size
            invariant
                i <= size,
                z@ == zeros(i as nat),
            decreases size - i,
        {
            z.push(0);
            i = i + 1;
            assert(z@ =~= zeros(i as nat));
        }
        let e = put_bytes(buf, p, z.as_slice())?;
        let b: &'b [u8] = buf;
        assert(b@.take(e as int) =~= spec_encode_query_servers_response(self.key, list@.take(count as int)));
        Ok((written(b, e), count))
    }
}

impl<'a> QueryServersResponse<&'a [u8]> {
    /// Decode packet from `src`.
    pub fn decode(src: &'a [u8]) -> (r: Result<Self, Error>)
        ensures
            result_view(r) == spec_decode_query_servers_response(src@),
    {
        let mut cur = Cursor::new(src);
        cur.expect(&QueryServersResponse::header())?;
        let s = cur.end();
        if s.len() >= 6 && s[0] == 0x7f && s[5] == 8 {
            let key = (s[1] as u32) | ((s[2] as u32) << 8u32) | ((s[3] as u32) << 16u32) | ((
            s[4] as u32) << 24u32);
            let inner = &s[6..s.len()];
            assert(inner@ =~= s@.skip(6));
            Ok(QueryServersResponse { inner, key: Some(key) })
        } else {
            Ok(QueryServersResponse { inner: s, key: None })
        }
    }

    /// Iterator over game server addresses.
    pub fn iter<A: ServerAddress>(&self) -> (r: QueryServersResponseIter<'a, A>)
        ensures
            r@ == self@.0,
    {
        QueryServersResponseIter { cur: Cursor::new(self.inner), phantom: PhantomData }
    }

    /// The key that the list carries, if any.
    pub fn key(&self) -> (r: Option<u32>)
        ensures
            r == self@.1,
    {
        self.key
    }

    /// Returns `true` if game server addresses list is empty: iterating it as addresses of
    /// type `A` gives none.
    pub fn is_empty<A: ServerAddress>(&self) -> (r: bool)
        ensures
            r == (addr_items::<A>(self@.0).len() == 0),
    {
        let mut it = self.iter::<A>();
        let first = it.next();
        proof {
            reveal_with_fuel(addr_items, 2);
        }
        first.is_none()
    }
}

/// An iterator over server addresses.
pub struct QueryServersResponseIter<'a, A> {
    cur: Cursor<'a>,
    phantom: PhantomData<A>,
}

impl<'a, A> View for QueryServersResponseIter<'a, A> {
    type V = Seq<u8>;

    /// The bytes that remain to be read.
    closed spec fn view(&self) -> Seq<u8> {
        self.cur@
    }
}

impl<'a, A: ServerAddress> QueryServersResponseIter<'a, A> {
    /// The next address; `None` at the end of the list.
    pub fn next(&mut self) -> (r: Option<A>)
        ensures
            match addr_step::<A>(old(self)@) {
                None => r is None && final(self)@ == old(self)@,
                Some((a, rest)) => r == Some(a) && final(self)@ == rest,
            },
    {
        proof {
            A::lemma_bytes(arbitrary(), Seq::empty());
        }
        let n = A::size();
        if self.cur.remaining() == n {
            let save = self.cur;
            let rest = self.cur.end();
            self.cur = save;
            if rest[n - 2] == 0 && rest[n - 1] == 0 {
                return None;
            }
        }
        match A::get(&mut self.cur) {
            Ok(a) => Some(a),
            Err(_) => None,
        }
    }
}

/// The view of a master server packet.
pub enum MasterPacketView {
    ChallengeResponse(ChallengeResponse),
    QueryServersResponse(Seq<u8>, Option<u32>),
    ClientAnnounce(ClientAnnounce),
    AdminChallengeResponse(AdminChallengeResponse),
}

/// Master server packet.
#[derive(Clone, Copy, Debug, PartialEq, Eq)]
pub enum MasterPacket<'a> {
    /// Master server challenge response packet.
    ChallengeResponse(ChallengeResponse),
    /// Game server addresses list.
    QueryServersResponse(QueryServersResponse<&'a [u8]>),
    /// Announce a game client to game server behind NAT.
    ClientAnnounce(ClientAnnounce),
    /// Admin challenge response.
    AdminChallengeResponse(AdminChallengeResponse),
}

impl<'a> View for MasterPacket<'a> {
    type V = MasterPacketView;

    open spec fn view(&self) -> MasterPacketView {
        match self {
            MasterPacket::ChallengeResponse(p) => MasterPacketView::ChallengeResponse(*p),
            MasterPacket::QueryServersResponse(p) => MasterPacketView::QueryServersResponse(
                p@.0,
                p@.1,
            ),
            MasterPacket::ClientAnnounce(p) => MasterPacketView::ClientAnnounce(*p),
            MasterPacket::AdminChallengeResponse(p) => MasterPacketView::AdminChallengeResponse(*p),
        }
    }
}

/// What decoding `s` as a master server packet gives: the header picks the packet;
/// `None` when no header matches.
pub open spec fn spec_decode_master_packet(s: Seq<u8>) -> Result<Option<MasterPacketView>, Error> {
    if seq_starts_with(s, challenge_response_header()) {
        match spec_decode_challenge_response(s) {
            Ok(p) => Ok(Some(MasterPacketView::ChallengeResponse(p))),
            Err(e) => Err(e),
        }
    } else if seq_starts_with(s, query_servers_response_header()) {
        match spec_decode_query_servers_response(s) {
            Ok((inner, key)) => Ok(Some(MasterPacketView::QueryServersResponse(inner, key))),
            Err(e) => Err(e),
        }
    } else if seq_starts_with(s, client_announce_header()) {
        match spec_decode_client_announce(s) {
            Ok(p) => Ok(Some(MasterPacketView::ClientAnnounce(p))),
            Err(e) => Err(e),
        }
    } else if seq_starts_with(s, admin_challenge_response_header()) {
        match spec_decode_admin_challenge_response(s) {
            Ok(p) => Ok(Some(MasterPacketView::AdminChallengeResponse(p))),
            Err(e) => Err(e),
        }
    } else {
        Ok(None)
    }
}

impl<'a> MasterPacket<'a> {
    /// Decode packet from `src`.
    pub fn decode(src: &'a [u8]) -> (r: Result<Option<Self>, Error>)
        ensures
            option_result_view(r) == spec_decode_master_packet(src@),
    {
        if starts_with(src, &ChallengeResponse::header()) {
            match ChallengeResponse::decode(src) {
                Ok(p) => Ok(Some(MasterPacket::ChallengeResponse(p))),
                Err(e) => Err(e),
            }
        } else if starts_with(src, &QueryServersResponse::header()) {
            match QueryServersResponse::decode(src) {
                Ok(p) => Ok(Some(MasterPacket::QueryServersResponse(p))),
                Err(e) => Err(e),
            }
        } else if starts_with(src, &ClientAnnounce::header()) {
            match ClientAnnounce::decode(src) {
                Ok(p) => Ok(Some(MasterPacket::ClientAnnounce(p))),
                Err(e) => Err(e),
            }
        } else if starts_with(src, &AdminChallengeResponse::header()) {
            match AdminChallengeResponse::decode(src) {
                Ok(p) => Ok(Some(MasterPacket::AdminChallengeResponse(p))),
                Err(e) => Err(e),
            }
        } else {
            Ok(None)
        }
    }
}

/// A challenge response decodes to itself, as a packet too.
pub proof fn lemma_challenge_response_roundtrip(p: ChallengeResponse)
    ensures
        spec_decode_challenge_response(spec_encode_challenge_response(p)) == Ok::<
            ChallengeResponse,
            Error,
        >(p),
        spec_decode_master_packet(spec_encode_challenge_response(p)) == Ok::<
            Option<MasterPacketView>,
            Error,
        >(Some(MasterPacketView::ChallengeResponse(p))),
{
    let s = spec_encode_challenge_response(p);
    assert(s.subrange(0, 6) =~= challenge_response_header());
    crate::cursor::lemma_u32_le_roundtrip(p.master_challenge);
    assert(s.skip(6).take(4) =~= u32_le_bytes(p.master_challenge));
    if let Some(c) = p.server_challenge {
        crate::cursor::lemma_u32_le_roundtrip(c);
        assert(s.skip(10) =~= u32_le_bytes(c));
    }
}

/// An admin challenge response decodes to itself, as a packet too.
pub proof fn lemma_admin_challenge_response_roundtrip(p: AdminChallengeResponse)
    ensures
        spec_decode_admin_challenge_response(spec_encode_admin_challenge_response(p)) == Ok::<
            AdminChallengeResponse,
            Error,
        >(p),
        spec_decode_master_packet(spec_encode_admin_challenge_response(p)) == Ok::<
            Option<MasterPacketView>,
            Error,
        >(Some(MasterPacketView::AdminChallengeResponse(p))),
{
    let s = spec_encode_admin_challenge_response(p);
    assert(s.subrange(0, 18) =~= admin_challenge_response_header());
    crate::cursor::lemma_u32_le_roundtrip(p.master_challenge);
    crate::cursor::lemma_u32_le_roundtrip(p.hash_challenge);
    assert(s.skip(18).take(4) =~= u32_le_bytes(p.master_challenge));
    assert(s.skip(22) =~= u32_le_bytes(p.hash_challenge));
    assert(s.subrange(0, 6) != challenge_response_header()) by {
        assert(s.subrange(0, 6)[4] != challenge_response_header()[4]);
    }
    assert(s.subrange(0, 6) != query_servers_response_header()) by {
        assert(s.subrange(0, 6)[4] != query_servers_response_header()[4]);
    }
    assert(s.subrange(0, 6) != client_announce_header()) by {
        assert(s.subrange(0, 6)[4] != client_announce_header()[4]);
    }
}

/// A client announce decodes to itself, as a packet too, except for the flow information of
/// an IPv6 address, which its text does not carry.
pub proof fn lemma_client_announce_roundtrip(a: SocketAddr)
    requires
        a is V6 ==> a->V6_0.flowinfo == 0,
    ensures
        spec_decode_client_announce(spec_encode_client_announce(ClientAnnounce { addr: a }))
            == Ok::<ClientAnnounce, Error>(ClientAnnounce { addr: a }),
        spec_decode_master_packet(spec_encode_client_announce(ClientAnnounce { addr: a }))
            == Ok::<Option<MasterPacketView>, Error>(
            Some(MasterPacketView::ClientAnnounce(ClientAnnounce { addr: a })),
        ),
{
    let p = ClientAnnounce { addr: a };
    let s = spec_encode_client_announce(p);
    crate::v6_text::lemma_socket_addr_text_roundtrip(a);
    crate::v6_text::lemma_socket_addr_text_printable(a);
    let t = socket_addr_text(p.addr);
    assert(s.subrange(0, 6) =~= client_announce_header());
    assert(s.skip(6) =~= t);
    assert(forall|i: int| 0 <= i < t.len() ==> #[trigger] t[i] < 128);
    crate::text::lemma_ascii_valid_utf8(t);
    assert(s.subrange(0, 6) != challenge_response_header()) by {
        assert(s.subrange(0, 6)[4] != challenge_response_header()[4]);
    }
    assert(s.subrange(0, 6) != query_servers_response_header()) by {
        assert(s.subrange(0, 6)[4] != query_servers_response_header()[4]);
    }
}

/// Reading the bytes of canonical addresses followed by an address of zeros gives back
/// the addresses.
pub proof fn lemma_addr_items<A: ServerAddress>(l: Seq<A>)
    requires
        forall|i: int| 0 <= i < l.len() ==> (#[trigger] l[i]).spec_is_canonical(),
    ensures
        addr_items::<A>(addrs_bytes(l) + zeros(A::spec_size())) == l,
    decreases l.len(),
{
    A::lemma_bytes(arbitrary(), Seq::empty());
    let n = A::spec_size();
    let s = addrs_bytes(l) + zeros(n);
    if l.len() == 0 {
        assert(s =~= zeros(n));
        assert(s[n - 2] == 0 && s[n - 1] == 0);
        assert(addr_items::<A>(s) =~= Seq::<A>::empty());
    } else {
        A::lemma_bytes(l[0], Seq::empty());
        lemma_addrs_bytes_len(l.drop_first());
        assert(s.take(n as int) =~= l[0].spec_bytes());
        assert(s.skip(n as int) =~= addrs_bytes(l.drop_first()) + zeros(n));
        assert forall|i: int| 0 <= i < l.drop_first().len() implies (#[trigger] l.drop_first()[i]).spec_is_canonical() by {
            assert(l.drop_first()[i] == l[i + 1]);
        }
        lemma_addr_items(l.drop_first());
        assert(addr_items::<A>(s) =~= seq![l[0]] + l.drop_first());
        assert(seq![l[0]] + l.drop_first() =~= l);
    }
}

/// A server list decodes to its key and its addresses, given that the addresses are
/// written in full (no IPv6 flow information or scope) and that, without a key, the list
/// does not begin with the bytes of a key header.
pub proof fn lemma_query_servers_response_roundtrip<A: ServerAddress>(key: Option<u32>, l: Seq<A>)
    requires
        forall|i: int| 0 <= i < l.len() ==> (#[trigger] l[i]).spec_is_canonical(),
        key is Some || !has_key_marker(addrs_bytes(l) + zeros(A::spec_size())),
    ensures
        spec_decode_query_servers_response(spec_encode_query_servers_response(key, l)) == Ok::<
            (Seq<u8>, Option<u32>),
            Error,
        >((addrs_bytes(l) + zeros(A::spec_size()), key)),
        addr_items::<A>(addrs_bytes(l) + zeros(A::spec_size())) == l,
{
    let s = spec_encode_query_servers_response(key, l);
    let inner = addrs_bytes(l) + zeros(A::spec_size());
    assert(s.subrange(0, 6) =~= query_servers_response_header());
    lemma_addr_items(l);
    match key {
        Some(k) => {
            assert(s.skip(6) =~= key_header(key) + inner);
            assert(s.skip(6).skip(6) =~= inner);
            assert(s.skip(6).skip(1).take(4) =~= u32_le_bytes(k));
            crate::cursor::lemma_u32_le_roundtrip(k);
        },
        None => {
            assert(s.skip(6) =~= inner);
        },
    }
}

} // verus!
