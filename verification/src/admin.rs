//! Admin packets: the requests that an administrator sends to a master server.

use vstd::prelude::*;
use vstd::string::StringSliceAdditionalSpecFns;
use vstd::utf8::*;

use crate::cursor::{put_bytes, put_u32_le, seq_le_u32, seq_starts_with, starts_with, u32_le_bytes, written, Cursor};
use crate::error::{end_error, option_result_view, result_view, CursorError, Error};

verus! {

/// Default hash length.
pub const HASH_LEN: usize = 64;

/// `adminchallenge`
pub open spec fn admin_challenge_header() -> Seq<u8> {
    seq![97u8, 100u8, 109u8, 105u8, 110u8, 99u8, 104u8, 97u8, 108u8, 108u8, 101u8, 110u8, 103u8, 101u8]
}

/// `admin`
pub open spec fn admin_command_header() -> Seq<u8> {
    seq![97u8, 100u8, 109u8, 105u8, 110u8]
}

/// Admin challenge request.
#[derive(Clone, Copy, Debug, PartialEq, Eq)]
pub struct AdminChallenge;

impl AdminChallenge {
    /// Packet header.
    pub fn header() -> (r: [u8; 14])
        ensures
            r@ == admin_challenge_header(),
    {
        let r = [97u8, 100, 109, 105, 110, 99, 104, 97, 108, 108, 101, 110, 103, 101];
        assert(r@ =~= admin_challenge_header());
        r
    }

    /// Decode packet from `src`: the packet is the header alone.
    pub fn decode(src: &[u8]) -> (r: Result<Self, Error>)
        ensures
            r is Ok <==> src@ == admin_challenge_header(),
            r matches Err(e) ==> e == Error::Cursor(CursorError::Expect),
    {
        let h = Self::header();
        let n = src.len();
        if n == 14 && starts_with(src, &h) {
            assert(src@ =~= src@.subrange(0, 14));
            Ok(AdminChallenge)
        } else {
            proof {
                if src@ == admin_challenge_header() {
                    assert(src@.subrange(0, 14) =~= src@);
                }
            }
            Err(Error::Cursor(CursorError::Expect))
        }
    }

    /// Encode packet to `buf`.
    pub fn encode<'b>(&self, buf: &'b mut [u8]) -> (r: Result<&'b [u8], Error>)
        ensures
            r is Ok <==> admin_challenge_header().len() <= old(buf)@.len(),
            r matches Ok(out) ==> out@ == admin_challenge_header(),
            r matches Err(e) ==> e == end_error(),
            final(buf)@.len() == old(buf)@.len(),
            r is Ok ==> final(buf)@ == admin_challenge_header() + old(buf)@.skip(14),
            r is Err ==> final(buf)@ == old(buf)@,
    {
        let h = Self::header();
        let n = put_bytes(buf, 0, &h)?;
        let b: &'b [u8] = buf;
        Ok(written(b, n))
    }
}

/// The view of an admin command: challenge number, hash bytes and command bytes.
pub struct AdminCommandView {
    pub master_challenge: u32,
    pub hash: Seq<u8>,
    pub command: Seq<u8>,
}

/// Admin command.
#[derive(Clone, Copy, Debug, PartialEq, Eq)]
pub struct AdminCommand<'a> {
    /// A number received in admin challenge response.
    pub master_challenge: u32,
    /// A password hash mixed with a challenge number received in admin challenge response.
    pub hash: &'a [u8],
    /// A command to execute on a master server.
    pub command: &'a str,
}

impl<'a> View for AdminCommand<'a> {
    type V = AdminCommandView;

    open spec fn view(&self) -> AdminCommandView {
        AdminCommandView {
            master_challenge: self.master_challenge,
            hash: self.hash@,
            command: self.command.spec_bytes(),
        }
    }
}

/// The bytes of an admin command.
pub open spec fn spec_encode_admin_command(v: AdminCommandView) -> Seq<u8> {
    admin_command_header() + u32_le_bytes(v.master_challenge) + v.hash + v.command
}

/// What decoding `s` as an admin command with a hash of `hash_len` bytes gives.
pub open spec fn spec_decode_admin_command(hash_len: nat, s: Seq<u8>) -> Result<
    AdminCommandView,
    Error,
> {
    let h: int = admin_command_header().len() as int;
    if !seq_starts_with(s, admin_command_header()) {
        Err(Error::Cursor(CursorError::Expect))
    } else if s.len() < h + 4 + hash_len {
        Err(end_error())
    } else if !valid_utf8(s.skip(h + 4 + hash_len)) {
        Err(Error::Cursor(CursorError::InvalidString))
    } else {
        Ok(
            AdminCommandView {
                master_challenge: seq_le_u32(s.skip(h as int)),
                hash: s.subrange(h + 4, h + 4 + hash_len),
                command: s.skip(h + 4 + hash_len),
            },
        )
    }
}

impl<'a> AdminCommand<'a> {
    /// Packet header.
    pub fn header() -> (r: [u8; 5])
        ensures
            r@ == admin_command_header(),
    {
        let r = [97u8, 100, 109, 105, 110];
        assert(r@ =~= admin_command_header());
        r
    }

    /// Creates a new `AdminCommand`.
    pub fn new(master_challenge: u32, hash: &'a [u8], command: &'a str) -> (r: Self)
        ensures
            r.master_challenge == master_challenge,
            r.hash == hash,
            r.command == command,
    {
        AdminCommand { master_challenge, hash, command }
    }

    /// Decode packet from `src` with specified hash length.
    pub fn decode_with_hash_len(hash_len: usize, src: &'a [u8]) -> (r: Result<Self, Error>)
        ensures
            result_view(r) == spec_decode_admin_command(hash_len as nat, src@),
    {
        let mut cur = Cursor::new(src);
        let h = Self::header();
        cur.expect(&h)?;
        let master_challenge = cur.get_u32_le()?;
        let hash = cur.get_bytes(hash_len)?;
        let n = cur.remaining();
        proof {
            assert(src@.skip(5).skip(4) =~= src@.skip(9));
            assert(src@.skip(9).take(hash_len as int) =~= src@.subrange(9, 9 + hash_len as int));
            assert(src@.skip(9).skip(hash_len as int) =~= src@.skip(9 + hash_len as int));
            assert(src@.skip(9 + hash_len as int).take(n as int) =~= src@.skip(9 + hash_len as int));
        }
        let command = cur.get_str(n)?;
        cur.expect_empty()?;
        let r = AdminCommand { master_challenge, hash, command };
        assert(r@ =~= spec_decode_admin_command(hash_len as nat, src@).unwrap());
        Ok(r)
    }

    /// Decode packet from `src` with the default hash length.
    pub fn decode(src: &'a [u8]) -> (r: Result<Self, Error>)
        ensures
            result_view(r) == spec_decode_admin_command(HASH_LEN as nat, src@),
    {
        Self::decode_with_hash_len(HASH_LEN, src)
    }

    /// Encode packet to `buf`.
    pub fn encode<'b>(&self, buf: &'b mut [u8]) -> (r: Result<&'b [u8], Error>)
        ensures
            r is Ok <==> spec_encode_admin_command(self@).len() <= old(buf)@.len(),
            r matches Ok(out) ==> out@ == spec_encode_admin_command(self@),
            r matches Err(e) ==> e == end_error(),
    {
        let h = Self::header();
        let ghost b0 = buf@;
        let p1 = put_bytes(buf, 0, &h)?;
        let ghost b1 = buf@;
        let p2 = put_u32_le(buf, p1, self.master_challenge)?;
        let ghost b2 = buf@;
        let p3 = put_bytes(buf, p2, self.hash)?;
        let ghost b3 = buf@;
        let cmd = self.command.as_bytes();
        let p4 = put_bytes(buf, p3, cmd)?;
        let b: &'b [u8] = buf;
        proof {
            assert(b0.take(0) =~= Seq::<u8>::empty());
            assert(b@.take(p4 as int) =~= spec_encode_admin_command(self@));
        }
        Ok(written(b, p4))
    }
}

/// The view of an admin packet.
pub enum AdminPacketView {
    AdminChallenge,
    AdminCommand(AdminCommandView),
}

/// Admin packet.
#[derive(Clone, Copy, Debug, PartialEq, Eq)]
pub enum AdminPacket<'a> {
    /// Admin challenge request.
    AdminChallenge,
    /// Admin command.
    AdminCommand(AdminCommand<'a>),
}

impl<'a> View for AdminPacket<'a> {
    type V = AdminPacketView;

    open spec fn view(&self) -> AdminPacketView {
        match self {
            AdminPacket::AdminChallenge => AdminPacketView::AdminChallenge,
            AdminPacket::AdminCommand(c) => AdminPacketView::AdminCommand(c@),
        }
    }
}

/// What decoding `s` as an admin packet gives: `None` when it is no admin packet.
pub open spec fn spec_decode_admin_packet(hash_len: nat, s: Seq<u8>) -> Result<
    Option<AdminPacketView>,
    Error,
> {
    if seq_starts_with(s, admin_challenge_header()) {
        if s == admin_challenge_header() {
            Ok(Some(AdminPacketView::AdminChallenge))
        } else {
            Err(Error::Cursor(CursorError::Expect))
        }
    } else if seq_starts_with(s, admin_command_header()) {
        match spec_decode_admin_command(hash_len, s) {
            Ok(c) => Ok(Some(AdminPacketView::AdminCommand(c))),
            Err(e) => Err(e),
        }
    } else {
        Ok(None)
    }
}

impl<'a> AdminPacket<'a> {
    /// Decode packet from `src` with specified hash length.
    pub fn decode(hash_len: usize, src: &'a [u8]) -> (r: Result<Option<Self>, Error>)
        ensures
            option_result_view(r) == spec_decode_admin_packet(hash_len as nat, src@),
    {
        if starts_with(src, &AdminChallenge::header()) {
            match AdminChallenge::decode(src) {
                Ok(_) => Ok(Some(AdminPacket::AdminChallenge)),
                Err(e) => Err(e),
            }
        } else if starts_with(src, &AdminCommand::header()) {
            match AdminCommand::decode_with_hash_len(hash_len, src) {
                Ok(c) => Ok(Some(AdminPacket::AdminCommand(c))),
                Err(e) => Err(e),
            }
        } else {
            Ok(None)
        }
    }
}

/// An admin command decodes to itself: decoding its bytes with the length of its hash gives
/// back the same challenge number, hash and command.
pub proof fn lemma_admin_command_roundtrip(hash_len: nat, v: AdminCommandView)
    requires
        v.hash.len() == hash_len,
        valid_utf8(v.command),
    ensures
        spec_decode_admin_command(hash_len, spec_encode_admin_command(v)) == Ok::<
            AdminCommandView,
            Error,
        >(v),
{
    let s = spec_encode_admin_command(v);
    crate::cursor::lemma_u32_le_roundtrip(v.master_challenge);
    assert(s.subrange(0, 5) =~= admin_command_header());
    assert(s.skip(5).take(4) =~= u32_le_bytes(v.master_challenge));
    assert(s.subrange(9, 9 + hash_len as int) =~= v.hash);
    assert(s.skip(9 + hash_len as int) =~= v.command);
    let d = spec_decode_admin_command(hash_len, s).unwrap();
    assert(d.hash =~= v.hash);
    assert(d.command =~= v.command);
}

/// Decoding is exact: the bytes of a decoded admin command are the bytes it came from.
pub proof fn lemma_admin_command_canonical(hash_len: nat, s: Seq<u8>)
    requires
        spec_decode_admin_command(hash_len, s) is Ok,
    ensures
        spec_encode_admin_command(spec_decode_admin_command(hash_len, s).unwrap()) == s,
{
    let v = spec_decode_admin_command(hash_len, s).unwrap();
    crate::cursor::lemma_u32_le_canonical(s.skip(5).take(4));
    assert(s.skip(5).take(4) =~= s.subrange(5, 9));
    assert(s =~= s.subrange(0, 5) + s.subrange(5, 9) + s.subrange(9, 9 + hash_len as int) + s.skip(
        9 + hash_len as int,
    ));
    assert(spec_encode_admin_command(v) =~= s);
}

/// The admin challenge request is recognised as such.
pub proof fn lemma_admin_challenge_packet(hash_len: nat)
    ensures
        spec_decode_admin_packet(hash_len, admin_challenge_header()) == Ok::<
            Option<AdminPacketView>,
            Error,
        >(Some(AdminPacketView::AdminChallenge)),
{
    assert(admin_challenge_header().subrange(0, 14) =~= admin_challenge_header());
}

/// An admin command is recognised as such, unless its bytes begin with the admin
/// challenge header (which happens only for one challenge number and hash prefix).
pub proof fn lemma_admin_command_packet(hash_len: nat, v: AdminCommandView)
    requires
        v.hash.len() == hash_len,
        valid_utf8(v.command),
        !seq_starts_with(spec_encode_admin_command(v), admin_challenge_header()),
    ensures
        spec_decode_admin_packet(hash_len, spec_encode_admin_command(v)) == Ok::<
            Option<AdminPacketView>,
            Error,
        >(Some(AdminPacketView::AdminCommand(v))),
{
    lemma_admin_command_roundtrip(hash_len, v);
    assert(spec_encode_admin_command(v).subrange(0, 5) =~= admin_command_header());
}

} // verus!
