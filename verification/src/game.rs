//! Game client packets: the requests that a game client sends to master and game servers.

use vstd::prelude::*;
use vstd::string::StringSliceAdditionalSpecFns;
use vstd::utf8::valid_utf8;

use crate::addr_text::{parse_socket_addr, parse_socket_addr_exec, push_socket_addr, socket_addr_text};
use crate::cursor::{first_nul, put_bytes, put_u32_le, put_u8, seq_le_u32, seq_starts_with, starts_with, u32_le_bytes, written, Cursor};
use crate::error::{end_error, option_result_view, result_view, CursorError, Error};
use crate::net::SocketAddr;
use crate::text::{dec, parse_dec_u8, parse_u8, push_dec, str_from_utf8};

verus! {

/// The region of a game server.
#[derive(Clone, Copy, Debug, PartialEq, Eq, Hash, Structural)]
pub enum Region {
    USEastCoast,
    USWestCoast,
    SouthAmerica,
    Europe,
    Asia,
    Australia,
    MiddleEast,
    Africa,
    RestOfTheWorld,
}

/// The byte that stands for a region.
pub open spec fn region_byte(r: Region) -> u8 {
    match r {
        Region::USEastCoast => 0x00,
        Region::USWestCoast => 0x01,
        Region::SouthAmerica => 0x02,
        Region::Europe => 0x03,
        Region::Asia => 0x04,
        Region::Australia => 0x05,
        Region::MiddleEast => 0x06,
        Region::Africa => 0x07,
        Region::RestOfTheWorld => 0xff,
    }
}

/// The region a byte stands for.
pub open spec fn region_from_byte(b: u8) -> Option<Region> {
    if b == 0x00 {
        Some(Region::USEastCoast)
    } else if b == 0x01 {
        Some(Region::USWestCoast)
    } else if b == 0x02 {
        Some(Region::SouthAmerica)
    } else if b == 0x03 {
        Some(Region::Europe)
    } else if b == 0x04 {
        Some(Region::Asia)
    } else if b == 0x05 {
        Some(Region::Australia)
    } else if b == 0x06 {
        Some(Region::MiddleEast)
    } else if b == 0x07 {
        Some(Region::Africa)
    } else if b == 0xff {
        Some(Region::RestOfTheWorld)
    } else {
        None
    }
}

impl Region {
    /// The byte that stands for this region.
    pub fn to_u8(&self) -> (r: u8)
        ensures
            r == region_byte(*self),
    {
        match self {
            Region::USEastCoast => 0x00,
            Region::USWestCoast => 0x01,
            Region::SouthAmerica => 0x02,
            Region::Europe => 0x03,
            Region::Asia => 0x04,
            Region::Australia => 0x05,
            Region::MiddleEast => 0x06,
            Region::Africa => 0x07,
            Region::RestOfTheWorld => 0xff,
        }
    }

    /// The region a byte stands for, if any.
    pub fn from_u8(b: u8) -> (r: Option<Region>)
        ensures
            r == region_from_byte(b),
    {
        if b == 0x00 {
            Some(Region::USEastCoast)
        } else if b == 0x01 {
            Some(Region::USWestCoast)
        } else if b == 0x02 {
            Some(Region::SouthAmerica)
        } else if b == 0x03 {
            Some(Region::Europe)
        } else if b == 0x04 {
            Some(Region::Asia)
        } else if b == 0x05 {
            Some(Region::Australia)
        } else if b == 0x06 {
            Some(Region::MiddleEast)
        } else if b == 0x07 {
            Some(Region::Africa)
        } else if b == 0xff {
            Some(Region::RestOfTheWorld)
        } else {
            None
        }
    }
}

/// Every region reads back from its byte.
pub proof fn lemma_region_roundtrip(r: Region)
    ensures
        region_from_byte(region_byte(r)) == Some(r),
{
}

/// `1`
pub open spec fn query_servers_header() -> Seq<u8> {
    seq![49u8]
}

/// `\xff\xff\xff\xffinfo `
pub open spec fn get_server_info_header() -> Seq<u8> {
    seq![255u8, 255u8, 255u8, 255u8, 105u8, 110u8, 102u8, 111u8, 32u8]
}

/// `\xff\xff\xff\xffU\xff\xff\xff\xff`
pub open spec fn get_challenge_header() -> Seq<u8> {
    seq![255u8, 255u8, 255u8, 255u8, 85u8, 255u8, 255u8, 255u8, 255u8]
}

/// `\xff\xff\xff\xffTSource Engine Query\0`
pub open spec fn get_server_info2_header() -> Seq<u8> {
    seq![
        255u8, 255u8, 255u8, 255u8, 84u8, 83u8, 111u8, 117u8, 114u8, 99u8, 101u8, 32u8, 69u8,
        110u8, 103u8, 105u8, 110u8, 101u8, 32u8, 81u8, 117u8, 101u8, 114u8, 121u8, 0u8,
    ]
}

/// `\xff\xff\xff\xffU`
pub open spec fn get_players_header() -> Seq<u8> {
    seq![255u8, 255u8, 255u8, 255u8, 85u8]
}

/// The view of a server list request.
pub struct QueryServersView {
    pub region: Region,
    pub last: SocketAddr,
    pub filter: Seq<u8>,
}

/// Request a list of server addresses from master servers.
#[derive(Clone, Copy, Debug, PartialEq, Eq)]
pub struct QueryServers<'a> {
    /// Servers must be from the `region`.
    pub region: Region,
    /// Last received server address __(not used)__.
    pub last: SocketAddr,
    /// Select only servers that match the `filter`: its text, as `\key\value` pairs.
    pub filter: &'a [u8],
}

impl<'a> View for QueryServers<'a> {
    type V = QueryServersView;

    open spec fn view(&self) -> QueryServersView {
        QueryServersView { region: self.region, last: self.last, filter: self.filter@ }
    }
}

/// The filter without one zero byte at its end: some clients send it so.
pub open spec fn trim_filter(f: Seq<u8>) -> Seq<u8> {
    if f.len() > 0 && f.last() == 0 {
        f.drop_last()
    } else {
        f
    }
}

/// The bytes of a server list request.
pub open spec fn spec_encode_query_servers(q: QueryServersView) -> Seq<u8> {
    query_servers_header() + seq![region_byte(q.region)] + socket_addr_text(q.last) + seq![0u8]
        + q.filter + seq![0u8]
}

/// What decoding `s` as a server list request gives.
pub open spec fn spec_decode_query_servers(s: Seq<u8>) -> Result<QueryServersView, Error> {
    if !seq_starts_with(s, query_servers_header()) {
        Err(Error::Cursor(CursorError::Expect))
    } else if s.len() < 2 {
        Err(end_error())
    } else {
        match region_from_byte(s[1]) {
            None => Err(Error::InvalidRegion),
            Some(region) => {
                let r = s.skip(2);
                match first_nul(r) {
                    None => Err(end_error()),
                    Some(i) => if !valid_utf8(r.take(i)) {
                        Err(Error::Cursor(CursorError::InvalidString))
                    } else {
                        match parse_socket_addr(r.take(i)) {
                            None => Err(Error::InvalidQueryServersLast),
                            Some(last) => Ok(
                                QueryServersView {
                                    region,
                                    last,
                                    filter: trim_filter(r.skip(i + 1)),
                                },
                            ),
                        }
                    },
                }
            },
        }
    }
}

impl<'a> QueryServers<'a> {
    /// Packet header.
    pub fn header() -> (r: [u8; 1])
        ensures
            r@ == query_servers_header(),
    {
        let r = [49u8];
        assert(r@ =~= query_servers_header());
        r
    }

    /// Decode packet from `src`.
    pub fn decode(src: &'a [u8]) -> (r: Result<Self, Error>)
        ensures
            result_view(r) == spec_decode_query_servers(src@),
    {
        let mut cur = Cursor::new(src);
        cur.expect(&Self::header())?;
        let b = cur.get_u8()?;
        let region = match Region::from_u8(b) {
            Some(r) => r,
            None => return Err(Error::InvalidRegion),
        };
        assert(src@.skip(1).skip(1) =~= src@.skip(2));
        let last = cur.get_cstr_as_str()?;
        let rest = cur.end();
        let n = rest.len();
        let filter = if n > 0 && rest[n - 1] == 0 {
            let f = &rest[0..n - 1];
            assert(f@ =~= rest@.drop_last());
            f
        } else {
            rest
        };
        let ghost i = last.spec_bytes().len() as int;
        proof {
            crate::cursor::lemma_first_nul(src@.skip(2), i);
            vstd::utf8::encode_utf8_valid_utf8(last@);
        }
        let last_bytes = last.as_bytes();
        let last = match parse_socket_addr_exec(last_bytes) {
            Some(a) => a,
            None => return Err(Error::InvalidQueryServersLast),
        };
        let r = QueryServers { region, last, filter };
        assert(r@ =~= spec_decode_query_servers(src@).unwrap());
        Ok(r)
    }

    /// Encode packet to `buf`.
    pub fn encode<'b>(&self, buf: &'b mut [u8]) -> (r: Result<&'b [u8], Error>)
        ensures
            r is Ok <==> spec_encode_query_servers(self@).len() <= old(buf)@.len(),
            r matches Ok(out) ==> out@ == spec_encode_query_servers(self@),
            r matches Err(e) ==> e == end_error(),
    {
        let mut text: Vec<u8> = Vec::new();
        push_socket_addr(&mut text, &self.last);
        assert(text@ =~= socket_addr_text(self.last));
        let ghost b0 = buf@;
        let p1 = put_bytes(buf, 0, &Self::header())?;
        let p2 = put_u8(buf, p1, self.region.to_u8())?;
        let p3 = put_bytes(buf, p2, text.as_slice())?;
        let p4 = put_u8(buf, p3, 0)?;
        let p5 = put_bytes(buf, p4, self.filter)?;
        let p6 = put_u8(buf, p5, 0)?;
        let b: &'b [u8] = buf;
        proof {
            assert(b0.take(0) =~= Seq::<u8>::empty());
            assert(b@.take(p6 as int) =~= spec_encode_query_servers(self@));
        }
        Ok(written(b, p6))
    }
}

/// Request an information from a game server.
#[derive(Clone, Copy, Debug, PartialEq, Eq, Structural)]
pub struct GetServerInfo {
    /// Client protocol version.
    pub protocol: u8,
}

/// The bytes of a server information request.
pub open spec fn spec_encode_get_server_info(protocol: u8) -> Seq<u8> {
    get_server_info_header() + dec(protocol as nat)
}

/// What decoding `s` as a server information request gives: the protocol version is
/// the rest of the packet as text, parsed as a `u8`.
pub open spec fn spec_decode_get_server_info(s: Seq<u8>) -> Result<GetServerInfo, Error> {
    if !seq_starts_with(s, get_server_info_header()) {
        Err(Error::Cursor(CursorError::Expect))
    } else if !valid_utf8(s.skip(9)) {
        Err(Error::Cursor(CursorError::InvalidString))
    } else {
        match parse_dec_u8(s.skip(9)) {
            None => Err(Error::InvalidPacket),
            Some(protocol) => Ok(GetServerInfo { protocol }),
        }
    }
}

impl GetServerInfo {
    /// Packet header.
    pub fn header() -> (r: [u8; 9])
        ensures
            r@ == get_server_info_header(),
    {
        let r = [255u8, 255, 255, 255, 105, 110, 102, 111, 32];
        assert(r@ =~= get_server_info_header());
        r
    }

    /// Creates a new `GetServerInfo`.
    pub fn new(protocol: u8) -> (r: Self)
        ensures
            r.protocol == protocol,
    {
        GetServerInfo { protocol }
    }

    /// Decode packet from `src`.
    pub fn decode(src: &[u8]) -> (r: Result<Self, Error>)
        ensures
            r == spec_decode_get_server_info(src@),
    {
        let mut cur = Cursor::new(src);
        cur.expect(&Self::header())?;
        let n = cur.remaining();
        let save = cur;
        assert(src@.skip(9).take(n as int) =~= src@.skip(9));
        let _text = cur.get_str(n)?;
        let mut cur2 = save;
        let bytes = cur2.end();
        match parse_u8(bytes) {
            Some(protocol) => Ok(GetServerInfo { protocol }),
            None => Err(Error::InvalidPacket),
        }
    }

    /// Encode packet to `buf`.
    pub fn encode<'b>(&self, buf: &'b mut [u8]) -> (r: Result<&'b [u8], Error>)
        ensures
            r is Ok <==> spec_encode_get_server_info(self.protocol).len() <= old(buf)@.len(),
            r matches Ok(out) ==> out@ == spec_encode_get_server_info(self.protocol),
            r matches Err(e) ==> e == end_error(),
    {
        let mut text: Vec<u8> = Vec::new();
        push_dec(&mut text, self.protocol as u32);
        assert(text@ =~= dec(self.protocol as nat));
        let ghost b0 = buf@;
        let p1 = put_bytes(buf, 0, &Self::header())?;
        let p2 = put_bytes(buf, p1, text.as_slice())?;
        let b: &'b [u8] = buf;
        proof {
            assert(b0.take(0) =~= Seq::<u8>::empty());
            assert(b@.take(p2 as int) =~= spec_encode_get_server_info(self.protocol));
        }
        Ok(written(b, p2))
    }
}

/// Request a challenge number from a game server.
///
/// `GetChallenge` overlaps with [GetPlayers]: decode it before [GetPlayers].
#[derive(Clone, Copy, Debug, PartialEq, Eq, Structural)]
pub struct GetChallenge;

/// What decoding `s` as a challenge request gives: the packet is the header alone.
pub open spec fn spec_decode_get_challenge(s: Seq<u8>) -> Result<GetChallenge, Error> {
    if !seq_starts_with(s, get_challenge_header()) {
        Err(Error::Cursor(CursorError::Expect))
    } else if s.len() > 9 {
        Err(Error::Cursor(CursorError::ExpectEmpty))
    } else {
        Ok(GetChallenge)
    }
}

impl GetChallenge {
    /// Packet header.
    pub fn header() -> (r: [u8; 9])
        ensures
            r@ == get_challenge_header(),
    {
        let r = [255u8, 255, 255, 255, 85, 255, 255, 255, 255];
        assert(r@ =~= get_challenge_header());
        r
    }

    /// Creates a new `GetChallenge`.
    pub fn new() -> (r: Self)
        ensures
            r == GetChallenge,
    {
        GetChallenge
    }

    /// Decode packet from `src`.
    pub fn decode(src: &[u8]) -> (r: Result<Self, Error>)
        ensures
            r == spec_decode_get_challenge(src@),
    {
        let mut cur = Cursor::new(src);
        cur.expect(&Self::header())?;
        cur.expect_empty()?;
        Ok(GetChallenge)
    }

    /// Encode packet to `buf`.
    pub fn encode<'b>(&self, buf: &'b mut [u8]) -> (r: Result<&'b [u8], Error>)
        ensures
            r is Ok <==> 9 <= old(buf)@.len(),
            r matches Ok(out) ==> out@ == get_challenge_header(),
            r matches Err(e) ==> e == end_error(),
    {
        let ghost b0 = buf@;
        let p1 = put_bytes(buf, 0, &Self::header())?;
        let b: &'b [u8] = buf;
        assert(b@.take(p1 as int) =~= get_challenge_header());
        Ok(written(b, p1))
    }
}

/// Request an information from a game server, optionally with a challenge number.
#[derive(Clone, Copy, Debug, PartialEq, Eq, Structural)]
pub struct GetServerInfo2 {
    /// A challenge number from a challenge response.
    pub challenge: Option<u32>,
}

/// The bytes of a server information request of the second kind.
pub open spec fn spec_encode_get_server_info2(challenge: Option<u32>) -> Seq<u8> {
    match challenge {
        Some(c) => get_server_info2_header() + u32_le_bytes(c),
        None => get_server_info2_header(),
    }
}

/// What decoding `s` as a server information request of the second kind gives: the
/// header, then nothing or a little-endian challenge number.
pub open spec fn spec_decode_get_server_info2(s: Seq<u8>) -> Result<GetServerInfo2, Error> {
    if !seq_starts_with(s, get_server_info2_header()) {
        Err(Error::Cursor(CursorError::Expect))
    } else if s.len() == 25 {
        Ok(GetServerInfo2 { challenge: None })
    } else if s.len() < 29 {
        Err(end_error())
    } else if s.len() > 29 {
        Err(Error::Cursor(CursorError::ExpectEmpty))
    } else {
        Ok(GetServerInfo2 { challenge: Some(seq_le_u32(s.skip(25))) })
    }
}

impl GetServerInfo2 {
    /// Packet header.
    pub fn header() -> (r: [u8; 25])
        ensures
            r@ == get_server_info2_header(),
    {
        let r = [
            255u8, 255, 255, 255, 84, 83, 111, 117, 114, 99, 101, 32, 69, 110, 103, 105, 110, 101,
            32, 81, 117, 101, 114, 121, 0,
        ];
        assert(r@ =~= get_server_info2_header());
        r
    }

    /// Creates a new `GetServerInfo2` without a challenge number.
    pub fn new() -> (r: Self)
        ensures
            r.challenge is None,
    {
        GetServerInfo2 { challenge: None }
    }

    /// Creates a new `GetServerInfo2` with a challenge number.
    pub fn with_challenge(challenge: u32) -> (r: Self)
        ensures
            r.challenge == Some(challenge),
    {
        GetServerInfo2 { challenge: Some(challenge) }
    }

    /// Decode packet from `src`.
    pub fn decode(src: &[u8]) -> (r: Result<Self, Error>)
        ensures
            r == spec_decode_get_server_info2(src@),
    {
        let mut cur = Cursor::new(src);
        cur.expect(&Self::header())?;
        let mut challenge = None;
        if cur.has_remaining() {
            challenge = Some(cur.get_u32_le()?);
        }
        cur.expect_empty()?;
        Ok(GetServerInfo2 { challenge })
    }

    /// Encode packet to `buf`.
    pub fn encode<'b>(&self, buf: &'b mut [u8]) -> (r: Result<&'b [u8], Error>)
        ensures
            r is Ok <==> spec_encode_get_server_info2(self.challenge).len() <= old(buf)@.len(),
            r matches Ok(out) ==> out@ == spec_encode_get_server_info2(self.challenge),
            r matches Err(e) ==> e == end_error(),
    {
        let ghost b0 = buf@;
        let mut p = put_bytes(buf, 0, &Self::header())?;
        if let Some(c) = self.challenge {
            p = put_u32_le(buf, p, c)?;
        }
        let b: &'b [u8] = buf;
        assert(b@.take(p as int) =~= spec_encode_get_server_info2(self.challenge));
        Ok(written(b, p))
    }
}

/// Request player list from a game server.
///
/// [GetChallenge] uses the same header with a challenge number equal to `u32::MAX`.
#[derive(Clone, Copy, Debug, PartialEq, Eq, Structural)]
pub struct GetPlayers {
    challenge: u32,
}

impl View for GetPlayers {
    type V = u32;

    closed spec fn view(&self) -> u32 {
        self.challenge
    }
}

/// The bytes of a player list request.
pub open spec fn spec_encode_get_players(challenge: u32) -> Seq<u8> {
    get_players_header() + u32_le_bytes(challenge)
}

/// What decoding `s` as a player list request gives: the challenge number, which must
/// not be `u32::MAX`.
pub open spec fn spec_decode_get_players(s: Seq<u8>) -> Result<u32, Error> {
    if !seq_starts_with(s, get_players_header()) {
        Err(Error::Cursor(CursorError::Expect))
    } else if s.len() < 9 {
        Err(end_error())
    } else if seq_le_u32(s.skip(5)) == u32::MAX {
        Err(Error::InvalidPacket)
    } else if s.len() > 9 {
        Err(Error::Cursor(CursorError::ExpectEmpty))
    } else {
        Ok(seq_le_u32(s.skip(5)))
    }
}

impl GetPlayers {
    /// Packet header.
    pub fn header() -> (r: [u8; 5])
        ensures
            r@ == get_players_header(),
    {
        let r = [255u8, 255, 255, 255, 85];
        assert(r@ =~= get_players_header());
        r
    }

    /// Creates a new `GetPlayers`; `None` if the challenge number is `u32::MAX`.
    pub fn new(challenge: u32) -> (r: Option<Self>)
        ensures
            challenge != u32::MAX <==> r is Some,
            r matches Some(p) ==> p@ == challenge,
    {
        if challenge != u32::MAX {
            Some(GetPlayers { challenge })
        } else {
            None
        }
    }

    /// A challenge number.
    pub fn challenge(&self) -> (r: u32)
        ensures
            r == self@,
    {
        self.challenge
    }

    /// Decode packet from `src`.
    pub fn decode(src: &[u8]) -> (r: Result<Self, Error>)
        ensures
            result_view(r) == spec_decode_get_players(src@),
    {
        let mut cur = Cursor::new(src);
        cur.expect(&Self::header())?;
        let challenge = cur.get_u32_le()?;
        if challenge == u32::MAX {
            return Err(Error::InvalidPacket);
        }
        cur.expect_empty()?;
        Ok(GetPlayers { challenge })
    }

    /// Encode packet to `buf`.
    pub fn encode<'b>(&self, buf: &'b mut [u8]) -> (r: Result<&'b [u8], Error>)
        ensures
            r is Ok <==> 9 <= old(buf)@.len(),
            r matches Ok(out) ==> out@ == spec_encode_get_players(self@),
            r matches Err(e) ==> e == end_error(),
    {
        let ghost b0 = buf@;
        let p1 = put_bytes(buf, 0, &Self::header())?;
        let p2 = put_u32_le(buf, p1, self.challenge)?;
        let b: &'b [u8] = buf;
        assert(b@.take(p2 as int) =~= spec_encode_get_players(self@));
        Ok(written(b, p2))
    }
}

/// The view of a game client packet.
pub enum GamePacketView {
    QueryServers(QueryServersView),
    GetChallenge,
    GetServerInfo(GetServerInfo),
    GetServerInfo2(GetServerInfo2),
    GetPlayers(u32),
}

/// Game client packets.
#[derive(Clone, Copy, Debug, PartialEq, Eq)]
pub enum GamePacket<'a> {
    /// Request a list of server addresses from master servers.
    QueryServers(QueryServers<'a>),
    /// Request a challenge number from a game server.
    GetChallenge(GetChallenge),
    /// Request an information from a game server.
    GetServerInfo(GetServerInfo),
    /// Request an information from a game server.
    GetServerInfo2(GetServerInfo2),
    /// Request player list from a game server.
    GetPlayers(GetPlayers),
}

impl<'a> View for GamePacket<'a> {
    type V = GamePacketView;

    open spec fn view(&self) -> GamePacketView {
        match self {
            GamePacket::QueryServers(p) => GamePacketView::QueryServers(p@),
            GamePacket::GetChallenge(_) => GamePacketView::GetChallenge,
            GamePacket::GetServerInfo(p) => GamePacketView::GetServerInfo(*p),
            GamePacket::GetServerInfo2(p) => GamePacketView::GetServerInfo2(*p),
            GamePacket::GetPlayers(p) => GamePacketView::GetPlayers(p@),
        }
    }
}

/// What decoding `s` as a game client packet gives: the header picks the packet, the
/// challenge request before the player list request; `None` when no header matches.
pub open spec fn spec_decode_game_packet(s: Seq<u8>) -> Result<Option<GamePacketView>, Error> {
    if seq_starts_with(s, query_servers_header()) {
        match spec_decode_query_servers(s) {
            Ok(p) => Ok(Some(GamePacketView::QueryServers(p))),
            Err(e) => Err(e),
        }
    } else if seq_starts_with(s, get_challenge_header()) {
        match spec_decode_get_challenge(s) {
            Ok(_) => Ok(Some(GamePacketView::GetChallenge)),
            Err(e) => Err(e),
        }
    } else if seq_starts_with(s, get_server_info_header()) {
        match spec_decode_get_server_info(s) {
            Ok(p) => Ok(Some(GamePacketView::GetServerInfo(p))),
            Err(e) => Err(e),
        }
    } else if seq_starts_with(s, get_server_info2_header()) {
        match spec_decode_get_server_info2(s) {
            Ok(p) => Ok(Some(GamePacketView::GetServerInfo2(p))),
            Err(e) => Err(e),
        }
    } else if seq_starts_with(s, get_players_header()) {
        match spec_decode_get_players(s) {
            Ok(c) => Ok(Some(GamePacketView::GetPlayers(c))),
            Err(e) => Err(e),
        }
    } else {
        Ok(None)
    }
}

impl<'a> GamePacket<'a> {
    /// Decode packet from `src`.
    pub fn decode(src: &'a [u8]) -> (r: Result<Option<Self>, Error>)
        ensures
            option_result_view(r) == spec_decode_game_packet(src@),
    {
        if starts_with(src, &QueryServers::header()) {
            match QueryServers::decode(src) {
                Ok(p) => Ok(Some(GamePacket::QueryServers(p))),
                Err(e) => Err(e),
            }
        } else if starts_with(src, &GetChallenge::header()) {
            match GetChallenge::decode(src) {
                Ok(p) => Ok(Some(GamePacket::GetChallenge(p))),
                Err(e) => Err(e),
            }
        } else if starts_with(src, &GetServerInfo::header()) {
            match GetServerInfo::decode(src) {
                Ok(p) => Ok(Some(GamePacket::GetServerInfo(p))),
                Err(e) => Err(e),
            }
        } else if starts_with(src, &GetServerInfo2::header()) {
            match GetServerInfo2::decode(src) {
                Ok(p) => Ok(Some(GamePacket::GetServerInfo2(p))),
                Err(e) => Err(e),
            }
        } else if starts_with(src, &GetPlayers::header()) {
            match GetPlayers::decode(src) {
                Ok(p) => Ok(Some(GamePacket::GetPlayers(p))),
                Err(e) => Err(e),
            }
        } else {
            Ok(None)
        }
    }
}

/// A server information request decodes to itself, as a packet too.
pub proof fn lemma_get_server_info_roundtrip(p: GetServerInfo)
    ensures
        spec_decode_get_server_info(spec_encode_get_server_info(p.protocol)) == Ok::<
            GetServerInfo,
            Error,
        >(p),
        spec_decode_game_packet(spec_encode_get_server_info(p.protocol)) == Ok::<
            Option<GamePacketView>,
            Error,
        >(Some(GamePacketView::GetServerInfo(p))),
{
    let s = spec_encode_get_server_info(p.protocol);
    assert(s.subrange(0, 9) =~= get_server_info_header());
    assert(s.skip(9) =~= dec(p.protocol as nat));
    crate::text::lemma_dec_valid_utf8(p.protocol as nat);
    crate::text::lemma_parse_dec_u8(p.protocol);
    assert(s[0] != 49);
    assert(s.subrange(0, 9) != get_challenge_header()) by {
        assert(s.subrange(0, 9)[4] != get_challenge_header()[4]);
    }
}

/// A challenge request decodes to itself, as a packet too.
pub proof fn lemma_get_challenge_roundtrip()
    ensures
        spec_decode_get_challenge(get_challenge_header()) == Ok::<GetChallenge, Error>(
            GetChallenge,
        ),
        spec_decode_game_packet(get_challenge_header()) == Ok::<Option<GamePacketView>, Error>(
            Some(GamePacketView::GetChallenge),
        ),
{
    assert(get_challenge_header().subrange(0, 9) =~= get_challenge_header());
}

/// A server information request of the second kind decodes to itself, as a packet too.
pub proof fn lemma_get_server_info2_roundtrip(p: GetServerInfo2)
    ensures
        spec_decode_get_server_info2(spec_encode_get_server_info2(p.challenge)) == Ok::<
            GetServerInfo2,
            Error,
        >(p),
        spec_decode_game_packet(spec_encode_get_server_info2(p.challenge)) == Ok::<
            Option<GamePacketView>,
            Error,
        >(Some(GamePacketView::GetServerInfo2(p))),
{
    let s = spec_encode_get_server_info2(p.challenge);
    assert(s.subrange(0, 25) =~= get_server_info2_header());
    if let Some(c) = p.challenge {
        assert(s.skip(25) =~= u32_le_bytes(c));
        crate::cursor::lemma_u32_le_roundtrip(c);
    }
    assert(s[0] != 49);
    assert(s.subrange(0, 9) != get_challenge_header()) by {
        assert(s.subrange(0, 9)[4] != get_challenge_header()[4]);
    }
    assert(s.subrange(0, 9) != get_server_info_header()) by {
        assert(s.subrange(0, 9)[4] != get_server_info_header()[4]);
    }
}

/// A player list request decodes to itself, as a packet too: its challenge number is not
/// `u32::MAX`, so it is not taken for a challenge request.
pub proof fn lemma_get_players_roundtrip(challenge: u32)
    requires
        challenge != u32::MAX,
    ensures
        spec_decode_get_players(spec_encode_get_players(challenge)) == Ok::<u32, Error>(
            challenge,
        ),
        spec_decode_game_packet(spec_encode_get_players(challenge)) == Ok::<
            Option<GamePacketView>,
            Error,
        >(Some(GamePacketView::GetPlayers(challenge))),
{
    let s = spec_encode_get_players(challenge);
    assert(s.subrange(0, 5) =~= get_players_header());
    assert(s.skip(5) =~= u32_le_bytes(challenge));
    crate::cursor::lemma_u32_le_roundtrip(challenge);
    assert(s[0] != 49);
    if seq_starts_with(s, get_challenge_header()) {
        assert(s.skip(5) =~= s.subrange(5, 9));
        assert(s.subrange(5, 9) =~= get_challenge_header().subrange(5, 9));
        assert(seq_le_u32(s.skip(5)) == u32::MAX) by {
            let b = s.skip(5);
            assert(b[0] == 255 && b[1] == 255 && b[2] == 255 && b[3] == 255);
            assert(crate::cursor::le_u32(255, 255, 255, 255) == u32::MAX) by (bit_vector);
        }
    }
    assert(s.subrange(0, 9) != get_server_info_header()) by {
        assert(s.subrange(0, 9)[4] != get_server_info_header()[4]);
    }
    assert(s.subrange(0, 25) != get_server_info2_header() || s.len() < 25);
}

/// A server list request decodes to itself, whatever its last address, except for the flow
/// information of an IPv6 one, which its text does not carry. (The filter's own zero byte at
/// its end is dropped only when one more is there, so any filter comes back whole.)
pub proof fn lemma_query_servers_roundtrip(q: QueryServersView)
    requires
        q.last is V6 ==> q.last->V6_0.flowinfo == 0,
    ensures
        spec_decode_query_servers(spec_encode_query_servers(q)) == Ok::<QueryServersView, Error>(
            q,
        ),
{
    let t = socket_addr_text(q.last);
    let s = spec_encode_query_servers(q);
    crate::v6_text::lemma_socket_addr_text_printable(q.last);
    crate::v6_text::lemma_socket_addr_text_roundtrip(q.last);
    assert(s.subrange(0, 1) =~= query_servers_header());
    lemma_region_roundtrip(q.region);
    let r = s.skip(2);
    assert(r =~= t + seq![0u8] + q.filter + seq![0u8]);
    assert(crate::cursor::is_first_nul(r, t.len() as int)) by {
        assert forall|j: int| 0 <= j < t.len() implies r[j] != 0 by {
            assert(r[j] == t[j]);
        }
    }
    crate::cursor::lemma_first_nul(r, t.len() as int);
    assert(r.take(t.len() as int) =~= t);
    assert(forall|i: int| 0 <= i < t.len() ==> #[trigger] t[i] < 128);
    crate::text::lemma_ascii_valid_utf8(t);
    assert(r.skip(t.len() + 1int) =~= q.filter + seq![0u8]);
    assert(trim_filter(q.filter + seq![0u8]) =~= q.filter);
    let d = spec_decode_query_servers(s).unwrap();
    assert(d.filter =~= q.filter);
}

/// A server list request (its last address without flow information) is recognised as such.
pub proof fn lemma_query_servers_packet(q: QueryServersView)
    requires
        q.last is V6 ==> q.last->V6_0.flowinfo == 0,
    ensures
        spec_decode_game_packet(spec_encode_query_servers(q)) == Ok::<
            Option<GamePacketView>,
            Error,
        >(Some(GamePacketView::QueryServers(q))),
{
    lemma_query_servers_roundtrip(q);
    assert(spec_encode_query_servers(q).subrange(0, 1) =~= query_servers_header());
}

} // verus!
