use xash3d::admin::{AdminChallenge, AdminCommand, AdminPacket, HASH_LEN};
use xash3d::error::{CursorError, Error};
use xash3d::game::{
    GamePacket, GetChallenge, GetPlayers, GetServerInfo, GetServerInfo2, QueryServers, Region,
};
use xash3d::master::{
    AdminChallengeResponse, ChallengeResponse, ClientAnnounce, MasterPacket,
    QueryServersResponse, ServerAddress,
};
use xash3d::net::{SocketAddr, SocketAddrV4, SocketAddrV6};

fn v4(octets: [u8; 4], port: u16) -> SocketAddrV4 {
    SocketAddrV4::from_octets(octets, port)
}

/// `[::n]:port`
fn v6(n: u128, port: u16) -> SocketAddrV6 {
    SocketAddrV6::new(n, port, 0, 0)
}

#[test]
fn admin_challenge() {
    let p = AdminChallenge;
    let mut buf = [0; 512];
    let t = p.encode(&mut buf).unwrap();
    assert_eq!(
        AdminPacket::decode(HASH_LEN, t),
        Ok(Some(AdminPacket::AdminChallenge))
    );
}

#[test]
fn admin_command() {
    let p = AdminCommand::new(0x12345678, &[1; HASH_LEN], "foo bar baz");
    let mut buf = [0; 512];
    let t = p.encode(&mut buf).unwrap();
    assert_eq!(
        AdminPacket::decode(HASH_LEN, t),
        Ok(Some(AdminPacket::AdminCommand(p)))
    );
}

#[test]
fn query_servers_filter_bug() {
    let last = SocketAddr::V4(SocketAddrV4::new(0, 0));
    let filter: &[u8] = b"\\protocol\\48\\clver\\0.20\\nat\\0";
    let p = QueryServers {
        region: Region::RestOfTheWorld,
        last,
        filter,
    };

    let s = b"1\xff0.0.0.0:0\x00\\protocol\\48\\clver\\0.20\\nat\\0\0";
    assert_eq!(GamePacket::decode(s), Ok(Some(GamePacket::QueryServers(p))));

    let s = b"1\xff0.0.0.0:0\x00\\protocol\\48\\clver\\0.20\\nat\\0";
    assert_eq!(GamePacket::decode(s), Ok(Some(GamePacket::QueryServers(p))));
}

#[test]
fn query_servers() {
    let p = QueryServers {
        region: Region::RestOfTheWorld,
        last: SocketAddr::V4(SocketAddrV4::new(0, 0)),
        filter: b"\\gamedir\\valve\\map\\crossfire\\key\\deadbeef\\protocol\\49\\clver\\0.20",
    };
    let mut buf = [0; 512];
    let t = p.encode(&mut buf).unwrap();
    assert_eq!(GamePacket::decode(t), Ok(Some(GamePacket::QueryServers(p))));
}

#[test]
fn get_challenge() {
    let mut buf = [0; 32];
    let p = GetChallenge::new();
    let t = p.encode(&mut buf).unwrap();
    assert_eq!(GamePacket::decode(t), Ok(Some(GamePacket::GetChallenge(p))));
}

#[test]
fn get_server_info() {
    let p = GetServerInfo::new(49);
    let mut buf = [0; 512];
    let t = p.encode(&mut buf).unwrap();
    assert_eq!(
        GamePacket::decode(t),
        Ok(Some(GamePacket::GetServerInfo(p)))
    );
}

#[test]
fn get_server_info2() {
    let p = GetServerInfo2::new();
    let mut buf = [0; 64];
    let t = p.encode(&mut buf).unwrap();
    assert_eq!(
        GamePacket::decode(t),
        Ok(Some(GamePacket::GetServerInfo2(p)))
    );
}

#[test]
fn get_server_info2_challenge() {
    let p = GetServerInfo2::with_challenge(0xdeadbeef);
    let mut buf = [0; 64];
    let t = p.encode(&mut buf).unwrap();
    assert_eq!(
        GamePacket::decode(t),
        Ok(Some(GamePacket::GetServerInfo2(p)))
    );
}

#[test]
fn get_players() {
    let p = GetPlayers::new(0x12345678).unwrap();
    let mut buf = [0; 32];
    let t = p.encode(&mut buf).unwrap();
    assert_eq!(GamePacket::decode(t), Ok(Some(GamePacket::GetPlayers(p))));
}

#[test]
fn challenge_response() {
    let p = ChallengeResponse::new(0x12345678, Some(0x87654321));
    let mut buf = [0; 512];
    let t = p.encode(&mut buf).unwrap();
    assert_eq!(
        MasterPacket::decode(t),
        Ok(Some(MasterPacket::ChallengeResponse(p)))
    );
}

#[test]
fn challenge_response_old() {
    let s = b"\xff\xff\xff\xffs\n\x78\x56\x34\x12";
    assert_eq!(
        ChallengeResponse::decode(s),
        Ok(ChallengeResponse::new(0x12345678, None))
    );

    let p = ChallengeResponse::new(0x12345678, None);
    let mut buf = [0; 512];
    let t = p.encode(&mut buf).unwrap();
    assert_eq!(
        MasterPacket::decode(t),
        Ok(Some(MasterPacket::ChallengeResponse(p)))
    );
}

fn collect<A: ServerAddress>(r: &QueryServersResponse<&[u8]>) -> Vec<A> {
    let mut it = r.iter::<A>();
    let mut out = Vec::new();
    while let Some(a) = it.next() {
        out.push(a);
    }
    out
}

#[test]
fn query_servers_response_ipv4() {
    type Addr = SocketAddrV4;
    let servers: &[Addr] = &[
        v4([1, 2, 3, 4], 27001),
        v4([1, 2, 3, 4], 27002),
        v4([1, 2, 3, 4], 27003),
        v4([1, 2, 3, 4], 27004),
    ];
    let mut p = QueryServersResponse::new(Some(0xdeadbeef));
    let mut buf = [0; 512];
    let (t, c) = p.encode(&mut buf, servers).unwrap();
    assert_eq!(c, servers.len());
    assert_eq!(t.len(), 12 + Addr::size() * (servers.len() + 1));
    let e = QueryServersResponse::decode(t).unwrap();
    assert_eq!(collect::<Addr>(&e), servers);
}

#[test]
fn query_servers_response_ipv6() {
    type Addr = SocketAddrV6;
    let servers: &[Addr] = &[
        v6(1, 27001),
        v6(2, 27002),
        v6(3, 27003),
        v6(4, 27004),
    ];
    let mut p = QueryServersResponse::new(Some(0xdeadbeef));
    let mut buf = [0; 512];
    let (t, c) = p.encode(&mut buf, servers).unwrap();
    assert_eq!(c, servers.len());
    assert_eq!(t.len(), 12 + Addr::size() * (servers.len() + 1));
    let e = QueryServersResponse::decode(t).unwrap();
    assert_eq!(collect::<Addr>(&e), servers);
}

#[test]
fn client_announce() {
    let p = ClientAnnounce::new(SocketAddr::V4(v4([1, 2, 3, 4], 12345)));
    let mut buf = [0; 512];
    let t = p.encode(&mut buf).unwrap();
    assert_eq!(
        MasterPacket::decode(t),
        Ok(Some(MasterPacket::ClientAnnounce(p)))
    );
}

#[test]
fn admin_challenge_response() {
    let p = AdminChallengeResponse::new(0x12345678, 0x87654321);
    let mut buf = [0; 64];
    let t = p.encode(&mut buf).unwrap();
    assert_eq!(
        MasterPacket::decode(t),
        Ok(Some(MasterPacket::AdminChallengeResponse(p)))
    );
}

#[test]
fn encode_errors_on_small_buffers() {
    let mut buf = [0; 8];
    assert_eq!(
        AdminChallenge.encode(&mut buf),
        Err(Error::Cursor(CursorError::UnexpectedEnd))
    );
    let mut buf = [0; 29];
    let mut p = QueryServersResponse::new(None);
    let list = [v4([1, 2, 3, 4], 1), v4([1, 2, 3, 4], 2), v4([1, 2, 3, 4], 3)];
    let (t, c) = p.encode(&mut buf, &list).unwrap();
    // 6 bytes of header leave 23 bytes: two addresses while room for a third remains
    assert_eq!(c, 2);
    assert_eq!(t.len(), 6 + 6 * 3);
    let mut buf = [0; 11];
    assert_eq!(
        p.encode(&mut buf, &list),
        Err(Error::Cursor(CursorError::UnexpectedEnd))
    );
}

#[test]
fn decode_errors() {
    assert_eq!(
        AdminChallenge::decode(b"adminchallengex"),
        Err(Error::Cursor(CursorError::Expect))
    );
    assert_eq!(
        AdminCommand::decode(b"admin\x01\x02"),
        Err(Error::Cursor(CursorError::UnexpectedEnd))
    );
    assert_eq!(
        GetChallenge::decode(b"\xff\xff\xff\xffU\xff\xff\xff\xffx"),
        Err(Error::Cursor(CursorError::ExpectEmpty))
    );
    assert_eq!(
        GetPlayers::decode(b"\xff\xff\xff\xffU\xff\xff\xff\xff"),
        Err(Error::InvalidPacket)
    );
    assert_eq!(
        GetServerInfo::decode(b"\xff\xff\xff\xffinfo 256"),
        Err(Error::InvalidPacket)
    );
    assert_eq!(
        GetServerInfo::decode(b"\xff\xff\xff\xffinfo \xff"),
        Err(Error::Cursor(CursorError::InvalidString))
    );
    assert_eq!(
        GetServerInfo::decode(b"\xff\xff\xff\xffinfo +48"),
        Ok(GetServerInfo::new(48))
    );
    assert_eq!(
        GamePacket::decode(b"1\x09"),
        Err(Error::InvalidRegion)
    );
    assert_eq!(
        GamePacket::decode(b"1\xffnot an address\x00"),
        Err(Error::InvalidQueryServersLast)
    );
    assert_eq!(
        MasterPacket::decode(b"\xff\xff\xff\xffc 1.2.3.4"),
        Err(Error::InvalidClientAnnounceIp)
    );
    assert_eq!(GamePacket::decode(b"hello"), Ok(None));
}

#[test]
fn query_servers_response_without_key() {
    let e = QueryServersResponse::decode(b"\xff\xff\xff\xfff\n\x01\x02\x03\x04\x69\x87\0\0\0\0\0\0").unwrap();
    assert_eq!(e.key, None);
    assert!(!e.is_empty::<SocketAddrV4>());
    assert_eq!(collect::<SocketAddrV4>(&e), vec![v4([1, 2, 3, 4], 27015)]);
}

#[test]
fn client_announce_ipv6_text() {
    let addrs = [
        SocketAddrV6::new(1, 27015, 0, 0),
        SocketAddrV6::new(0x2001_0db8_0000_0000_0000_ff00_0042_8329, 1, 0, 7),
        SocketAddrV6::new(0x0000_0000_0000_0000_0000_ffff_0102_0304, 27005, 0, 0),
        SocketAddrV6::new(0x0001_0002_0003_0004_0005_0006_0007_0008, 65535, 0, 0),
        SocketAddrV6::new(0, 0, 0, 0),
        SocketAddrV6::new(0x0001_0000_0000_0001_0000_0000_0000_0001, 80, 0, 0),
    ];
    let texts = [
        "[::1]:27015",
        "[2001:db8::ff00:42:8329%7]:1",
        "[::ffff:1.2.3.4]:27005",
        "[1:2:3:4:5:6:7:8]:65535",
        "[::]:0",
        "[1:0:0:1::1]:80",
    ];
    for (a, text) in addrs.iter().zip(texts) {
        let p = ClientAnnounce::new(SocketAddr::V6(*a));
        let mut buf = [0; 128];
        let t = p.encode(&mut buf).unwrap();
        assert_eq!(&t[6..], text.as_bytes());
        assert_eq!(
            MasterPacket::decode(t),
            Ok(Some(MasterPacket::ClientAnnounce(p)))
        );
    }
}

#[test]
fn query_servers_ipv6_last() {
    let last = SocketAddr::V6(SocketAddrV6::new(0xfe80_0000_0000_0000_0000_0000_0000_0001, 27010, 0, 3));
    let p = QueryServers {
        region: Region::Europe,
        last,
        filter: b"\\gamedir\\valve",
    };
    let mut buf = [0; 128];
    let t = p.encode(&mut buf).unwrap();
    assert_eq!(GamePacket::decode(t), Ok(Some(GamePacket::QueryServers(p))));
}

#[test]
fn query_servers_response_empty_list() {
    let mut buf = [0u8; 512];
    let (t, c) = QueryServersResponse::new(Some(0xdeadbeef)).encode(&mut buf, &[] as &[SocketAddrV4]).unwrap();
    assert_eq!(c, 0);
    let r = QueryServersResponse::decode(t).unwrap();
    assert!(r.is_empty::<SocketAddrV4>());
    assert!(collect::<SocketAddrV4>(&r).is_empty());
}
