use xash3d::admin::{AdminChallenge, AdminCommand};
use xash3d::game::GetServerInfo;
use xash3d::udp_server::{encode_admin_command_packet, handle_client_packet_at, ClientRequest};
use xash3d::filter::Version;
use xash3d::udp_server::{admin_command_at, handle_admin_command_at, master_signal_action, query_servers_reply_at, update_address_reply, MasterAction, MasterSignal, QueryServersReply};
use xash3d::servers::UpdateGamedirs;
use xash3d::game::Region;
use xash3d::servers::{announce_to_nat, ServerInfo, ServerTable};
use xash3d::hash_map::{Timed, TimedHashMap, PERIODIC_DEFAULT_LIMIT};
use xash3d::master::{QueryServersResponse, ServerAddress};
use xash3d::net::SocketAddrV4;
use xash3d::udp_server::{
    admin_hash, allow_admin_request_at, allow_game_request, allow_game_request_at,
    authenticate_admin, encode_server_list, find_admin, is_buildnum_valid,
    is_query_servers_valid, parse_admin_command, remember_admin_failure_at, server_counts,
    split_on_exec, Admin, AdminAuth, AdminCommandKind, BlockList, ClientLimits, HashParams,
    ServerCounts, UdpServerError,
};

#[test]
fn timed_is_valid() {
    let t = Timed::with_time(5u32, 100_000);
    assert!(t.is_valid(100_000, 1));
    assert!(t.is_valid(100_999, 1));
    assert!(!t.is_valid(101_000, 1));
    assert!(t.is_valid(90_000, 1));
    assert!(!t.is_valid(100_000, 0));
    assert_eq!(Timed::new(7u32).value, 7);
}

#[test]
fn cleanup() {
    let n = PERIODIC_DEFAULT_LIMIT as u128;
    let mut map = TimedHashMap::new(1);
    for (t, i) in (0..3).map(|i| (i as u64 * 1000, i * n)) {
        for j in 0..n {
            // a round takes some milliseconds, as inserts do
            map.insert_at(i + j, 0, t + j as u64 % 10);
        }
        assert_eq!(map.len(), n as usize);
    }
}

#[test]
fn timed_map_insert_get_remove() {
    let mut map = TimedHashMap::new(10);
    map.insert_at(1, 7, 1_000_000);
    assert_eq!(map.get_at(1, 1_000_000), Some(Timed::with_time(7, 1_000_000)));
    assert_eq!(map.get_at(1, 1_009_999), Some(Timed::with_time(7, 1_000_000)));
    assert_eq!(map.get_at(1, 1_010_000), None);
    assert_eq!(map.get_at(2, 1_000_000), None);
    assert_eq!(map.len(), 1);

    // an expired entry is removed but not given back
    assert_eq!(map.remove_at(1, 2_000_000), None);
    assert_eq!(map.len(), 0);

    map.insert_at(3, 9, 1_000_000);
    assert_eq!(map.remove_at(3, 1_001_000), Some(Timed::with_time(9, 1_000_000)));
    assert_eq!(map.get_at(3, 1_001_000), None);

    map.set_timeout(1);
    map.insert_at(4, 1, 50_000);
    map.clear();
    assert_eq!(map.len(), 0);
}

#[test]
fn timed_map_with_clock() {
    let mut map = TimedHashMap::new(60);
    map.insert(5, 42);
    assert_eq!(map.get(5).map(|t| t.value), Some(42));
    assert_eq!(map.keys(), vec![5]);
    assert_eq!(map.iter().len(), 1);
    assert_eq!(map.entry(5).map(|t| t.value), Some(42));
    map.retain(|_, v| v == 42);
    assert_eq!(map.len(), 1);
    assert_eq!(map.remove(5).map(|t| t.value), Some(42));
    assert_eq!(map.get(5), None);
}

#[test]
fn timed_map_entry() {
    let mut map = TimedHashMap::new(10);
    map.insert_at(1, 3, 100_000);
    // a fresh entry is found and kept
    assert_eq!(map.entry_at(1, 105_000), Some(Timed::with_time(3, 100_000)));
    assert_eq!(map.len(), 1);
    // an expired entry is dropped
    assert_eq!(map.entry_at(1, 200_000), None);
    assert_eq!(map.len(), 0);
    map.put(2, Timed::with_time(8, 7_000));
    assert_eq!(map.get_at(2, 7_000), Some(Timed::with_time(8, 7_000)));
}

#[test]
fn timed_map_keys_iter_retain() {
    let mut map = TimedHashMap::new(10);
    for k in 0..10u128 {
        map.insert_at(k, k as u32, if k < 5 { 0 } else { 100_000 });
    }
    let mut keys = map.keys_at(105_000);
    keys.sort();
    assert_eq!(keys, vec![5, 6, 7, 8, 9]);

    let mut items = map.iter_at(105_000);
    items.sort_by_key(|(k, _)| *k);
    assert_eq!(items[0], (5, Timed::with_time(5, 100_000)));
    assert_eq!(items.len(), 5);

    // keep the fresh entries with even values
    map.retain_at(|_, v| v % 2 == 0, 105_000);
    let mut keys = map.keys_at(105_000);
    keys.sort();
    assert_eq!(keys, vec![6, 8]);
    assert_eq!(map.len(), 2);
}

#[test]
fn game_rate_limit() {
    let mut map = TimedHashMap::new(1);
    let ip = 0x7f000001;
    for _ in 0..3 {
        assert_eq!(allow_game_request_at(&mut map, ip, 3, 10_000), Ok(()));
    }
    assert_eq!(
        allow_game_request_at(&mut map, ip, 3, 10_500),
        Err(UdpServerError::GameRateLimit(4))
    );
    assert_eq!(
        allow_game_request_at(&mut map, ip, 3, 10_999),
        Err(UdpServerError::GameRateLimit(5))
    );
    // another client is counted apart
    assert_eq!(allow_game_request_at(&mut map, ip + 1, 3, 10_000), Ok(()));
    // a new window starts once the old one expired
    assert_eq!(allow_game_request_at(&mut map, ip, 3, 11_000), Ok(()));
    assert_eq!(map.get_at(ip, 11_000), Some(Timed::with_time(1, 11_000)));
}

#[test]
fn game_rate_limit_off() {
    let mut map = TimedHashMap::new(1);
    for _ in 0..10 {
        assert_eq!(allow_game_request(&mut map, 1, 0), Ok(()));
    }
    assert_eq!(map.len(), 0);
}

#[test]
fn game_rate_limit_saturates() {
    let mut map = TimedHashMap::new(100);
    map.put(1, Timed::with_time(u32::MAX, 10_000));
    assert_eq!(
        allow_game_request_at(&mut map, 1, 5, 10_000),
        Err(UdpServerError::GameRateLimit(u32::MAX))
    );
}

#[test]
fn admin_rate_limit() {
    let mut map = TimedHashMap::new(10);
    assert_eq!(allow_admin_request_at(&map, 9, 0), Ok(()));
    remember_admin_failure_at(&mut map, 9, 0);
    assert_eq!(
        allow_admin_request_at(&map, 9, 5_000),
        Err(UdpServerError::AdminRateLimit)
    );
    assert_eq!(allow_admin_request_at(&map, 9, 10_000), Ok(()));
    assert_eq!(allow_admin_request_at(&map, 8, 5_000), Ok(()));
}

#[test]
fn query_servers_validity() {
    let limits = ClientLimits {
        min_version: Version::new(0, 19),
        min_engine_buildnum: 3500,
        min_old_engine_buildnum: 3000,
    };
    // no version
    assert!(!is_query_servers_valid(None, Some(4000), &limits));
    // too old
    assert!(!is_query_servers_valid(Some(Version::new(0, 18)), Some(4000), &limits));
    // old engine has its own build number limit
    assert!(is_query_servers_valid(Some(Version::new(0, 19)), Some(3000), &limits));
    assert!(!is_query_servers_valid(Some(Version::new(0, 19)), Some(2999), &limits));
    // new engine
    assert!(!is_query_servers_valid(Some(Version::new(0, 21)), Some(3000), &limits));
    assert!(is_query_servers_valid(Some(Version::new(0, 21)), Some(3500), &limits));
    assert!(!is_query_servers_valid(Some(Version::new(0, 21)), None, &limits));
    // no build number limit
    assert!(is_buildnum_valid(None, 0));
    assert!(!is_buildnum_valid(None, 1));
    assert!(is_buildnum_valid(Some(1), 1));
}

fn params() -> HashParams {
    HashParams {
        len: 64,
        key: String::from("key"),
        personal: String::from("personal"),
    }
}

#[test]
fn admin_hash_matches_blake2b() {
    let p = params();
    let h = admin_hash(&p, b"secret", 0x01020304);
    assert_eq!(h.len(), 64);
    let expected = blake2b_simd::Params::new()
        .hash_length(64)
        .key(b"key")
        .personal(b"personal")
        .to_state()
        .update(b"secret")
        .update(&[4, 3, 2, 1])
        .finalize();
    assert_eq!(h.as_slice(), expected.as_bytes());
    assert_ne!(h, admin_hash(&p, b"secret", 0x01020305));
    let short = HashParams { len: 16, ..params() };
    assert_eq!(admin_hash(&short, b"secret", 1).len(), 16);
}

#[test]
fn admin_authentication() {
    let p = params();
    let admins = vec![
        Admin {
            name: String::from("a"),
            password: String::from("one"),
        },
        Admin {
            name: String::from("b"),
            password: String::from("two"),
        },
    ];
    let h = admin_hash(&p, b"two", 77);
    assert_eq!(find_admin(&admins, &p, &h, 77), Some(1));
    assert_eq!(find_admin(&admins, &p, &h, 78), None);
    assert_eq!(
        authenticate_admin((10, 77), (11, 78), 10, &h, &admins, &p),
        AdminAuth::Granted(1)
    );
    assert_eq!(
        authenticate_admin((10, 76), (11, 77), 11, &h, &admins, &p),
        AdminAuth::Granted(1)
    );
    assert_eq!(
        authenticate_admin((10, 76), (11, 77), 12, &h, &admins, &p),
        AdminAuth::InvalidChallenge
    );
    assert_eq!(
        authenticate_admin((10, 76), (11, 77), 10, &h, &admins, &p),
        AdminAuth::InvalidHash
    );
}

#[test]
fn admin_command_parse() {
    let a = parse_admin_command("ban 1.2.3.4 foo ::1 10.0.0.1", false);
    assert_eq!(a.kind, AdminCommandKind::Ban);
    assert_eq!(a.ips, vec![0x01020304, 0x0a000001]);
    assert_eq!(a.invalid, vec![&b"foo"[..], &b"::1"[..]]);

    let a = parse_admin_command("unban ::1", true);
    assert_eq!(a.kind, AdminCommandKind::Unban);
    assert_eq!(a.ips, vec![1]);

    let a = parse_admin_command("reboot 1.2.3.4", false);
    assert_eq!(a.kind, AdminCommandKind::Unknown);
    assert!(a.ips.is_empty());

    // words are separated by single spaces
    let a = parse_admin_command("ban  1.2.3.4", false);
    assert_eq!(a.ips, vec![0x01020304]);
    assert_eq!(a.invalid, vec![&b""[..]]);
    assert_eq!(
        split_on_exec(b"a  b", b' '),
        vec![&b"a"[..], &b""[..], &b"b"[..]]
    );
}

#[test]
fn block_list() {
    let mut b = BlockList::new();
    assert_eq!(b.ban(&[1, 2, 1]), vec![1, 2]);
    assert!(b.is_blocked(1) && b.is_blocked(2) && !b.is_blocked(3));
    assert_eq!(b.ban(&[2, 3]), vec![3]);
    assert_eq!(b.unban(&[3, 4, 3]), vec![3]);
    assert!(!b.is_blocked(3));
    assert!(b.is_blocked(1));
}

fn collect<A: ServerAddress>(packet: &[u8]) -> Vec<A> {
    let r = QueryServersResponse::decode(packet).unwrap();
    let mut it = r.iter::<A>();
    let mut out = Vec::new();
    while let Some(a) = it.next() {
        out.push(a);
    }
    out
}

#[test]
fn server_list_in_packets() {
    let servers: Vec<SocketAddrV4> = (0..200u32)
        .map(|i| SocketAddrV4::new(0x0a000000 + i, 27015))
        .collect();
    let mut buf = [0; 512];
    let packets = encode_server_list(Some(0xdeadbeef), &servers, &mut buf).unwrap();
    // 512 bytes hold 6 + 6 bytes of header and key, 82 addresses and the end marker
    assert_eq!(packets.len(), 3);
    let mut all = Vec::new();
    for p in &packets {
        assert!(p.len() <= 512);
        let r = QueryServersResponse::decode(p).unwrap();
        assert_eq!(r.key, Some(0xdeadbeef));
        all.extend(collect::<SocketAddrV4>(p));
    }
    assert_eq!(all, servers);

    // an empty list is one packet
    let packets = encode_server_list::<SocketAddrV4>(None, &[], &mut buf).unwrap();
    assert_eq!(packets.len(), 1);
    assert!(collect::<SocketAddrV4>(&packets[0]).is_empty());

    // a buffer too small for the header fails
    let mut small = [0; 8];
    assert!(encode_server_list::<SocketAddrV4>(None, &[], &mut small).is_err());
}

#[test]
fn server_counting() {
    let dirs: Vec<&[u8]> = vec![b"valve", b"cstrike", b"valve", b"dmc", b""];
    assert_eq!(
        server_counts(&dirs),
        ServerCounts {
            total: 5,
            valve: 2,
            cstrike: 1,
            other: 2,
        }
    );
    assert_eq!(
        server_counts(&[]),
        ServerCounts {
            total: 0,
            valve: 0,
            cstrike: 0,
            other: 0,
        }
    );
}

#[test]
fn error_messages() {
    assert_eq!(UdpServerError::UndefinedPacket.message(), "Undefined packet");
    assert_eq!(
        UdpServerError::GameRateLimit(3).message(),
        "Rate limit game request"
    );
}

#[test]
fn client_packet_dispatch() {

    let mut counters = TimedHashMap::new(1);
    let mut failures = TimedHashMap::new(10);
    let ip = 1;

    let q = b"1\xff0.0.0.0:0\x00\\gamedir\\valve\x00";
    match handle_client_packet_at(&mut counters, &failures, ip, q, 2, 64, 0) {
        Ok(ClientRequest::QueryServers(p)) => assert_eq!(p.filter, b"\\gamedir\\valve"),
        other => panic!("{other:?}"),
    }
    let mut buf = [0; 512];
    let info = GetServerInfo::new(49).encode(&mut buf).unwrap().to_vec();
    match handle_client_packet_at(&mut counters, &failures, ip, &info, 2, 64, 0) {
        Ok(ClientRequest::GetServerInfo(p)) => assert_eq!(p.protocol, 49),
        other => panic!("{other:?}"),
    }
    // the third game request in the window is over the limit
    assert!(matches!(
        handle_client_packet_at(&mut counters, &failures, ip, q, 2, 64, 0),
        Err(UdpServerError::GameRateLimit(3))
    ));
    // a broken query is still counted, then refused for what it is
    assert!(matches!(
        handle_client_packet_at(&mut counters, &failures, ip + 1, b"1\x07", 2, 64, 0),
        Err(UdpServerError::Protocol(_))
    ));

    let ch = AdminChallenge.encode(&mut buf).unwrap().to_vec();
    assert!(matches!(
        handle_client_packet_at(&mut counters, &failures, ip, &ch, 2, 64, 0),
        Ok(ClientRequest::AdminChallenge)
    ));
    let hash = [7u8; 64];
    let cmd = AdminCommand::new(5, &hash, "ban 1.2.3.4").encode(&mut buf).unwrap().to_vec();
    match handle_client_packet_at(&mut counters, &failures, ip, &cmd, 2, 64, 0) {
        Ok(ClientRequest::AdminCommand(c)) => {
            assert_eq!(c.master_challenge, 5);
            assert_eq!(c.command, "ban 1.2.3.4");
        }
        other => panic!("{other:?}"),
    }
    remember_admin_failure_at(&mut failures, ip, 0);
    assert!(matches!(
        handle_client_packet_at(&mut counters, &failures, ip, &cmd, 2, 64, 1000),
        Err(UdpServerError::AdminRateLimit)
    ));
    assert!(matches!(
        handle_client_packet_at(&mut counters, &failures, ip, b"hello", 2, 64, 0),
        Err(UdpServerError::UndefinedPacket)
    ));
}

#[test]
fn admin_client_command_is_granted() {

    let p = params();
    let admins = vec![Admin {
        name: String::from("root"),
        password: String::from("hunter2"),
    }];
    let mut buf = [0; 512];
    let packet = encode_admin_command_packet(&p, b"hunter2", 11, 22, "unban 1.2.3.4", &mut buf)
        .unwrap()
        .to_vec();
    let mut counters = TimedHashMap::new(1);
    let failures = TimedHashMap::new(1);
    let cmd = match handle_client_packet_at(&mut counters, &failures, 1, &packet, 0, 64, 0) {
        Ok(ClientRequest::AdminCommand(c)) => c,
        other => panic!("{other:?}"),
    };
    assert_eq!(
        authenticate_admin((11, 22), (10, 21), cmd.master_challenge, cmd.hash, &admins, &p),
        AdminAuth::Granted(0)
    );
    let wrong = encode_admin_command_packet(&p, b"hunter3", 11, 22, "unban 1.2.3.4", &mut buf)
        .unwrap()
        .to_vec();
    let cmd = match handle_client_packet_at(&mut counters, &failures, 1, &wrong, 0, 64, 0) {
        Ok(ClientRequest::AdminCommand(c)) => c,
        other => panic!("{other:?}"),
    };
    assert_eq!(
        authenticate_admin((11, 22), (10, 21), cmd.master_challenge, cmd.hash, &admins, &p),
        AdminAuth::InvalidHash
    );
}

fn server_info() -> ServerInfo {
    ServerInfo {
        region: Region::RestOfTheWorld,
        protocol: 49,
        nat: false,
        gamedir: b"valve".to_vec(),
    }
}

fn v4_key(ip: [u8; 4], port: u16) -> (u128, u16) {
    (u32::from_be_bytes(ip) as u128, port)
}

#[test]
fn check_remove_server_by_ip() {
    let mut master = ServerTable::new(300);
    let dummy_ip = [1, 1, 1, 1];
    let dummy_ip2 = [1, 1, 1, 2];
    assert!(master.add_server_at(v4_key(dummy_ip, 27015), server_info(), 8, 0));
    assert!(master.add_server_at(v4_key(dummy_ip, 27016), server_info(), 8, 0));
    assert!(master.add_server_at(v4_key(dummy_ip, 27017), server_info(), 8, 0));
    assert!(master.add_server_at(v4_key(dummy_ip2, 27015), server_info(), 8, 0));
    assert_eq!(master.count_all_servers(), 4);
    master.remove_servers_by_ip_at(u32::from_be_bytes(dummy_ip) as u128, 0);
    assert_eq!(master.count_all_servers(), 1);
    assert!(master.get_at(v4_key(dummy_ip2, 27015), 0).is_some());
}

#[test]
fn servers_per_ip_limit() {
    let mut t = ServerTable::new(10);
    let ip = [10, 0, 0, 1];
    // with a limit of 2, a third server still joins (two are listed), a fourth does not
    assert!(t.add_server_at(v4_key(ip, 1), server_info(), 2, 0));
    assert!(t.add_server_at(v4_key(ip, 2), server_info(), 2, 0));
    assert!(t.add_server_at(v4_key(ip, 3), server_info(), 2, 0));
    assert!(!t.add_server_at(v4_key(ip, 4), server_info(), 2, 0));
    assert_eq!(t.count_all_servers(), 3);
    // a listed server is updated whatever the limit
    let mut info = server_info();
    info.protocol = 48;
    assert!(t.add_server_at(v4_key(ip, 1), info, 0, 5_000));
    assert_eq!(t.get_at(v4_key(ip, 1), 5_000).map(|i| i.protocol), Some(48));
    // expired servers do not count, and are not found
    assert!(t.add_server_at(v4_key(ip, 4), server_info(), 2, 12_000));
    assert!(t.get_at(v4_key(ip, 2), 12_000).is_none());
    let mut keys = t.keys_at(12_000);
    keys.sort();
    assert_eq!(keys, vec![v4_key(ip, 1), v4_key(ip, 4)]);
    // with the clock
    let mut t = ServerTable::new(60);
    assert!(t.add_server(v4_key(ip, 9), server_info(), 1));
    t.remove_servers_by_ip(u32::from_be_bytes(ip) as u128);
    assert_eq!(t.count_all_servers(), 0);
}

#[test]
fn query_servers_selection() {
    let mut t = ServerTable::new(100);
    let mk = |region, protocol, nat, gamedir: &[u8]| ServerInfo {
        region,
        protocol,
        nat,
        gamedir: gamedir.to_vec(),
    };
    t.add_server_at(v4_key([1, 0, 0, 1], 1), mk(Region::RestOfTheWorld, 49, false, b"valve"), 8, 0);
    t.add_server_at(v4_key([1, 0, 0, 2], 1), mk(Region::RestOfTheWorld, 48, true, b"valve"), 8, 0);
    t.add_server_at(v4_key([1, 0, 0, 3], 1), mk(Region::Europe, 48, true, b"valve"), 8, 0);
    t.add_server_at(v4_key([1, 0, 0, 4], 1), mk(Region::RestOfTheWorld, 48, true, b"cstrike"), 8, 0);

    let valve = |i: &ServerInfo| i.gamedir == b"valve";
    let (mut list, nat) = t.select_servers_at(Region::RestOfTheWorld, Version::new(0, 20), valve, 10_000);
    list.sort();
    assert_eq!(list, vec![v4_key([1, 0, 0, 1], 1), v4_key([1, 0, 0, 2], 1)]);
    assert_eq!(nat, vec![v4_key([1, 0, 0, 2], 1)]);

    // clients before 0.20 get servers of protocol 48 only
    let (list, _) = t.select_servers_at(Region::RestOfTheWorld, Version::new(0, 19), valve, 10_000);
    assert_eq!(list, vec![v4_key([1, 0, 0, 2], 1)]);

    // expired servers are not offered
    let (list, _) = t.select_servers_at(Region::RestOfTheWorld, Version::new(0, 20), valve, 200_000);
    assert!(list.is_empty());

    assert!(announce_to_nat(1, None));
    assert!(announce_to_nat(1, Some(true)));
    assert!(!announce_to_nat(1, Some(false)));
    assert!(!announce_to_nat(0, None));
}

#[test]
fn check_query_servers() {
    const BUILDNUM_NEW: u32 = 3500;
    const BUILDNUM_OLD: u32 = 3000;

    let limits = ClientLimits {
        min_version: Version::new(0, 19),
        min_engine_buildnum: BUILDNUM_NEW,
        min_old_engine_buildnum: BUILDNUM_OLD,
    };

    // check missing fields
    assert!(!is_query_servers_valid(None, None, &limits));
    assert!(!is_query_servers_valid(Some(Version::new(0, 21)), None, &limits));
    assert!(!is_query_servers_valid(None, Some(BUILDNUM_NEW), &limits));

    // check engine buildnum
    assert!(is_query_servers_valid(Some(Version::new(0, 21)), Some(BUILDNUM_NEW), &limits));
    assert!(!is_query_servers_valid(Some(Version::new(0, 21)), Some(BUILDNUM_NEW - 1), &limits));

    // check old engine buildnum
    assert!(is_query_servers_valid(Some(Version::new(0, 19)), Some(BUILDNUM_OLD), &limits));
    assert!(!is_query_servers_valid(Some(Version::new(0, 19)), Some(BUILDNUM_OLD - 1), &limits));
}

#[test]
fn client_rate_limit() {
    let client_rate_limit = 10;
    let queries = client_rate_limit + 20;
    let mut counters = TimedHashMap::new(1);
    let ip = 0x7f000001;
    for second in 0..3u64 {
        let mut n = 0;
        for _ in 0..queries {
            if allow_game_request_at(&mut counters, ip, client_rate_limit, second * 1000).is_ok() {
                n += 1;
            }
        }
        assert_eq!(n, client_rate_limit);
    }
}

#[test]
fn admin_command_bans_and_forgets_servers() {
    let mut bl = BlockList::new();
    let mut t = ServerTable::new(300);
    assert!(t.add_server_at(v4_key([1, 2, 3, 4], 1), server_info(), 8, 0));
    assert!(t.add_server_at(v4_key([1, 2, 3, 4], 2), server_info(), 8, 0));
    assert!(t.add_server_at(v4_key([5, 6, 7, 8], 1), server_info(), 8, 0));
    let a = admin_command_at("ban 1.2.3.4 nowhere", false, &mut bl, &mut t, 1000);
    assert_eq!(a.kind, AdminCommandKind::Ban);
    assert!(bl.is_blocked(0x01020304));
    assert_eq!(t.count_all_servers(), 1);
    assert!(t.get_at(v4_key([5, 6, 7, 8], 1), 1000).is_some());
    // banning again removes nothing more: the address was blocked already
    assert!(t.add_server_at(v4_key([1, 2, 3, 4], 3), server_info(), 8, 1000));
    admin_command_at("ban 1.2.3.4", false, &mut bl, &mut t, 1000);
    assert_eq!(t.count_all_servers(), 2);
    let a = admin_command_at("unban 1.2.3.4", false, &mut bl, &mut t, 1000);
    assert_eq!(a.kind, AdminCommandKind::Unban);
    assert!(!bl.is_blocked(0x01020304));
    assert_eq!(t.count_all_servers(), 2);
    let a = admin_command_at("reboot", false, &mut bl, &mut t, 1000);
    assert_eq!(a.kind, AdminCommandKind::Unknown);
    assert_eq!(t.count_all_servers(), 2);
}

#[test]
fn query_servers_reply() {
    let limits = ClientLimits {
        min_version: Version::new(0, 19),
        min_engine_buildnum: 3500,
        min_old_engine_buildnum: 3000,
    };
    let mut t = ServerTable::new(100);
    let mut nat = server_info();
    nat.nat = true;
    t.add_server_at(v4_key([1, 0, 0, 1], 1), server_info(), 8, 0);
    t.add_server_at(v4_key([1, 0, 0, 2], 1), nat, 8, 0);
    let any = |_: &ServerInfo| true;
    let mut dirs = UpdateGamedirs::new(5);
    let client = v4_key([9, 9, 9, 9], 27005);
    // refused: the update address is sent, and the client's game directory kept
    assert!(matches!(
        query_servers_reply_at(&t, &mut dirs, client, Some(b"cstrike"), &limits, Region::RestOfTheWorld, Some(Version::new(0, 18)), Some(4000), None, any, 10),
        QueryServersReply::Update
    ));
    match query_servers_reply_at(&t, &mut dirs, client, Some(b"valve"), &limits, Region::RestOfTheWorld, Some(Version::new(0, 20)), Some(4000), None, any, 10) {
        QueryServersReply::Servers(mut list, announce) => {
            list.sort();
            assert_eq!(list, vec![v4_key([1, 0, 0, 1], 1), v4_key([1, 0, 0, 2], 1)]);
            assert_eq!(announce, vec![v4_key([1, 0, 0, 2], 1)]);
        }
        QueryServersReply::Update => panic!("refused"),
    }
    match query_servers_reply_at(&t, &mut dirs, client, None, &limits, Region::RestOfTheWorld, Some(Version::new(0, 20)), Some(4000), Some(false), any, 10) {
        QueryServersReply::Servers(list, announce) => {
            assert_eq!(list.len(), 2);
            assert!(announce.is_empty());
        }
        QueryServersReply::Update => panic!("refused"),
    }
    // the update reply takes the kept directory once
    assert_eq!(dirs.take_at(client, 20), b"cstrike".to_vec());
    assert_eq!(dirs.take_at(client, 20), b"valve".to_vec());
}

#[test]
fn update_gamedirs_expire() {
    let mut dirs = UpdateGamedirs::new(5);
    let c = v4_key([9, 9, 9, 9], 1);
    dirs.save_at(c, Some(b"cstrike"), 0);
    assert_eq!(dirs.take_at(c, 5_000), b"valve".to_vec());
    dirs.save_at(c, Some(b"cstrike"), 0);
    assert_eq!(dirs.take_at(c, 4_999), b"cstrike".to_vec());
    // too long, or none: nothing is kept
    dirs.save_at(c, Some(&[b'x'; 32]), 0);
    assert_eq!(dirs.take_at(c, 0), b"valve".to_vec());
    dirs.save_at(c, None, 0);
    assert_eq!(dirs.take_at(c, 0), b"valve".to_vec());
}

#[test]
fn update_address_reply_lists_one_server() {
    let mut buf = [0u8; 512];
    let packets = update_address_reply(Some(0xbeefdead), SocketAddrV4::new(0x7f000001, 27010), &mut buf).unwrap();
    assert_eq!(packets.len(), 1);
    let r = QueryServersResponse::decode(&packets[0]).unwrap();
    assert_eq!(r.key, Some(0xbeefdead));
    assert_eq!(collect::<SocketAddrV4>(&packets[0]), vec![SocketAddrV4::new(0x7f000001, 27010)]);
}

#[test]
fn admin_command_handled() {
    let p = params();
    let admins = vec![Admin { name: String::from("a"), password: String::from("one") }];
    let h = admin_hash(&p, b"one", 77);
    let mut failures = TimedHashMap::new(10);
    let mut bl = BlockList::new();
    let mut t = ServerTable::new(300);
    let ip = 0x0a000001;
    // granted: the command runs
    let r = handle_admin_command_at((10, 77), (11, 78), 10, &h, "ban 1.2.3.4", &admins, &p, false, ip, &mut failures, &mut bl, &mut t, 0);
    assert_eq!(r, AdminAuth::Granted(0));
    assert!(bl.is_blocked(0x01020304));
    assert_eq!(failures.len(), 0);
    // wrong hash: the address is limited, nothing runs
    let r = handle_admin_command_at((10, 77), (11, 78), 10, &h[..63], "unban 1.2.3.4", &admins, &p, false, ip, &mut failures, &mut bl, &mut t, 0);
    assert_eq!(r, AdminAuth::InvalidHash);
    assert!(bl.is_blocked(0x01020304));
    assert_eq!(allow_admin_request_at(&failures, ip, 1000), Err(UdpServerError::AdminRateLimit));
    // wrong challenge: ignored
    let r = handle_admin_command_at((10, 77), (11, 78), 12, &h, "unban 1.2.3.4", &admins, &p, false, ip + 1, &mut failures, &mut bl, &mut t, 0);
    assert_eq!(r, AdminAuth::InvalidChallenge);
    assert!(bl.is_blocked(0x01020304));
}

#[test]
fn master_signals() {
    assert_eq!(master_signal_action(MasterSignal::Interrupt, true), MasterAction::Exit);
    assert_eq!(master_signal_action(MasterSignal::User1, true), MasterAction::ReloadConfig);
    assert_eq!(master_signal_action(MasterSignal::User1, false), MasterAction::NoConfigToReload);
    assert_eq!(master_signal_action(MasterSignal::Other, false), MasterAction::KeepWaiting);
}

#[test]
fn admin_challenge_keeps_rest_of_buffer() {
    let mut buf = [7u8; 20];
    let n = AdminChallenge.encode(&mut buf).unwrap().len();
    assert_eq!(n, 14);
    assert_eq!(&buf[..14], b"adminchallenge");
    assert_eq!(&buf[14..], &[7u8; 6]);
    let mut small = [7u8; 13];
    assert!(AdminChallenge.encode(&mut small).is_err());
    assert_eq!(small, [7u8; 13]);
}
