use xash3d::observer_state::{ObserverState, ServerEvent};
use xash3d::observer::servers_from_master;
use xash3d::query::ServerResultKind;
use xash3d::udp_server::encode_server_list;
use xash3d::filter::Version;
use xash3d::game::{QueryServers, Region};
use xash3d::net::{addr_less, sorted_unique, SocketAddr, SocketAddrV4, SocketAddrV6};
use xash3d::query::{parse_server_addresses, print_address_lines, server_block_text};
use xash3d::query_cli::{cli_from_args, parse_version, query_command, CliError, CliOptions, QueryCommand, QueryCommandError};
use xash3d::observer_state::select_masters;
use xash3d::info_collector::{monitor_gone_line_exec, CollectServerInfo, Monitor};
use xash3d::observer::{
    encode_query_servers_with_key, update_time, Connection, ConnectionState, InfoEvent, Master,
    ObserverBuilder, ProtocolEvent, PROTOCOL_VERSION, SERVER_TIMEOUT,
};
use xash3d::query::{
    master_address, parse_protocol_list, Cli, Colored, QueryFilter, ServerInfo,
};

#[test]
fn next_due_time() {
    // on time: one interval after the last due time
    assert_eq!(update_time(100, 95, 10), 105);
    // behind: one interval from now
    assert_eq!(update_time(100, 80, 10), 110);
    assert_eq!(update_time(100, 90, 10), 110);
}

#[test]
fn connection_lifecycle() {
    let mut c = Connection::new(1000);
    assert_eq!(c.protocol, PROTOCOL_VERSION);
    assert_eq!(c.state, ConnectionState::ProtocolDetection);
    assert!(c.is_valid(1000 + SERVER_TIMEOUT - 1));
    assert!(!c.is_valid(1000 + SERVER_TIMEOUT));
    assert_eq!(c.ping(1050), 50);
    assert_eq!(c.ping(900), 0);

    // the first info is new
    assert_eq!(
        c.on_info(b"info-a", 1020),
        InfoEvent::Update {
            is_new: true,
            ping: 20
        }
    );
    assert_eq!(c.state, ConnectionState::Idle);
    // an idle server's info is not expected
    assert_eq!(c.on_info(b"info-b", 1030), InfoEvent::Ignored);

    // the periodic turn asks the idle server again
    assert!(!c.on_query_tick(2000));
    assert_eq!(c.state, ConnectionState::WaitingInfo);
    assert_eq!(c.time, 2000);
    assert_eq!(c.on_info(b"info-a", 2010), InfoEvent::Ping(10));
    assert!(!c.on_query_tick(3000));
    assert_eq!(
        c.on_info(b"info-b", 3005),
        InfoEvent::Update {
            is_new: false,
            ping: 5
        }
    );
    // a server that did not answer times out
    assert!(!c.on_query_tick(4000));
    assert!(c.on_query_tick(5000));

    let mut buf = [0; 64];
    let packet = c.query_info(&mut buf).unwrap();
    assert!(packet.ends_with(b"49"));
}

#[test]
fn connection_protocol_detection() {
    let mut c = Connection::new(0);
    assert_eq!(c.on_invalid_protocol(10), ProtocolEvent::Retry);
    assert_eq!(c.protocol, PROTOCOL_VERSION - 1);
    assert_eq!(c.on_invalid_protocol(20), ProtocolEvent::GiveUp(20));
    assert!(c.is_changed(b"x"));
    assert!(!c.is_changed(b"x"));
    assert!(c.is_changed(b"y"));
}

#[test]
fn query_packet_with_key() {
    let mut buf = [0; 512];
    let packet = encode_query_servers_with_key(b"\\gamedir\\valve", 0xabc, &mut buf).unwrap();
    let q = QueryServers::decode(packet).unwrap();
    assert_eq!(q.region, Region::RestOfTheWorld);
    assert_eq!(q.last, SocketAddr::V4(SocketAddrV4::new(0, 0)));
    assert_eq!(q.filter, b"\\gamedir\\valve\\key\\abc");

    let mut small = [0; 8];
    assert!(encode_query_servers_with_key(b"", 0, &mut small).is_err());
}

#[test]
fn master_fresh_key() {
    let mut m = Master::new(SocketAddr::V4(SocketAddrV4::new(1, 27010)));
    assert_eq!(m.key, 0);
    let mut buf = [0; 512];
    let packet = m.encode_query_servers_packet(b"\\nat\\0", &mut buf).unwrap().to_vec();
    let q = QueryServers::decode(&packet).unwrap();
    let expected = format!("\\nat\\0\\key\\{:x}", m.key);
    assert_eq!(q.filter, expected.as_bytes());
}

#[test]
fn observer_filter() {
    let b = ObserverBuilder::with_default_client_version()
        .client_build_number(4000)
        .set_nat(false)
        .gamedir("valve")
        .filter("\\map\\crossfire");
    assert_eq!(
        b.build_filter(),
        b"\\clver\\0.20\\buildnum\\4000\\nat\\0\\gamedir\\valve\\map\\crossfire".to_vec()
    );
    assert!(ObserverBuilder::new().build_filter().is_empty());
    let b = ObserverBuilder::new()
        .client_version(Version::with_patch(0, 21, 3))
        .set_nat(true);
    assert_eq!(b.build_filter(), b"\\clver\\0.21.3\\nat\\1".to_vec());
}

#[test]
fn query_filter_text() {
    let mut out = Vec::new();
    QueryFilter::new().push_text(&mut out);
    assert_eq!(out, b"\\clver\\0.20\\buildnum\\4000".to_vec());

    let mut f = QueryFilter::new();
    f.gamedir = Some(String::from("valve"));
    f.protocol = Some(48);
    let text = f.compose(Some(b"\\clver\\0.19"));
    assert_eq!(f.clver, None);
    assert_eq!(
        text,
        b"\\clver\\0.19\\buildnum\\4000\\protocol\\48\\gamedir\\valve".to_vec()
    );
    let mut f = QueryFilter::new();
    assert_eq!(
        f.compose(None),
        b"\\clver\\0.20\\buildnum\\4000".to_vec()
    );
}

#[test]
fn query_masters_and_protocols() {
    assert_eq!(master_address(b"mentality.rip"), b"mentality.rip:27010".to_vec());
    assert_eq!(master_address(b"ms2.mentality.rip:27011"), b"ms2.mentality.rip:27011".to_vec());
    assert_eq!(parse_protocol_list(b"49,48"), (vec![49, 48], false));
    assert_eq!(parse_protocol_list(b"49,x,+48"), (vec![49, 48], true));
    assert_eq!(parse_protocol_list(b"256"), (vec![], true));
}

#[test]
fn server_info_line() {
    let info = ServerInfo {
        gamedir: String::from("valve"),
        map: String::from("crossfire"),
        host: String::from("Test"),
        protocol: 48,
        numcl: 3,
        maxcl: 16,
        dm: true,
        team: false,
        coop: false,
        password: true,
        dedicated: true,
    };
    let cli = Cli {
        masters: vec![],
        args: vec![],
        master_timeout: 2,
        server_timeout: 2,
        protocol: vec![49, 48],
        json: false,
        debug: false,
        force_color: false,
        filter: String::new(),
        key: None,
    };
    let p = info.printer(&cli);
    assert_eq!(&p.flags(), b"d--pD");
    let line = p.line(b"Test");
    assert_eq!(
        String::from_utf8(line).unwrap(),
        "d--pD  3/16 valve    crossfire          \"Test\""
    );
    let c = Colored::new("^1red", true);
    assert!(c.forced);
}

#[test]
fn observer_reads_master_list() {

    let servers = vec![SocketAddrV4::new(0x01020304, 27001), SocketAddrV4::new(0x01020304, 27002)];
    let mut buf = [0; 512];
    let packets = encode_server_list(Some(77), &servers, &mut buf).unwrap();
    assert_eq!(packets.len(), 1);
    assert_eq!(
        servers_from_master(&packets[0], 77, false),
        Ok(Some(servers.iter().map(|a| SocketAddr::V4(*a)).collect()))
    );
    // a reply for another request is ignored
    assert_eq!(servers_from_master(&packets[0], 78, false), Ok(None));
    let packets = encode_server_list(None, &servers, &mut buf).unwrap();
    assert_eq!(servers_from_master(&packets[0], 77, false), Ok(None));
    // anything else is no list
    assert!(servers_from_master(b"\xff\xff\xff\xffinfo", 77, false).is_err());
}

#[test]
fn server_result_details() {

    let info = ServerInfo {
        gamedir: String::from("valve"),
        map: String::from("c1a0"),
        host: String::from("h"),
        protocol: 49,
        numcl: 0,
        maxcl: 32,
        dm: false,
        team: true,
        coop: false,
        password: false,
        dedicated: true,
    };
    let text = String::from_utf8(ServerResultKind::Info { info }.details(b"Host")).unwrap();
    assert_eq!(
        text,
        "    status: \"ok\"\n    host: \"Host\"\n    gamedir: \"valve\"\n    map: \"c1a0\"\n    protocol: \"49\"\n    numcl: \"0\"\n    maxcl: \"32\"\n    dm: \"false\"\n    team: \"true\"\n    coop: \"false\"\n    password: \"false\"\n"
    );
    assert_eq!(
        ServerResultKind::Timeout.details(b""),
        b"    status: \"timeout\"\n".to_vec()
    );
    let r = ServerResultKind::InvalidPacket {
        message: String::from("bad"),
        response: String::from("xyz"),
    };
    assert_eq!(
        String::from_utf8(r.details(b"")).unwrap(),
        "    status: \"invalid\"\n    message: \"bad\"\n    response: \"xyz\"\n"
    );
}

#[test]
fn observer_state_steps() {
    let m = SocketAddr::V4(SocketAddrV4::new(0x7f000001, 27010));
    let s1 = SocketAddr::V4(SocketAddrV4::new(0x0a000001, 27015));
    let s2 = SocketAddr::V4(SocketAddrV4::new(0x0a000002, 27015));
    let mut st = ObserverState::new(b"\\nat\\0".to_vec(), vec![Master::new(m)], 1000);
    assert_eq!(st.get_master(m), Some(0));
    assert_eq!(st.get_master(s1), None);
    assert_eq!(st.first_event_time(), 1000);

    // everything is due at the start, the cleanup later
    assert_eq!(st.schedule(1000), (true, true, false));
    assert_eq!(st.master_time, 9000);
    assert_eq!(st.server_time, 3000);

    let reqs = st.query_masters(&[true]);
    assert_eq!(reqs.len(), 1);
    assert_eq!(reqs[0].0, m);
    let q = QueryServers::decode(&reqs[0].1).unwrap();
    assert_eq!(q.filter, format!("\\nat\\0\\key\\{:x}", st.masters[0].key).as_bytes());
    assert!(st.query_masters(&[false]).is_empty());

    // servers listed by the master
    assert_eq!(
        st.handle_server_from_master(s1, true),
        Some(ServerEvent::Query(s1, PROTOCOL_VERSION))
    );
    assert_eq!(st.handle_server_from_master(s1, true), None);
    assert_eq!(st.handle_server_from_master(s2, false), None);
    assert!(st.servers.contains(s1) && !st.servers.contains(s2));

    // the first info of s1
    assert_eq!(
        st.servers.on_info(s1, b"info", 1010),
        Some(InfoEvent::Update { is_new: true, ping: 10 })
    );
    assert_eq!(st.servers.on_info(s2, b"info", 1010), None);

    // the periodic turn: s1 is idle and asked again, s2 (an extra server) is new
    st.schedule(3000);
    let events = st.query_info_all(&[s2]);
    assert!(events.contains(&ServerEvent::Query(s1, PROTOCOL_VERSION)));
    assert!(events.contains(&ServerEvent::Query(s2, PROTOCOL_VERSION)));
    assert!(!events.contains(&ServerEvent::Timeout(s1)));
    // s1 did not answer: the next turn reports a timeout
    st.schedule(5000);
    let events = st.query_info_all(&[]);
    assert!(events.contains(&ServerEvent::Timeout(s1)));

    // s2 answers in an unknown protocol twice: it is given up
    assert_eq!(st.servers.on_invalid_protocol(s2, 5001), Some(ProtocolEvent::Retry));
    assert_eq!(st.servers.protocol(s2), Some(PROTOCOL_VERSION - 1));
    assert_eq!(st.servers.on_invalid_protocol(s2, 5002), Some(ProtocolEvent::GiveUp(2002)));
    assert!(!st.servers.contains(s2));
    assert_eq!(st.servers.pending(), Vec::<SocketAddr>::new());

    // s1 is dropped once silent for the timeout
    st.schedule(5000 + SERVER_TIMEOUT);
    assert_eq!(st.cleanup(), vec![s1]);
    assert!(!st.servers.contains(s1));
}

#[test]
fn server_addresses_sorted_once() {
    let args: Vec<String> = ["127.0.0.1:27015", "10.0.0.1:5", "[::1]:80", "127.0.0.1:27015", "10.0.0.1:4"]
        .iter()
        .map(|s| s.to_string())
        .collect();
    let list = parse_server_addresses(&args).unwrap();
    assert_eq!(
        list,
        vec![
            SocketAddr::V4(SocketAddrV4::new(0x0a000001, 4)),
            SocketAddr::V4(SocketAddrV4::new(0x0a000001, 5)),
            SocketAddr::V4(SocketAddrV4::new(0x7f000001, 27015)),
            SocketAddr::V6(SocketAddrV6::new(1, 80, 0, 0)),
        ]
    );
    // one address that does not parse fails the whole list
    let bad: Vec<String> = vec!["10.0.0.1:5".to_string(), "10.0.0.1".to_string()];
    assert_eq!(parse_server_addresses(&bad), None);
    assert_eq!(parse_server_addresses(&[]), Some(vec![]));
}

#[test]
fn socket_address_order() {
    let a = SocketAddr::V4(SocketAddrV4::new(0xffffffff, 65535));
    let b = SocketAddr::V6(SocketAddrV6::new(0, 0, 0, 0));
    let c = SocketAddr::V6(SocketAddrV6::new(0, 0, 0, 1));
    assert!(addr_less(&a, &b));
    assert!(!addr_less(&b, &a));
    assert!(addr_less(&b, &c));
    assert!(!addr_less(&c, &c));
    assert_eq!(sorted_unique(&[c, a, b, a, c]), vec![a, b, c]);
}

fn no_options() -> CliOptions {
    CliOptions {
        master: None,
        master_timeout: None,
        server_timeout: None,
        protocol: None,
        filter: None,
        filter_clver: None,
        filter_buildnum: None,
        filter_gamedir: None,
        filter_map: None,
        json: false,
        debug: false,
        force_color: false,
        key: false,
        free: vec![],
    }
}

#[test]
fn query_cli_defaults() {
    let cli = Cli::from_options(no_options()).unwrap();
    assert_eq!(
        cli.masters,
        vec![
            "mentality.rip:27010".to_string(),
            "ms2.mentality.rip:27010".to_string(),
            "ms3.mentality.rip:27010".to_string(),
            "mentality.rip:27011".to_string(),
        ]
    );
    assert_eq!(cli.master_timeout, 2);
    assert_eq!(cli.server_timeout, 2);
    assert_eq!(cli.protocol, vec![49, 48]);
    assert_eq!(cli.filter, "\\clver\\0.20\\buildnum\\4000");
    assert_eq!(cli.key, None);
    assert!(!cli.json && !cli.debug && !cli.force_color);
}

#[test]
fn query_cli_options() {
    let mut o = no_options();
    o.master = Some("a.example,b.example:27011".to_string());
    o.master_timeout = Some("5".to_string());
    o.server_timeout = Some("+7".to_string());
    o.protocol = Some("48,49".to_string());
    o.filter = Some("\\nat\\0\\clver\\0.19".to_string());
    o.filter_buildnum = Some("none".to_string());
    o.filter_gamedir = Some("valve".to_string());
    o.filter_map = Some("map".to_string());
    o.json = true;
    o.free = vec!["info".to_string(), "127.0.0.1:27015".to_string()];
    let cli = Cli::from_options(o).unwrap();
    assert_eq!(cli.masters, vec!["a.example:27010".to_string(), "b.example:27011".to_string()]);
    assert_eq!(cli.master_timeout, 5);
    assert_eq!(cli.server_timeout, 7);
    assert_eq!(cli.protocol, vec![48, 49]);
    assert_eq!(cli.filter, "\\nat\\0\\clver\\0.19\\gamedir\\valve");
    assert!(cli.json);
    assert_eq!(cli.args, vec!["info".to_string(), "127.0.0.1:27015".to_string()]);

    // explicit settings after a user filter
    let mut o = no_options();
    o.filter = Some("\\buildnum\\1".to_string());
    o.filter_clver = Some(("0.21".to_string(), Some(Version::new(0, 21))));
    o.filter_buildnum = Some("4100".to_string());
    o.filter_gamedir = Some("all".to_string());
    o.filter_map = Some("crossfire".to_string());
    let cli = Cli::from_options(o).unwrap();
    assert_eq!(cli.filter, "\\buildnum\\1\\clver\\0.21\\buildnum\\4100\\map\\crossfire");

    // `none` clears the client version
    let mut o = no_options();
    o.filter_clver = Some(("none".to_string(), None));
    let cli = Cli::from_options(o).unwrap();
    assert_eq!(cli.filter, "\\buildnum\\4000");
}

#[test]
fn query_cli_errors() {
    let mut o = no_options();
    o.master_timeout = Some("x".to_string());
    o.server_timeout = Some("y".to_string());
    assert_eq!(Cli::from_options(o).unwrap_err(), CliError::InvalidMasterTimeout);
    let mut o = no_options();
    o.server_timeout = Some("-1".to_string());
    assert_eq!(Cli::from_options(o).unwrap_err(), CliError::InvalidServerTimeout);
    let mut o = no_options();
    o.protocol = Some("48,abc".to_string());
    assert_eq!(Cli::from_options(o).unwrap_err(), CliError::InvalidProtocol);
    let mut o = no_options();
    o.filter_clver = Some(("0.x".to_string(), None));
    assert_eq!(Cli::from_options(o).unwrap_err(), CliError::InvalidFilterClver);
    let mut o = no_options();
    o.filter_buildnum = Some("4294967296".to_string());
    assert_eq!(Cli::from_options(o).unwrap_err(), CliError::InvalidFilterBuildnum);
    assert_eq!(CliError::InvalidMasterTimeout.message(), "Invalid master-timeout");
}

#[test]
fn query_cli_key() {
    let mut o = no_options();
    o.key = true;
    let cli = Cli::from_options(o).unwrap();
    let k = cli.key.unwrap();
    assert_eq!(cli.filter, format!("\\clver\\0.20\\buildnum\\4000\\key\\{k:x}"));
}

#[test]
fn observer_masters_of_socket_family() {
    let v4 = |ip: u32| SocketAddr::V4(SocketAddrV4::new(ip, 27010));
    let v6 = |ip: u128| SocketAddr::V6(SocketAddrV6::new(ip, 27010, 0, 0));
    let resolved = vec![vec![v6(1), v4(2), v4(3)], vec![v6(4)], vec![v4(5)], vec![]];
    let masters = select_masters(&resolved, true);
    let addrs: Vec<SocketAddr> = masters.iter().map(|m| m.addr).collect();
    assert_eq!(addrs, vec![v4(2), v4(5)]);
    assert!(masters.iter().all(|m| m.key == 0));
    let masters = select_masters(&resolved, false);
    let addrs: Vec<SocketAddr> = masters.iter().map(|m| m.addr).collect();
    assert_eq!(addrs, vec![v6(1), v6(4)]);
}

#[test]
fn collect_server_info_custom_servers() {
    let cli = Cli::from_options(no_options()).unwrap();
    let v4 = |ip: u32| SocketAddr::V4(SocketAddrV4::new(ip, 27015));
    let mut c: CollectServerInfo<String> = CollectServerInfo::new(&cli, vec![v4(2), v4(1), v4(2)], 1000);
    assert_eq!(c.extra_servers(), &[v4(2), v4(1), v4(2)]);
    // nothing answered yet, the two seconds are not over
    assert!(!c.stop_observer(3000));
    assert!(c.stop_observer(3001));
    // a server with no result is asked; one with a result is not
    assert!(c.query_info_for_server(v4(3)));
    c.insert(v4(2), "two".to_string());
    assert!(!c.query_info_for_server(v4(2)));
    assert_eq!(c.extra_servers(), &[v4(1)]);
    assert!(!c.stop_observer(1500));
    c.insert(v4(1), "one".to_string());
    c.insert(v4(3), "three".to_string());
    // every server awaited has answered
    assert!(c.stop_observer(1500));
    c.insert(v4(1), "one again".to_string());
    assert_eq!(
        c.into_sorted(),
        vec![(v4(1), "one again".to_string()), (v4(2), "two".to_string()), (v4(3), "three".to_string())]
    );
}

#[test]
fn collect_server_info_from_masters() {
    let mut o = no_options();
    o.master_timeout = Some("5".to_string());
    o.server_timeout = Some("3".to_string());
    let cli = Cli::from_options(o).unwrap();
    let c: CollectServerInfo<u8> = CollectServerInfo::new(&cli, vec![], 0);
    // without servers given, the longer of the two timeouts counts
    assert!(!c.stop_observer(5000));
    assert!(c.stop_observer(5001));
    assert!(c.into_sorted().is_empty());
}

#[test]
fn server_addresses_order_free() {
    let a: Vec<String> = vec!["10.0.0.2:1".to_string(), "[::2]:5".to_string(), "10.0.0.2:1".to_string()];
    let b: Vec<String> = vec!["[::2]:5".to_string(), "10.0.0.2:1".to_string()];
    assert_eq!(parse_server_addresses(&a), parse_server_addresses(&b));
}

fn monitor_info(map: &str, numcl: u8) -> ServerInfo {
    ServerInfo {
        gamedir: "valve".to_string(),
        map: map.to_string(),
        host: "Test".to_string(),
        protocol: 49,
        numcl,
        maxcl: 32,
        dm: true,
        team: false,
        coop: false,
        password: false,
        dedicated: true,
    }
}

#[test]
fn monitor_shows_changes() {
    let a = SocketAddr::V4(SocketAddrV4::new(0x7f000001, 27015));
    let b = SocketAddr::V4(SocketAddrV4::new(0x7f000001, 27016));
    let mut m = Monitor::new();
    // a new server shows nothing before
    assert!(m.server_update(a, monitor_info("crossfire", 1)).is_none());
    assert!(m.server_update(b, monitor_info("stalkyard", 0)).is_none());
    // an update gives back what the server showed before
    let old = m.server_update(a, monitor_info("boot_camp", 2)).unwrap();
    assert_eq!(old.map, "crossfire");
    assert_eq!(old.numcl, 1);
    m.server_remove(a);
    // after removal the server is new again
    assert!(m.server_update(a, monitor_info("datacore", 3)).is_none());
    let old = m.server_update(b, monitor_info("stalkyard", 4)).unwrap();
    assert_eq!(old.numcl, 0);
}

#[test]
fn monitor_gone_line_format() {
    let a = SocketAddr::V4(SocketAddrV4::new(0x7f000001, 27015));
    let line = monitor_gone_line_exec(&a, b"d---D  0/32 valve    crossfire          \"Test\"");
    let expected = format!("{:24} --- {:>7} {}", "127.0.0.1:27015", ' ', "d---D  0/32 valve    crossfire          \"Test\"");
    assert_eq!(line, expected.into_bytes());
}

#[test]
fn query_command_dispatch() {
    let args = |v: &[&str]| -> Vec<String> { v.iter().map(|s| s.to_string()).collect() };
    assert!(matches!(query_command(&args(&[])), Ok(QueryCommand::All)));
    assert!(matches!(query_command(&args(&[""])), Ok(QueryCommand::All)));
    assert!(matches!(query_command(&args(&["all"])), Ok(QueryCommand::All)));
    assert!(matches!(query_command(&args(&["list"])), Ok(QueryCommand::List)));
    match query_command(&args(&["info", "10.0.0.2:1", "10.0.0.1:1"])) {
        Ok(QueryCommand::Info(l)) => assert_eq!(
            l,
            vec![SocketAddr::V4(SocketAddrV4::new(0x0a000001, 1)), SocketAddr::V4(SocketAddrV4::new(0x0a000002, 1))]
        ),
        _ => panic!("expected info"),
    }
    match query_command(&args(&["monitor"])) {
        Ok(QueryCommand::Monitor(l)) => assert!(l.is_empty()),
        _ => panic!("expected monitor"),
    }
    assert_eq!(query_command(&args(&["info", "nowhere"])).unwrap_err(), QueryCommandError::InvalidAddress);
    assert_eq!(query_command(&args(&["fetch"])).unwrap_err(), QueryCommandError::UndefinedCommand);
}

#[test]
fn server_list_plain_lines() {
    let list = vec![
        SocketAddr::V4(SocketAddrV4::new(0x0a000001, 27015)),
        SocketAddr::V6(SocketAddrV6::new(1, 27016, 0, 0)),
    ];
    assert_eq!(print_address_lines(&list), b"10.0.0.1:27015\n[::1]:27016\n".to_vec());
    assert!(print_address_lines(&[]).is_empty());
}

#[test]
fn query_cli_from_args() {
    let args = |v: &[&str]| -> Vec<String> { v.iter().map(|s| s.to_string()).collect() };
    let cli = cli_from_args(&args(&["-M", "a.example", "--filter-clver", "0.21", "-j", "info", "1.2.3.4:5"])).unwrap();
    assert_eq!(cli.masters, vec!["a.example:27010".to_string()]);
    assert_eq!(cli.filter, "\\clver\\0.21\\buildnum\\4000");
    assert!(cli.json);
    assert_eq!(cli.args, args(&["info", "1.2.3.4:5"]));
    let cli = cli_from_args(&args(&[])).unwrap();
    assert_eq!(cli.master_timeout, 2);
    assert_eq!(cli_from_args(&args(&["--help"])).unwrap_err(), CliError::HelpRequested);
    assert_eq!(cli_from_args(&args(&["-v"])).unwrap_err(), CliError::VersionRequested);
    assert_eq!(cli_from_args(&args(&["--bogus"])).unwrap_err(), CliError::InvalidArguments);
    assert_eq!(cli_from_args(&args(&["-T"])).unwrap_err(), CliError::InvalidArguments);
    assert_eq!(cli_from_args(&args(&["-V", "0.x"])).unwrap_err(), CliError::InvalidFilterClver);
    assert_eq!(cli_from_args(&args(&["-T", "soon"])).unwrap_err(), CliError::InvalidMasterTimeout);
}

#[test]
fn version_text_parse() {
    assert_eq!(parse_version(b"0.20"), Some(Version::new(0, 20)));
    assert_eq!(parse_version(b"1.2.3"), Some(Version::with_patch(1, 2, 3)));
    assert_eq!(parse_version(b"1"), None);
    assert_eq!(parse_version(b"1.2.3.4"), None);
    assert_eq!(parse_version(b"1.256"), None);
}

#[test]
fn server_block_format() {
    let a = SocketAddr::V4(SocketAddrV4::new(0x7f000001, 27015));
    let kind = ServerResultKind::Timeout;
    let block = server_block_text(&a, b" [1.234 ms]", &kind, b"");
    let details = kind.details(b"");
    let mut expected = b"server: 127.0.0.1:27015 [1.234 ms]\n".to_vec();
    expected.extend_from_slice(&details);
    expected.push(b'\n');
    assert_eq!(block, expected);
    assert_eq!(details, b"    status: \"timeout\"\n".to_vec());
}

#[test]
fn observer_builder_default() {
    let b: ObserverBuilder = Default::default();
    assert_eq!(b.build_filter(), ObserverBuilder::with_default_client_version().build_filter());
}
