//! The decisions of an observer, a client that keeps asking master servers for game servers
//! and game servers for their info. Times are in milliseconds of a monotonic clock.

use vstd::prelude::*;
use vstd::string::StringSliceAdditionalSpecFns;

use crate::error::Error;
use crate::filter::{client_version, default_client_version, version_text, Version};
use crate::game::{spec_encode_query_servers, QueryServers, QueryServersView, Region};
use crate::master::{addr_items, spec_decode_query_servers_response, QueryServersResponse, ServerAddress};
use crate::net::{SocketAddr, SocketAddrV4, SocketAddrV6};
use crate::text::{dec, hex, push_dec, push_hex};

verus! {

/// The protocol version that servers are asked first.
pub const PROTOCOL_VERSION: u8 = 49;

/// How often master servers are asked for servers.
pub const MASTER_INTERVAL: u64 = 8000;

/// How often servers are asked for their info.
pub const SERVER_INTERVAL: u64 = 2000;

/// After how long a server that does not answer is dropped.
pub const SERVER_TIMEOUT: u64 = 16000;

/// How often servers that stopped answering are dropped.
pub const SERVER_CLEAN_INTERVAL: u64 = 16000;

/// The next time a periodic task is due: one interval after the last due time, or one
/// interval from now when that has already passed.
pub open spec fn spec_update_time(now: u64, time: u64, interval: u64) -> int {
    if time + interval <= now {
        now + interval
    } else {
        time + interval
    }
}

/// The next time a periodic task that was due at `time` is due.
pub fn update_time(now: u64, time: u64, interval: u64) -> (r: u64)
    requires
        time + interval <= u64::MAX,
        now + interval <= u64::MAX,
    ensures
        r == spec_update_time(now, time, interval),
{
    let t = time + interval;
    if t <= now {
        now + interval
    } else {
        t
    }
}

/// A periodic task is never due again before an interval has passed from now or from its
/// last due time, and never later than one interval from now when it is behind.
pub proof fn lemma_update_time(now: u64, time: u64, interval: u64)
    ensures
        spec_update_time(now, time, interval) > now || interval == 0,
        spec_update_time(now, time, interval) >= time + interval,
        time <= now ==> spec_update_time(now, time, interval) <= now + interval,
{
}

/// Where the exchange with a game server stands.
#[derive(Clone, Copy, Debug, PartialEq, Eq, Structural)]
pub enum ConnectionState {
    /// Server protocol version is not known yet.
    ProtocolDetection,
    /// No input is expected from a server.
    Idle,
    /// Waiting for info from a server.
    WaitingInfo,
}

/// The time elapsed from `from` to `now`, zero when the clock reads earlier.
pub open spec fn elapsed(now: u64, from: u64) -> u64 {
    if now >= from {
        (now - from) as u64
    } else {
        0
    }
}

/// An observed game server.
#[derive(Debug)]
pub struct Connection {
    /// The protocol version that the server is asked in.
    pub protocol: u8,
    /// Where the exchange stands.
    pub state: ConnectionState,
    /// When the server was last asked.
    pub time: u64,
    /// The last info packet received from the server.
    pub data: Vec<u8>,
}

/// The view of an observed server: the fields, the last info as bytes.
pub struct ConnectionView {
    pub protocol: u8,
    pub state: ConnectionState,
    pub time: u64,
    pub data: Seq<u8>,
}

impl View for Connection {
    type V = ConnectionView;

    open spec fn view(&self) -> ConnectionView {
        ConnectionView { protocol: self.protocol, state: self.state, time: self.time, data: self.data@ }
    }
}

/// Whether a server was asked less than the timeout before `now`.
pub open spec fn conn_valid(c: ConnectionView, now: u64) -> bool {
    elapsed(now, c.time) < SERVER_TIMEOUT
}

/// A server after its periodic turn at `now`; see `Connection::on_query_tick`.
pub open spec fn after_query_tick(c: ConnectionView, now: u64) -> ConnectionView {
    if c.state == ConnectionState::ProtocolDetection {
        c
    } else {
        ConnectionView { state: ConnectionState::WaitingInfo, time: now, ..c }
    }
}

/// A server first heard of at `now`.
pub open spec fn new_conn(now: u64) -> ConnectionView {
    ConnectionView { protocol: PROTOCOL_VERSION, state: ConnectionState::ProtocolDetection, time: now, data: Seq::empty() }
}

/// What an info packet `buf` from a server in exchange `c` means at `now`: nothing when
/// the server is idle; else a change (new while the protocol was being detected) or the same
/// info again, after the time since it was asked.
pub open spec fn info_event(c: ConnectionView, buf: Seq<u8>, now: u64) -> InfoEvent {
    if c.state == ConnectionState::Idle {
        InfoEvent::Ignored
    } else if c.data != buf {
        InfoEvent::Update { is_new: c.state == ConnectionState::ProtocolDetection, ping: elapsed(now, c.time) }
    } else {
        InfoEvent::Ping(elapsed(now, c.time))
    }
}

/// The exchange after an info packet `buf`: an idle server stays as it was; else it keeps
/// the info and becomes idle.
pub open spec fn after_info(c: ConnectionView, buf: Seq<u8>) -> ConnectionView {
    if c.state == ConnectionState::Idle {
        c
    } else {
        ConnectionView { state: ConnectionState::Idle, data: buf, ..c }
    }
}

/// What a reply of an unknown protocol version means at `now`: a retry in the previous
/// version while the first one is being detected, else giving up.
pub open spec fn protocol_event(c: ConnectionView, now: u64) -> ProtocolEvent {
    if c.state == ConnectionState::ProtocolDetection && c.protocol == PROTOCOL_VERSION {
        ProtocolEvent::Retry
    } else {
        ProtocolEvent::GiveUp(elapsed(now, c.time))
    }
}

/// The exchange after a reply of an unknown protocol version.
pub open spec fn after_invalid_protocol(c: ConnectionView) -> ConnectionView {
    if c.state == ConnectionState::ProtocolDetection && c.protocol == PROTOCOL_VERSION {
        ConnectionView { protocol: (PROTOCOL_VERSION - 1) as u8, ..c }
    } else {
        c
    }
}

/// What an info packet from a server means to the observer.
#[derive(Clone, Copy, Debug, PartialEq, Eq, Structural)]
pub enum InfoEvent {
    /// The info changed (or came for the first time, when `is_new`), after `ping`.
    Update { is_new: bool, ping: u64 },
    /// The same info came again, after `ping`.
    Ping(u64),
    /// No info was expected.
    Ignored,
}

/// What a reply of an unknown protocol version means to the observer.
#[derive(Clone, Copy, Debug, PartialEq, Eq, Structural)]
pub enum ProtocolEvent {
    /// Ask again in the previous protocol version.
    Retry,
    /// Give up on the server, which answered after `ping`.
    GiveUp(u64),
}

impl Connection {
    /// A server first heard of at `now`.
    pub fn new(now: u64) -> (r: Self)
        ensures
            r.protocol == PROTOCOL_VERSION,
            r.state == ConnectionState::ProtocolDetection,
            r.time == now,
            r.data@.len() == 0,
    {
        Connection { protocol: PROTOCOL_VERSION, state: ConnectionState::ProtocolDetection, time: now, data: Vec::new() }
    }

    /// Whether the server was asked less than the timeout ago.
    pub fn is_valid(&self, now: u64) -> (r: bool)
        ensures
            r == (elapsed(now, self.time) < SERVER_TIMEOUT),
    {
        self.ping(now) < SERVER_TIMEOUT
    }

    /// The time since the server was last asked.
    pub fn ping(&self, now: u64) -> (r: u64)
        ensures
            r == elapsed(now, self.time),
    {
        if now >= self.time {
            now - self.time
        } else {
            0
        }
    }

    /// Whether `buf` differs from the last info; it is kept as the last info.
    pub fn is_changed(&mut self, buf: &[u8]) -> (r: bool)
        ensures
            r == (old(self).data@ != buf@),
            final(self).data@ == buf@,
            final(self).protocol == old(self).protocol,
            final(self).state == old(self).state,
            final(self).time == old(self).time,
    {
        if !crate::udp_server::bytes_eq(self.data.as_slice(), buf) {
            self.data = vstd::slice::slice_to_vec(buf);
            true
        } else {
            false
        }
    }

    /// The request for info in the server's protocol version, made in `buf`.
    pub fn query_info<'b>(&self, buf: &'b mut [u8]) -> (r: Result<&'b [u8], Error>)
        ensures
            r is Ok <==> crate::game::spec_encode_get_server_info(self.protocol).len() <= old(buf)@.len(),
            r matches Ok(out) ==> out@ == crate::game::spec_encode_get_server_info(self.protocol),
    {
        crate::game::GetServerInfo::new(self.protocol).encode(buf)
    }

    /// The periodic turn of a server at `now`: a server that is idle or was waiting is asked
    /// again from now on (the result says whether it was waiting, which is a timeout); a
    /// server whose protocol is not known yet is asked again as it was.
    pub fn on_query_tick(&mut self, now: u64) -> (r: bool)
        ensures
            final(self)@ == after_query_tick(old(self)@, now),
            r == (old(self).state == ConnectionState::WaitingInfo),
            final(self).protocol == old(self).protocol,
            final(self).data == old(self).data,
            old(self).state == ConnectionState::ProtocolDetection ==> final(self).state == old(self).state
                && final(self).time == old(self).time,
            old(self).state != ConnectionState::ProtocolDetection ==> final(self).state
                == ConnectionState::WaitingInfo && final(self).time == now,
    {
        match self.state {
            ConnectionState::Idle | ConnectionState::WaitingInfo => {
                let timeout = self.state == ConnectionState::WaitingInfo;
                self.time = now;
                self.state = ConnectionState::WaitingInfo;
                timeout
            },
            ConnectionState::ProtocolDetection => false,
        }
    }

    /// An info packet `buf` from the server at `now`: expected while the protocol is being
    /// detected or info is awaited, after which the server is idle.
    pub fn on_info(&mut self, buf: &[u8], now: u64) -> (r: InfoEvent)
        ensures
            r == info_event(old(self)@, buf@, now),
            final(self)@ == after_info(old(self)@, buf@),
            final(self).protocol == old(self).protocol,
            final(self).time == old(self).time,
            old(self).state == ConnectionState::Idle ==> r == InfoEvent::Ignored && final(self).state
                == old(self).state && final(self).data == old(self).data,
            old(self).state != ConnectionState::Idle ==> {
                &&& final(self).state == ConnectionState::Idle
                &&& final(self).data@ == buf@
                &&& r == if old(self).data@ != buf@ {
                    InfoEvent::Update {
                        is_new: old(self).state == ConnectionState::ProtocolDetection,
                        ping: elapsed(now, old(self).time),
                    }
                } else {
                    InfoEvent::Ping(elapsed(now, old(self).time))
                }
            },
    {
        match self.state {
            ConnectionState::ProtocolDetection | ConnectionState::WaitingInfo => {
                let ping = self.ping(now);
                let is_new = self.state == ConnectionState::ProtocolDetection;
                let r = if self.is_changed(buf) {
                    InfoEvent::Update { is_new, ping }
                } else {
                    InfoEvent::Ping(ping)
                };
                self.state = ConnectionState::Idle;
                r
            },
            ConnectionState::Idle => InfoEvent::Ignored,
        }
    }

    /// A reply of an unknown protocol version from the server at `now`: while the protocol
    /// is being detected and the first version was asked, the previous version is tried;
    /// otherwise the server is given up.
    pub fn on_invalid_protocol(&mut self, now: u64) -> (r: ProtocolEvent)
        ensures
            r == protocol_event(old(self)@, now),
            final(self)@ == after_invalid_protocol(old(self)@),
            final(self).state == old(self).state,
            final(self).time == old(self).time,
            final(self).data == old(self).data,
            (old(self).state == ConnectionState::ProtocolDetection && old(self).protocol == PROTOCOL_VERSION)
                ==> r == ProtocolEvent::Retry && final(self).protocol == PROTOCOL_VERSION - 1,
            !(old(self).state == ConnectionState::ProtocolDetection && old(self).protocol == PROTOCOL_VERSION)
                ==> r == ProtocolEvent::GiveUp(elapsed(now, old(self).time)) && final(self).protocol == old(self).protocol,
    {
        if self.state == ConnectionState::ProtocolDetection && self.protocol == PROTOCOL_VERSION {
            self.protocol = self.protocol - 1;
            ProtocolEvent::Retry
        } else {
            ProtocolEvent::GiveUp(self.ping(now))
        }
    }
}

/// A server is asked in at most two protocol versions: after one retry it is given up.
pub proof fn lemma_protocol_detection_retries_once(protocol: u8)
    ensures
        protocol == PROTOCOL_VERSION ==> protocol - 1 != PROTOCOL_VERSION,
{
}

} // verus!

verus! {

/// `fastrand::u32(..)`: a random `u32`, from the thread's generator.
///
/// Nothing is claimed of the result: it is random.
#[verifier::external_body]
pub(crate) fn random_u32() -> u32 {
    fastrand::u32(..)
}

/// `\key\`
pub open spec fn key_word() -> Seq<u8> {
    seq![92u8, 107u8, 101u8, 121u8, 92u8]
}

/// The filter of a request with its key: the filter, `\key\` and the key in lowercase
/// hexadecimal.
pub open spec fn filter_with_key(filter: Seq<u8>, key: u32) -> Seq<u8> {
    filter + key_word() + hex(key as nat)
}

/// The server list request that an observer sends: any region, no last address, and the
/// filter with the key.
pub open spec fn observer_query(filter: Seq<u8>, key: u32) -> QueryServersView {
    QueryServersView {
        region: Region::RestOfTheWorld,
        last: SocketAddr::V4(SocketAddrV4 { ip: 0, port: 0 }),
        filter: filter_with_key(filter, key),
    }
}

/// The server list request with `filter` and `key`, made in `buf`.
pub fn encode_query_servers_with_key<'b>(filter: &[u8], key: u32, buf: &'b mut [u8]) -> (r: Result<&'b [u8], Error>)
    ensures
        r is Ok <==> spec_encode_query_servers(observer_query(filter@, key)).len() <= old(buf)@.len(),
        r matches Ok(out) ==> out@ == spec_encode_query_servers(observer_query(filter@, key)),
{
    let mut text: Vec<u8> = Vec::new();
    let mut i: usize = 0;
    while i < filter.len()
        invariant
            i <= filter@.len(),
            text@ == filter@.take(i as int),
        decreases filter.len() - i,
    {
        text.push(filter[i]);
        assert(text@ =~= filter@.take(i + 1));
        i = i + 1;
    }
    assert(filter@.take(filter@.len() as int) =~= filter@);
    let ghost t0 = text@;
    text.push(92);
    text.push(107);
    text.push(101);
    text.push(121);
    text.push(92);
    push_hex(&mut text, key);
    assert(text@ =~= filter_with_key(filter@, key));
    let packet = QueryServers {
        region: Region::RestOfTheWorld,
        last: SocketAddr::V4(SocketAddrV4 { ip: 0, port: 0 }),
        filter: text.as_slice(),
    };
    assert(packet@ == observer_query(filter@, key));
    packet.encode(buf)
}

/// A master server that an observer asks, and the key of its last request.
#[derive(Clone, Copy, Debug)]
pub struct Master {
    pub addr: SocketAddr,
    pub key: u32,
}

impl Master {
    /// A master server not asked yet.
    pub fn new(addr: SocketAddr) -> (r: Self)
        ensures
            r.addr == addr,
            r.key == 0,
    {
        Master { addr, key: 0 }
    }

    /// A server list request with `filter` and a fresh random key, which the master is to send
    /// back, made in `buf`.
    pub fn encode_query_servers_packet<'b>(&mut self, filter: &[u8], buf: &'b mut [u8]) -> (r: Result<&'b [u8], Error>)
        ensures
            final(self).addr == old(self).addr,
            r is Ok <==> spec_encode_query_servers(observer_query(filter@, final(self).key)).len() <= old(buf)@.len(),
            r matches Ok(out) ==> out@ == spec_encode_query_servers(observer_query(filter@, final(self).key)),
    {
        self.key = random_u32();
        encode_query_servers_with_key(filter, self.key, buf)
    }
}

/// A `\name\value` pair of a filter, when there is a value.
pub open spec fn filter_pair(name: Seq<u8>, value: Option<Seq<u8>>) -> Seq<u8> {
    match value {
        Some(v) => seq![92u8] + name + seq![92u8] + v,
        None => Seq::empty(),
    }
}

/// `clver`
pub open spec fn clver_word() -> Seq<u8> {
    seq![99u8, 108u8, 118u8, 101u8, 114u8]
}

/// `buildnum`
pub open spec fn buildnum_word() -> Seq<u8> {
    seq![98u8, 117u8, 105u8, 108u8, 100u8, 110u8, 117u8, 109u8]
}

/// `nat`
pub open spec fn nat_word() -> Seq<u8> {
    seq![110u8, 97u8, 116u8]
}

/// `gamedir`
pub open spec fn gamedir_word() -> Seq<u8> {
    seq![103u8, 97u8, 109u8, 101u8, 100u8, 105u8, 114u8]
}

/// The view of an observer builder: its settings, text as bytes.
pub struct ObserverBuilderView {
    pub client_version: Option<Version>,
    pub client_build_number: Option<u32>,
    pub gamedir: Option<Seq<u8>>,
    pub nat_flag: Option<bool>,
    pub filter: Option<Seq<u8>>,
}

/// The pairs of the client version, the build number and the NAT flag (`1` or `0`) that
/// are set, in this order.
pub open spec fn builder_numbers(b: ObserverBuilderView) -> Seq<u8> {
    filter_pair(clver_word(), match b.client_version {
        Some(v) => Some(version_text(v)),
        None => None,
    }) + filter_pair(buildnum_word(), match b.client_build_number {
        Some(n) => Some(dec(n as nat)),
        None => None,
    }) + filter_pair(nat_word(), match b.nat_flag {
        Some(n) => Some(if n { seq![49u8] } else { seq![48u8] }),
        None => None,
    })
}

/// The game directory pair, if set, then the extra filter text.
pub open spec fn builder_strings(b: ObserverBuilderView) -> Seq<u8> {
    filter_pair(gamedir_word(), b.gamedir) + match b.filter {
        Some(f) => f,
        None => Seq::empty(),
    }
}

/// The filter that an observer with these settings sends: the pairs of the client version,
/// the build number, the NAT flag and the game directory that are set, in this order, then
/// the extra filter text.
pub open spec fn builder_filter(b: ObserverBuilderView) -> Seq<u8> {
    builder_numbers(b) + builder_strings(b)
}

/// The settings of an observer.
#[derive(Clone, Copy, Debug)]
pub struct ObserverBuilder<'a> {
    client_version: Option<Version>,
    client_build_number: Option<u32>,
    gamedir: Option<&'a str>,
    nat_flag: Option<bool>,
    filter: Option<&'a str>,
}

impl<'a> View for ObserverBuilder<'a> {
    type V = ObserverBuilderView;

    closed spec fn view(&self) -> ObserverBuilderView {
        ObserverBuilderView {
            client_version: self.client_version,
            client_build_number: self.client_build_number,
            gamedir: match self.gamedir {
                Some(s) => Some(s.spec_bytes()),
                None => None,
            },
            nat_flag: self.nat_flag,
            filter: match self.filter {
                Some(s) => Some(s.spec_bytes()),
                None => None,
            },
        }
    }
}

/// Appends `\name\` to `out`.
fn push_pair_name(out: &mut Vec<u8>, name: &[u8])
    ensures
        final(out)@ == old(out)@ + seq![92u8] + name@ + seq![92u8],
{
    let ghost o = out@;
    out.push(92);
    let mut i: usize = 0;
    while i < name.len()
        invariant
            i <= name@.len(),
            out@ == o + seq![92u8] + name@.take(i as int),
        decreases name.len() - i,
    {
        out.push(name[i]);
        assert(name@.take(i + 1) =~= name@.take(i as int).push(name@[i as int]));
        assert(out@ =~= o + seq![92u8] + name@.take(i + 1));
        i = i + 1;
    }
    assert(name@.take(name@.len() as int) =~= name@);
    out.push(92);
    assert(out@ =~= o + seq![92u8] + name@ + seq![92u8]);
}

/// Appends the bytes of `s` to `out`.
fn push_bytes(out: &mut Vec<u8>, s: &[u8])
    ensures
        final(out)@ == old(out)@ + s@,
{
    let ghost o = out@;
    let mut i: usize = 0;
    while i < s.len()
        invariant
            i <= s@.len(),
            out@ == o + s@.take(i as int),
        decreases s.len() - i,
    {
        out.push(s[i]);
        assert(s@.take(i + 1) =~= s@.take(i as int).push(s@[i as int]));
        assert(out@ =~= o + s@.take(i + 1));
        i = i + 1;
    }
    assert(s@.take(s@.len() as int) =~= s@);
}

impl<'a> Default for ObserverBuilder<'a> {
    /// The builder with the default client version, as `with_default_client_version` makes.
    fn default() -> (r: Self)
        ensures
            r@.client_version == Some(client_version()),
            r@.client_build_number is None,
            r@.gamedir is None,
            r@.nat_flag is None,
            r@.filter is None,
    {
        Self::with_default_client_version()
    }
}

impl<'a> ObserverBuilder<'a> {
    /// Creates a new observer builder with the default client version.
    pub fn with_default_client_version() -> (r: Self)
        ensures
            r@.client_version == Some(client_version()),
            r@.client_build_number is None,
            r@.gamedir is None,
            r@.nat_flag is None,
            r@.filter is None,
    {
        ObserverBuilder {
            client_version: Some(default_client_version()),
            client_build_number: None,
            gamedir: None,
            nat_flag: None,
            filter: None,
        }
    }

    /// Creates a new observer builder.
    pub fn new() -> (r: Self)
        ensures
            r@.client_version is None,
            r@.client_build_number is None,
            r@.gamedir is None,
            r@.nat_flag is None,
            r@.filter is None,
    {
        ObserverBuilder { client_version: None, client_build_number: None, gamedir: None, nat_flag: None, filter: None }
    }

    /// Sets a client version for requests sent to master servers.
    pub fn client_version(self, version: Version) -> (r: Self)
        ensures
            r@ == (ObserverBuilderView { client_version: Some(version), ..self@ }),
    {
        ObserverBuilder { client_version: Some(version), ..self }
    }

    /// Sets a client build number for requests sent to master servers.
    pub fn client_build_number(self, build_number: u32) -> (r: Self)
        ensures
            r@ == (ObserverBuilderView { client_build_number: Some(build_number), ..self@ }),
    {
        ObserverBuilder { client_build_number: Some(build_number), ..self }
    }

    /// Sets the game directory that servers must have.
    pub fn gamedir(self, value: &'a str) -> (r: Self)
        ensures
            r@ == (ObserverBuilderView { gamedir: Some(value.spec_bytes()), ..self@ }),
    {
        ObserverBuilder { gamedir: Some(value), ..self }
    }

    /// Sets whether servers behind NAT are wanted.
    pub fn set_nat(self, value: bool) -> (r: Self)
        ensures
            r@ == (ObserverBuilderView { nat_flag: Some(value), ..self@ }),
    {
        ObserverBuilder { nat_flag: Some(value), ..self }
    }

    /// Sets extra filter text.
    pub fn filter(self, value: &'a str) -> (r: Self)
        ensures
            r@ == (ObserverBuilderView { filter: Some(value.spec_bytes()), ..self@ }),
    {
        ObserverBuilder { filter: Some(value), ..self }
    }

    /// Appends the numeric pairs of the filter to `out`.
    fn push_numbers(&self, out: &mut Vec<u8>)
        ensures
            final(out)@ == old(out)@ + builder_numbers(self@),
    {
        let ghost o = out@;
        let clver: [u8; 5] = [99, 108, 118, 101, 114];
        let buildnum: [u8; 8] = [98, 117, 105, 108, 100, 110, 117, 109];
        let nat_name: [u8; 3] = [110, 97, 116];
        proof {
            assert(clver@ =~= clver_word());
            assert(buildnum@ =~= buildnum_word());
            assert(nat_name@ =~= nat_word());
        }
        let ghost v = self@;
        let ghost p1 = filter_pair(clver_word(), match v.client_version {
            Some(x) => Some(version_text(x)),
            None => None,
        });
        let ghost p2 = filter_pair(buildnum_word(), match v.client_build_number {
            Some(n) => Some(dec(n as nat)),
            None => None,
        });
        if let Some(version) = self.client_version {
            push_pair_name(out, &clver);
            version.push_text(out);
        }
        assert(out@ =~= o + p1);
        if let Some(n) = self.client_build_number {
            push_pair_name(out, &buildnum);
            push_dec(out, n);
        }
        assert(out@ =~= o + p1 + p2);
        if let Some(n) = self.nat_flag {
            push_pair_name(out, &nat_name);
            out.push(if n { 49u8 } else { 48u8 });
        }
        assert(out@ =~= o + builder_numbers(self@));
    }

    /// Appends the game directory pair and the extra filter text to `out`.
    fn push_strings(&self, out: &mut Vec<u8>)
        ensures
            final(out)@ == old(out)@ + builder_strings(self@),
    {
        let ghost o = out@;
        let gamedir: [u8; 7] = [103, 97, 109, 101, 100, 105, 114];
        proof {
            assert(gamedir@ =~= gamedir_word());
        }
        if let Some(g) = self.gamedir {
            push_pair_name(out, &gamedir);
            push_bytes(out, g.as_bytes());
        }
        assert(out@ =~= o + filter_pair(gamedir_word(), self@.gamedir));
        if let Some(f) = self.filter {
            push_bytes(out, f.as_bytes());
        }
        assert(out@ =~= o + builder_strings(self@));
    }

    /// The filter that the observer sends to master servers.
    pub fn build_filter(&self) -> (r: Vec<u8>)
        ensures
            r@ == builder_filter(self@),
    {
        let mut out: Vec<u8> = Vec::new();
        self.push_numbers(&mut out);
        self.push_strings(&mut out);
        assert(out@ =~= builder_filter(self@));
        out
    }
}

} // verus!

verus! {

/// Reads every address of a server list, in order.
pub fn collect_addrs<A: ServerAddress>(resp: &QueryServersResponse<&[u8]>) -> (r: Vec<A>)
    ensures
        r@ == addr_items::<A>(resp@.0),
{
    let mut it = resp.iter::<A>();
    let mut out: Vec<A> = Vec::new();
    proof {
        A::lemma_bytes(arbitrary(), Seq::empty());
    }
    loop
        invariant
            out@ + addr_items::<A>(it@) == addr_items::<A>(resp@.0),
            6 <= A::spec_size() <= 64,
        decreases it@.len(),
    {
        let ghost before = it@;
        match it.next() {
            Some(a) => {
                assert(addr_items::<A>(before) == seq![a] + addr_items::<A>(it@));
                assert(out@.push(a) + addr_items::<A>(it@) =~= out@ + addr_items::<A>(before));
                out.push(a);
            },
            None => {
                assert(addr_items::<A>(before) =~= Seq::<A>::empty());
                assert(out@ + addr_items::<A>(before) =~= out@);
                return out;
            },
        }
    }
}

/// The servers that a master's reply lists, when it carries the key of the request; the
/// addresses are IPv6 ones when `v6`.
pub open spec fn spec_servers_from_master(s: Seq<u8>, key: u32, v6: bool) -> Result<Option<Seq<SocketAddr>>, Error> {
    match spec_decode_query_servers_response(s) {
        Err(e) => Err(e),
        Ok((inner, k)) => if k != Some(key) {
            Ok(None)
        } else if v6 {
            Ok(Some(addr_items::<SocketAddrV6>(inner).map_values(|a: SocketAddrV6| SocketAddr::V6(a))))
        } else {
            Ok(Some(addr_items::<SocketAddrV4>(inner).map_values(|a: SocketAddrV4| SocketAddr::V4(a))))
        },
    }
}

/// The servers that a master's reply `buf` lists: `None` when it does not carry the key of
/// the request, which is then ignored; an error when it is no server list.
pub fn servers_from_master(buf: &[u8], key: u32, v6: bool) -> (r: Result<Option<Vec<SocketAddr>>, Error>)
    ensures
        match r {
            Ok(Some(v)) => spec_servers_from_master(buf@, key, v6) == Ok::<Option<Seq<SocketAddr>>, Error>(Some(v@)),
            Ok(None) => spec_servers_from_master(buf@, key, v6) == Ok::<Option<Seq<SocketAddr>>, Error>(None),
            Err(e) => spec_servers_from_master(buf@, key, v6) == Err::<Option<Seq<SocketAddr>>, Error>(e),
        },
{
    let resp = match QueryServersResponse::decode(buf) {
        Ok(x) => x,
        Err(e) => return Err(e),
    };
    match resp.key() {
        Some(k) => {
            if k != key {
                return Ok(None);
            }
        },
        None => return Ok(None),
    }
    let mut out: Vec<SocketAddr> = Vec::new();
    if v6 {
        let l = collect_addrs::<SocketAddrV6>(&resp);
        let mut i: usize = 0;
        while i < l.len()
            invariant
                i <= l@.len(),
                out@ == l@.take(i as int).map_values(|a: SocketAddrV6| SocketAddr::V6(a)),
            decreases l.len() - i,
        {
            out.push(SocketAddr::V6(l[i]));
            assert(l@.take(i + 1) =~= l@.take(i as int).push(l@[i as int]));
            assert(out@ =~= l@.take(i + 1).map_values(|a: SocketAddrV6| SocketAddr::V6(a)));
            i = i + 1;
        }
        assert(l@.take(l@.len() as int) =~= l@);
    } else {
        let l = collect_addrs::<SocketAddrV4>(&resp);
        let mut i: usize = 0;
        while i < l.len()
            invariant
                i <= l@.len(),
                out@ == l@.take(i as int).map_values(|a: SocketAddrV4| SocketAddr::V4(a)),
            decreases l.len() - i,
        {
            out.push(SocketAddr::V4(l[i]));
            assert(l@.take(i + 1) =~= l@.take(i as int).push(l@[i as int]));
            assert(out@ =~= l@.take(i + 1).map_values(|a: SocketAddrV4| SocketAddr::V4(a)));
            i = i + 1;
        }
        assert(l@.take(l@.len() as int) =~= l@);
    }
    Ok(Some(out))
}

} // verus!
