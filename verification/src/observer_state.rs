//! The state of an observer between its exchanges: the servers it follows and when its
//! periodic tasks are due. Each step takes what came in, and what the user's handler
//! decided, and gives back what to send and report.

use vstd::prelude::*;

use crate::game::spec_encode_query_servers;
use crate::net::{ipv4_octet, SocketAddr, SocketAddrV4};
use crate::observer::observer_query;
use crate::text::{dec, hex};
use crate::observer::{
    after_info, after_invalid_protocol, after_query_tick, conn_valid, elapsed, info_event, new_conn,
    protocol_event, spec_update_time, update_time, Connection, ConnectionState, ConnectionView, InfoEvent, Master,
    ProtocolEvent, MASTER_INTERVAL, PROTOCOL_VERSION, SERVER_CLEAN_INTERVAL, SERVER_INTERVAL,
};

verus! {

/// The servers of a table, keyed by address: the first entry of each address.
pub open spec fn table_map(addrs: Seq<SocketAddr>, conns: Seq<ConnectionView>) -> Map<SocketAddr, ConnectionView> {
    Map::new(|a: SocketAddr| addrs.contains(a), |a: SocketAddr| conns[addrs.index_of(a)])
}

/// With distinct addresses, the entry of an address is the one at its place.
pub proof fn lemma_table_at(addrs: Seq<SocketAddr>, conns: Seq<ConnectionView>, i: int)
    requires
        addrs.no_duplicates(),
        0 <= i < addrs.len(),
    ensures
        table_map(addrs, conns).dom().contains(addrs[i]),
        table_map(addrs, conns)[addrs[i]] == conns[i],
{
    assert(addrs.contains(addrs[i]));
    let j = addrs.index_of(addrs[i]);
    assert(addrs[j] == addrs[i]);
}

/// Changing the entry at a place changes the entry of its address.
pub proof fn lemma_table_update(addrs: Seq<SocketAddr>, conns: Seq<ConnectionView>, i: int, v: ConnectionView)
    requires
        addrs.no_duplicates(),
        addrs.len() == conns.len(),
        0 <= i < addrs.len(),
    ensures
        table_map(addrs, conns.update(i, v)) == table_map(addrs, conns).insert(addrs[i], v),
{
    let m1 = table_map(addrs, conns.update(i, v));
    let m2 = table_map(addrs, conns).insert(addrs[i], v);
    assert(addrs.contains(addrs[i]));
    assert forall|a: SocketAddr| #[trigger] m1.dom().contains(a) <==> m2.dom().contains(a) by {}
    assert forall|a: SocketAddr| #[trigger] m1.dom().contains(a) implies m1[a] == m2[a] by {
        let j = choose|j: int| 0 <= j < addrs.len() && addrs[j] == a;
        lemma_table_at(addrs, conns.update(i, v), j);
        lemma_table_at(addrs, conns, j);
    }
    assert(m1 =~= m2);
}

/// The servers of `m`, and the servers of `extra` not among them, new at `now`.
pub open spec fn with_extra(m: Map<SocketAddr, ConnectionView>, extra: Seq<SocketAddr>, now: u64) -> Map<SocketAddr, ConnectionView> {
    Map::new(|a: SocketAddr| m.dom().contains(a) || extra.contains(a), |a: SocketAddr| if m.dom().contains(a) { m[a] } else { new_conn(now) })
}

/// The hexadecimal digits of a `u32` are at most eight.
pub proof fn lemma_hex_len(v: nat, k: nat)
    requires
        v < vstd::arithmetic::power::pow(16, k),
        k >= 1,
    ensures
        hex(v).len() <= k,
    decreases k,
{
    vstd::arithmetic::power::lemma_pow_positive(16, k);
    if v >= 16 {
        if k == 1 {
            vstd::arithmetic::power::lemma_pow1(16);
        } else {
            vstd::arithmetic::power::lemma_pow_adds(16, 1, (k - 1) as nat);
            vstd::arithmetic::power::lemma_pow1(16);
            assert(v / 16 < vstd::arithmetic::power::pow(16, (k - 1) as nat)) by (nonlinear_arith)
                requires
                    v < 16 * vstd::arithmetic::power::pow(16, (k - 1) as nat),
            ;
            lemma_hex_len(v / 16, (k - 1) as nat);
        }
    }
}

/// A request to a master server, with a filter of at most 2000 bytes, fits in 2048 bytes.
pub proof fn lemma_observer_query_fits(filter: Seq<u8>, key: u32)
    requires
        filter.len() <= 2000,
    ensures
        spec_encode_query_servers(observer_query(filter, key)).len() <= 2048,
{
    reveal(crate::addr_text::socket_addr_text);
    assert(ipv4_octet(0, 0) == 0 && ipv4_octet(0, 1) == 0 && ipv4_octet(0, 2) == 0 && ipv4_octet(0, 3) == 0) by (bit_vector);
    reveal_with_fuel(dec, 2);
    assert(crate::addr_text::socket_addr_text(SocketAddr::V4(SocketAddrV4 { ip: 0, port: 0 })).len() == 9);
    assert(vstd::arithmetic::power::pow(16, 8) == 4294967296) by {
        reveal_with_fuel(vstd::arithmetic::power::pow, 9);
    }
    lemma_hex_len(key as nat, 8);
}

/// The requests sent to master servers: for each master the user wants asked, its address
/// and the request with its key.
pub open spec fn master_requests(masters: Seq<Master>, wanted: Seq<bool>, filter: Seq<u8>) -> Seq<(SocketAddr, Seq<u8>)>
    decreases masters.len(),
{
    if masters.len() == 0 || wanted.len() < masters.len() {
        Seq::empty()
    } else {
        let n = (masters.len() - 1) as int;
        master_requests(masters.drop_last(), wanted.take(n), filter) + if wanted[n] {
            seq![(masters[n].addr, spec_encode_query_servers(observer_query(filter, masters[n].key)))]
        } else {
            Seq::empty()
        }
    }
}

/// The views of connections.
pub open spec fn views(c: Seq<Connection>) -> Seq<ConnectionView> {
    c.map_values(|x: Connection| x@)
}

/// The servers that an observer follows, each with its exchange.
pub struct Connections {
    addrs: Vec<SocketAddr>,
    conns: Vec<Connection>,
}

/// What an observer keeps between its exchanges.
pub struct ObserverState {
    /// The filter sent to master servers.
    pub filter: Vec<u8>,
    /// The master servers asked.
    pub masters: Vec<Master>,
    /// When master servers are next asked.
    pub master_time: u64,
    /// When servers are next asked for info.
    pub server_time: u64,
    /// When silent servers are next dropped.
    pub server_clean_time: u64,
    /// The time of the last event.
    pub now: u64,
    /// The servers followed.
    pub servers: Connections,
}

/// What a step reports about the servers followed.
#[derive(Clone, Copy, Debug, PartialEq, Eq, Structural)]
pub enum ServerEvent {
    /// Ask the server for its info in this protocol version.
    Query(SocketAddr, u8),
    /// The server did not answer the last request.
    Timeout(SocketAddr),
    /// The server is no longer followed.
    Removed(SocketAddr),
}

impl Connections {
    /// The servers followed, by address.
    pub closed spec fn table(&self) -> Map<SocketAddr, ConnectionView> {
        table_map(self.addrs@, views(self.conns@))
    }

    /// The addresses of the servers, in the table's order.
    pub closed spec fn keys(&self) -> Seq<SocketAddr> {
        self.addrs@
    }

    /// The exchanges of the servers, in the table's order.
    pub closed spec fn conn_views(&self) -> Seq<ConnectionView> {
        views(self.conns@)
    }

    /// Whether the table's addresses are distinct, one per connection.
    pub closed spec fn wf(&self) -> bool {
        &&& self.addrs@.no_duplicates()
        &&& self.addrs@.len() == self.conns@.len()
    }

    /// No server followed.
    pub fn new() -> (r: Self)
        ensures
            r.wf(),
            r.table().is_empty(),
    {
        let r = Connections { addrs: Vec::new(), conns: Vec::new() };
        assert(r.table().dom() =~= Set::<SocketAddr>::empty());
        r
    }

    /// The position of `addr` in the table.
    pub fn find(&self, addr: SocketAddr) -> (r: Option<usize>)
        requires
            self.wf(),
        ensures
            match r {
                Some(i) => i < self.keys().len() && self.keys()[i as int] == addr,
                None => !self.keys().contains(addr),
            },
    {
        let mut i: usize = 0;
        while i < self.addrs.len()
            invariant
                i <= self.addrs@.len(),
                forall|j: int| 0 <= j < i ==> self.addrs@[j] != addr,
            decreases self.addrs.len() - i,
        {
            if self.addrs[i] == addr {
                return Some(i);
            }
            i = i + 1;
        }
        None
    }

    /// Whether the server `addr` is followed.
    pub fn contains(&self, addr: SocketAddr) -> (r: bool)
        requires
            self.wf(),
        ensures
            r == self.table().dom().contains(addr),
    {
        self.find(addr).is_some()
    }

    /// Starts following `addr`, heard of at `now`.
    pub fn insert_new(&mut self, addr: SocketAddr, now: u64)
        requires
            old(self).wf(),
            !old(self).table().dom().contains(addr),
        ensures
            final(self).wf(),
            final(self).table() == old(self).table().insert(addr, new_conn(now)),
    {
        let ghost a0 = self.addrs@;
        let ghost c0 = views(self.conns@);
        let c = Connection::new(now);
        assert(c@.data =~= Seq::<u8>::empty());
        assert(c@ == new_conn(now));
        self.addrs.push(addr);
        self.conns.push(c);
        proof {
            assert forall|i: int, j: int| 0 <= i < j < self.addrs@.len() implies self.addrs@[i] != self.addrs@[j] by {
                if j == self.addrs@.len() - 1 {
                    assert(a0.contains(self.addrs@[i]));
                }
            }
            assert(views(self.conns@) =~= c0.push(new_conn(now)));
            let m = self.table();
            let m0 = table_map(a0, c0);
            assert forall|a: SocketAddr| #[trigger] m.dom().contains(a) <==> m0.insert(addr, new_conn(now)).dom().contains(a) by {
                if a == addr {
                    assert(self.addrs@[a0.len() as int] == addr);
                }
                if a0.contains(a) {
                    let j = choose|j: int| 0 <= j < a0.len() && a0[j] == a;
                    assert(self.addrs@[j] == a);
                }
                if self.addrs@.contains(a) && a != addr {
                    let j = choose|j: int| 0 <= j < self.addrs@.len() && self.addrs@[j] == a;
                    assert(a0[j] == a);
                }
            }
            assert forall|a: SocketAddr| #[trigger] m.dom().contains(a) implies m[a] == m0.insert(addr, new_conn(now))[a] by {
                if a == addr {
                    lemma_table_at(self.addrs@, views(self.conns@), a0.len() as int);
                } else {
                    let j = choose|j: int| 0 <= j < self.addrs@.len() && self.addrs@[j] == a;
                    lemma_table_at(self.addrs@, views(self.conns@), j);
                    lemma_table_at(a0, c0, j);
                }
            }
            assert(m =~= m0.insert(addr, new_conn(now)));
        }
    }

    /// Stops following the server at position `i`.
    pub fn remove_at(&mut self, i: usize)
        requires
            old(self).wf(),
            i < old(self).keys().len(),
        ensures
            final(self).wf(),
            final(self).table() == old(self).table().remove(old(self).keys()[i as int]),
            final(self).keys() == old(self).keys().remove(i as int),
            final(self).conn_views() == old(self).conn_views().remove(i as int),
    {
        let ghost a0 = self.addrs@;
        let ghost c0 = views(self.conns@);
        let ghost gone = a0[i as int];
        self.addrs.remove(i);
        self.conns.remove(i);
        proof {
            assert forall|x: int, y: int| 0 <= x < y < self.addrs@.len() implies self.addrs@[x] != self.addrs@[y] by {
                let x0 = if x < i { x } else { x + 1 };
                let y0 = if y < i { y } else { y + 1 };
                assert(self.addrs@[x] == a0[x0]);
                assert(self.addrs@[y] == a0[y0]);
            }
            assert(views(self.conns@) =~= c0.remove(i as int));
            let m = self.table();
            let m0 = table_map(a0, c0).remove(gone);
            assert forall|a: SocketAddr| #[trigger] m.dom().contains(a) <==> m0.dom().contains(a) by {
                if self.addrs@.contains(a) {
                    let j = choose|j: int| 0 <= j < self.addrs@.len() && self.addrs@[j] == a;
                    let j0 = if j < i { j } else { j + 1 };
                    assert(a0[j0] == a);
                    assert(a != gone);
                }
                if a0.contains(a) && a != gone {
                    let j = choose|j: int| 0 <= j < a0.len() && a0[j] == a;
                    assert(j != i);
                    let j1 = if j < i { j } else { j - 1 };
                    assert(self.addrs@[j1] == a);
                }
            }
            assert forall|a: SocketAddr| #[trigger] m.dom().contains(a) implies m[a] == m0[a] by {
                let j = choose|j: int| 0 <= j < self.addrs@.len() && self.addrs@[j] == a;
                let j0 = if j < i { j } else { j + 1 };
                lemma_table_at(self.addrs@, views(self.conns@), j);
                lemma_table_at(a0, c0, j0);
            }
            assert(m =~= m0);
        }
    }


    /// An info packet `buf` from `addr` at `now`, when the server is followed; see
    /// `Connection::on_info`.
    pub fn on_info(&mut self, addr: SocketAddr, buf: &[u8], now: u64) -> (r: Option<InfoEvent>)
        requires
            old(self).wf(),
        ensures
            final(self).wf(),
            old(self).table().dom().contains(addr) ==> r == Some(info_event(old(self).table()[addr], buf@, now))
                && final(self).table() == old(self).table().insert(addr, after_info(old(self).table()[addr], buf@)),
            !old(self).table().dom().contains(addr) ==> r is None && final(self).table() == old(self).table(),
    {
        match self.find(addr) {
            Some(i) => {
                let ghost c0 = views(self.conns@);
                proof {
                    lemma_table_at(self.addrs@, c0, i as int);
                }
                let e = self.conns[i].on_info(buf, now);
                proof {
                    assert(views(self.conns@) =~= c0.update(i as int, self.conns@[i as int]@));
                    lemma_table_update(self.addrs@, c0, i as int, self.conns@[i as int]@);
                }
                Some(e)
            },
            None => None,
        }
    }

    /// A reply of an unknown protocol version from `addr` at `now`, when the server is
    /// followed; see `Connection::on_invalid_protocol`. A server given up is no longer
    /// followed.
    pub fn on_invalid_protocol(&mut self, addr: SocketAddr, now: u64) -> (r: Option<ProtocolEvent>)
        requires
            old(self).wf(),
        ensures
            final(self).wf(),
            old(self).table().dom().contains(addr) ==> {
                let c = old(self).table()[addr];
                &&& r == Some(protocol_event(c, now))
                &&& final(self).table() == if protocol_event(c, now) is Retry {
                    old(self).table().insert(addr, after_invalid_protocol(c))
                } else {
                    old(self).table().remove(addr)
                }
            },
            !old(self).table().dom().contains(addr) ==> r is None && final(self).table() == old(self).table(),
    {
        match self.find(addr) {
            Some(i) => {
                let ghost c0 = views(self.conns@);
                proof {
                    lemma_table_at(self.addrs@, c0, i as int);
                }
                let e = self.conns[i].on_invalid_protocol(now);
                proof {
                    assert(views(self.conns@) =~= c0.update(i as int, self.conns@[i as int]@));
                    lemma_table_update(self.addrs@, c0, i as int, self.conns@[i as int]@);
                }
                match e {
                    ProtocolEvent::Retry => {},
                    ProtocolEvent::GiveUp(_) => {
                        self.remove_at(i);
                        proof {
                            assert(old(self).table().insert(addr, after_invalid_protocol(old(self).table()[addr])).remove(addr)
                                =~= old(self).table().remove(addr));
                        }
                    },
                }
                Some(e)
            },
            None => None,
        }
    }

    /// The time since `addr` was last asked, when the server is followed.
    pub fn ping(&self, addr: SocketAddr, now: u64) -> (r: Option<u64>)
        requires
            self.wf(),
        ensures
            r == if self.table().dom().contains(addr) { Some(elapsed(now, self.table()[addr].time)) } else { None::<u64> },
    {
        match self.find(addr) {
            Some(i) => {
                proof {
                    lemma_table_at(self.addrs@, views(self.conns@), i as int);
                }
                Some(self.conns[i].ping(now))
            },
            None => None,
        }
    }

    /// The protocol version that `addr` is asked in, when the server is followed.
    pub fn protocol(&self, addr: SocketAddr) -> (r: Option<u8>)
        requires
            self.wf(),
        ensures
            r == if self.table().dom().contains(addr) { Some(self.table()[addr].protocol) } else { None::<u8> },
    {
        match self.find(addr) {
            Some(i) => {
                proof {
                    lemma_table_at(self.addrs@, views(self.conns@), i as int);
                }
                Some(self.conns[i].protocol)
            },
            None => None,
        }
    }

    /// Stops following `addr`.
    pub fn remove(&mut self, addr: SocketAddr)
        requires
            old(self).wf(),
        ensures
            final(self).wf(),
            final(self).table() == old(self).table().remove(addr),
    {
        match self.find(addr) {
            Some(i) => self.remove_at(i),
            None => {
                assert(old(self).table().remove(addr) =~= old(self).table());
            },
        }
    }

    /// Follows, as new at `now`, each server of `extra` not followed yet.
    pub fn add_extra(&mut self, extra: &[SocketAddr], now: u64)
        requires
            old(self).wf(),
        ensures
            final(self).wf(),
            final(self).table() == with_extra(old(self).table(), extra@, now),
    {
        let ghost m0 = self.table();
        let mut i: usize = 0;
        while i < extra.len()
            invariant
                self.wf(),
                i <= extra@.len(),
                self.table() == with_extra(m0, extra@.take(i as int), now),
            decreases extra.len() - i,
        {
            let a = extra[i];
            let ghost before = self.table();
            if self.find(a).is_none() {
                self.insert_new(a, now);
            }
            proof {
                assert(extra@.take(i + 1) =~= extra@.take(i as int).push(a));
                let goal = with_extra(m0, extra@.take(i + 1), now);
                assert forall|x: SocketAddr| #[trigger] goal.dom().contains(x) <==> self.table().dom().contains(x) by {
                    if extra@.take(i + 1).contains(x) && x != a {
                        let j = choose|j: int| 0 <= j < i + 1 && #[trigger] extra@.take(i + 1)[j] == x;
                        assert(extra@.take(i as int)[j] == x);
                    }
                    if extra@.take(i as int).contains(x) {
                        let j = choose|j: int| 0 <= j < i && #[trigger] extra@.take(i as int)[j] == x;
                        assert(extra@.take(i + 1)[j] == x);
                    }
                    if x == a {
                        assert(extra@.take(i + 1)[i as int] == a);
                    }
                }
                assert forall|x: SocketAddr| #[trigger] self.table().dom().contains(x) implies self.table()[x] == goal[x] by {
                    if x == a && !before.dom().contains(a) {
                        assert(!m0.dom().contains(a));
                    }
                }
                assert(self.table() =~= goal);
            }
            i = i + 1;
        }
        assert(extra@.take(extra@.len() as int) =~= extra@);
    }

    /// The periodic turn of every followed server that was asked less than the timeout
    /// before `now` (see `Connection::on_query_tick`): for each, in the table's order, a
    /// timeout when it was waiting, then a request for its info.
    pub fn query_all(&mut self, now: u64) -> (r: Vec<ServerEvent>)
        requires
            old(self).wf(),
        ensures
            final(self).wf(),
            final(self).table().dom() == old(self).table().dom(),
            forall|a: SocketAddr| #[trigger] old(self).table().dom().contains(a) ==> final(self).table()[a] == if conn_valid(
                old(self).table()[a],
                now,
            ) {
                after_query_tick(old(self).table()[a], now)
            } else {
                old(self).table()[a]
            },
            forall|a: SocketAddr, p: u8| #[trigger] r@.contains(ServerEvent::Query(a, p)) <==> (old(self).table().dom().contains(a)
                && conn_valid(old(self).table()[a], now) && p == old(self).table()[a].protocol),
            forall|a: SocketAddr| #[trigger] r@.contains(ServerEvent::Timeout(a)) <==> (old(self).table().dom().contains(a)
                && conn_valid(old(self).table()[a], now) && old(self).table()[a].state == ConnectionState::WaitingInfo),
            forall|a: SocketAddr| !#[trigger] r@.contains(ServerEvent::Removed(a)),
    {
        let ghost m0 = self.table();
        let ghost c0 = views(self.conns@);
        let mut out: Vec<ServerEvent> = Vec::new();
        let mut i: usize = 0;
        while i < self.conns.len()
            invariant
                self.wf(),
                self.addrs@ == old(self).keys(),
                m0 == table_map(self.addrs@, c0),
                c0.len() == self.addrs@.len(),
                i <= self.conns@.len(),
                forall|j: int| 0 <= j < self.conns@.len() ==> #[trigger] views(self.conns@)[j] == if j < i && conn_valid(c0[j], now) {
                    after_query_tick(c0[j], now)
                } else {
                    c0[j]
                },
                forall|a: SocketAddr, p: u8| #[trigger] out@.contains(ServerEvent::Query(a, p)) <==> exists|j: int|
                    0 <= j < i && self.addrs@[j] == a && conn_valid(c0[j], now) && p == c0[j].protocol,
                forall|a: SocketAddr| #[trigger] out@.contains(ServerEvent::Timeout(a)) <==> exists|j: int|
                    0 <= j < i && self.addrs@[j] == a && conn_valid(c0[j], now) && c0[j].state == ConnectionState::WaitingInfo,
                forall|a: SocketAddr| !#[trigger] out@.contains(ServerEvent::Removed(a)),
            decreases self.conns.len() - i,
        {
            let ghost cv = views(self.conns@);
            let ghost out0 = out@;
            let a = self.addrs[i];
            assert(cv[i as int] == c0[i as int]);
            let ghost ci = c0[i as int];
            let ghost pushed: Seq<ServerEvent> = if conn_valid(ci, now) {
                (if ci.state == ConnectionState::WaitingInfo { seq![ServerEvent::Timeout(a)] } else { Seq::<ServerEvent>::empty() })
                    + seq![ServerEvent::Query(a, ci.protocol)]
            } else {
                Seq::<ServerEvent>::empty()
            };
            let valid = self.conns[i].is_valid(now);
            assert(valid == conn_valid(ci, now));
            if valid {
                let timeout = self.conns[i].on_query_tick(now);
                assert(timeout == (ci.state == ConnectionState::WaitingInfo));
                if timeout {
                    out.push(ServerEvent::Timeout(a));
                }
                let p = self.conns[i].protocol;
                assert(p == ci.protocol);
                out.push(ServerEvent::Query(a, p));
            }
            assert(out@ =~= out0 + pushed);
            proof {
                assert forall|j: int| 0 <= j < self.conns@.len() implies #[trigger] views(self.conns@)[j] == if j < i + 1
                    && conn_valid(c0[j], now) {
                    after_query_tick(c0[j], now)
                } else {
                    c0[j]
                } by {
                    assert(views(self.conns@)[j] == self.conns@[j]@);
                    assert(cv[j] == self.conns@[j]@ || j == i);
                }
                assert forall|e: ServerEvent| #[trigger] out@.contains(e) <==> (out0.contains(e) || pushed.contains(e)) by {
                    if out@.contains(e) {
                        let k = choose|k: int| 0 <= k < out@.len() && out@[k] == e;
                        if k < out0.len() {
                            assert(out0[k] == e);
                        } else {
                            assert(pushed[k - out0.len()] == e);
                        }
                    }
                    if out0.contains(e) {
                        let k = choose|k: int| 0 <= k < out0.len() && out0[k] == e;
                        assert(out@[k] == e);
                    }
                    if pushed.contains(e) {
                        let k = choose|k: int| 0 <= k < pushed.len() && pushed[k] == e;
                        assert(out@[out0.len() + k] == e);
                    }
                }
                assert forall|x: SocketAddr, p: u8| #[trigger] out@.contains(ServerEvent::Query(x, p)) <==> exists|j: int|
                    0 <= j < i + 1 && self.addrs@[j] == x && conn_valid(c0[j], now) && p == c0[j].protocol by {
                    let e = ServerEvent::Query(x, p);
                    assert(pushed.contains(e) <==> (x == a && conn_valid(ci, now) && p == ci.protocol)) by {
                        if pushed.contains(e) {
                            let k = choose|k: int| 0 <= k < pushed.len() && pushed[k] == e;
                        }
                        if x == a && conn_valid(ci, now) && p == ci.protocol {
                            assert(pushed[pushed.len() - 1] == e);
                        }
                    }
                    if out0.contains(e) {
                        let j = choose|j: int| 0 <= j < i && self.addrs@[j] == x && conn_valid(c0[j], now) && p == c0[j].protocol;
                        assert(0 <= j < i + 1 && self.addrs@[j] == x && conn_valid(c0[j], now) && p == c0[j].protocol);
                    }
                    if pushed.contains(e) {
                        assert(0 <= i < i + 1 && self.addrs@[i as int] == x && conn_valid(c0[i as int], now) && p == c0[i as int].protocol);
                    }
                    if exists|j: int| 0 <= j < i + 1 && self.addrs@[j] == x && conn_valid(c0[j], now) && p == c0[j].protocol {
                        let j = choose|j: int| 0 <= j < i + 1 && self.addrs@[j] == x && conn_valid(c0[j], now) && p == c0[j].protocol;
                        if j < i {
                            assert(exists|j2: int| 0 <= j2 < i && self.addrs@[j2] == x && conn_valid(c0[j2], now) && p == c0[j2].protocol);
                            assert(out0.contains(e));
                        }
                    }
                }
                assert forall|x: SocketAddr| #[trigger] out@.contains(ServerEvent::Timeout(x)) <==> exists|j: int|
                    0 <= j < i + 1 && self.addrs@[j] == x && conn_valid(c0[j], now) && c0[j].state == ConnectionState::WaitingInfo by {
                    let e = ServerEvent::Timeout(x);
                    assert(pushed.contains(e) <==> (x == a && conn_valid(ci, now) && ci.state == ConnectionState::WaitingInfo)) by {
                        if pushed.contains(e) {
                            let k = choose|k: int| 0 <= k < pushed.len() && pushed[k] == e;
                        }
                        if x == a && conn_valid(ci, now) && ci.state == ConnectionState::WaitingInfo {
                            assert(pushed[0] == e);
                        }
                    }
                    if out0.contains(e) {
                        let j = choose|j: int| 0 <= j < i && self.addrs@[j] == x && conn_valid(c0[j], now) && c0[j].state == ConnectionState::WaitingInfo;
                        assert(0 <= j < i + 1 && self.addrs@[j] == x && conn_valid(c0[j], now) && c0[j].state == ConnectionState::WaitingInfo);
                    }
                    if pushed.contains(e) {
                        assert(0 <= i < i + 1 && self.addrs@[i as int] == x && conn_valid(c0[i as int], now) && c0[i as int].state == ConnectionState::WaitingInfo);
                    }
                    if exists|j: int| 0 <= j < i + 1 && self.addrs@[j] == x && conn_valid(c0[j], now) && c0[j].state == ConnectionState::WaitingInfo {
                        let j = choose|j: int| 0 <= j < i + 1 && self.addrs@[j] == x && conn_valid(c0[j], now) && c0[j].state == ConnectionState::WaitingInfo;
                        if j < i {
                            assert(exists|j2: int| 0 <= j2 < i && self.addrs@[j2] == x && conn_valid(c0[j2], now) && c0[j2].state == ConnectionState::WaitingInfo);
                            assert(out0.contains(e));
                        }
                    }
                }
                assert forall|x: SocketAddr| !#[trigger] out@.contains(ServerEvent::Removed(x)) by {
                    let e = ServerEvent::Removed(x);
                    if pushed.contains(e) {
                        let k = choose|k: int| 0 <= k < pushed.len() && pushed[k] == e;
                    }
                }
            }
            i = i + 1;
        }
        proof {
            let m = self.table();
            assert forall|x: SocketAddr| #[trigger] m.dom().contains(x) <==> m0.dom().contains(x) by {}
            assert(m.dom() =~= m0.dom());
            assert forall|x: SocketAddr| #[trigger] m0.dom().contains(x) implies m[x] == if conn_valid(m0[x], now) {
                after_query_tick(m0[x], now)
            } else {
                m0[x]
            } by {
                let j = choose|j: int| 0 <= j < self.addrs@.len() && self.addrs@[j] == x;
                lemma_table_at(self.addrs@, views(self.conns@), j);
                lemma_table_at(self.addrs@, c0, j);
            }
            assert forall|x: SocketAddr, p: u8| #[trigger] out@.contains(ServerEvent::Query(x, p)) <==> (m0.dom().contains(x)
                && conn_valid(m0[x], now) && p == m0[x].protocol) by {
                if m0.dom().contains(x) {
                    let j = choose|j: int| 0 <= j < self.addrs@.len() && self.addrs@[j] == x;
                    lemma_table_at(self.addrs@, c0, j);
                    if out@.contains(ServerEvent::Query(x, p)) {
                        let j2 = choose|j2: int| 0 <= j2 < i && self.addrs@[j2] == x && conn_valid(c0[j2], now) && p == c0[j2].protocol;
                        lemma_table_at(self.addrs@, c0, j2);
                    }
                } else {
                    if out@.contains(ServerEvent::Query(x, p)) {
                        let j2 = choose|j2: int| 0 <= j2 < i && self.addrs@[j2] == x && conn_valid(c0[j2], now) && p == c0[j2].protocol;
                        assert(self.addrs@.contains(x));
                    }
                }
            }
            assert forall|x: SocketAddr| #[trigger] out@.contains(ServerEvent::Timeout(x)) <==> (m0.dom().contains(x)
                && conn_valid(m0[x], now) && m0[x].state == ConnectionState::WaitingInfo) by {
                if m0.dom().contains(x) {
                    let j = choose|j: int| 0 <= j < self.addrs@.len() && self.addrs@[j] == x;
                    lemma_table_at(self.addrs@, c0, j);
                    if out@.contains(ServerEvent::Timeout(x)) {
                        let j2 = choose|j2: int| 0 <= j2 < i && self.addrs@[j2] == x && conn_valid(c0[j2], now) && c0[j2].state == ConnectionState::WaitingInfo;
                        lemma_table_at(self.addrs@, c0, j2);
                    }
                } else {
                    if out@.contains(ServerEvent::Timeout(x)) {
                        let j2 = choose|j2: int| 0 <= j2 < i && self.addrs@[j2] == x && conn_valid(c0[j2], now) && c0[j2].state == ConnectionState::WaitingInfo;
                        assert(self.addrs@.contains(x));
                    }
                }
            }
        }
        out
    }

    /// Stops following the servers that were asked at least the timeout before `now`, and
    /// gives back their addresses, each once.
    pub fn cleanup(&mut self, now: u64) -> (r: Vec<SocketAddr>)
        requires
            old(self).wf(),
        ensures
            final(self).wf(),
            final(self).table() == old(self).table().restrict(
                old(self).table().dom().filter(|a: SocketAddr| conn_valid(old(self).table()[a], now)),
            ),
            r@.no_duplicates(),
            r@.to_set() == old(self).table().dom().filter(|a: SocketAddr| !conn_valid(old(self).table()[a], now)),
    {
        let ghost m0 = self.table();
        let mut removed: Vec<SocketAddr> = Vec::new();
        let mut i: usize = 0;
        while i < self.addrs.len()
            invariant
                self.wf(),
                i <= self.addrs@.len(),
                self.table().dom().subset_of(m0.dom()),
                forall|a: SocketAddr| #[trigger] self.table().dom().contains(a) ==> self.table()[a] == m0[a],
                forall|j: int| 0 <= j < i ==> conn_valid(#[trigger] views(self.conns@)[j], now),
                forall|a: SocketAddr| #[trigger] m0.dom().contains(a) && !self.table().dom().contains(a) ==> !conn_valid(m0[a], now)
                    && removed@.contains(a),
                forall|a: SocketAddr| #[trigger] removed@.contains(a) ==> m0.dom().contains(a) && !self.table().dom().contains(a),
                removed@.no_duplicates(),
            decreases self.addrs.len() - i,
        {
            proof {
                lemma_table_at(self.addrs@, views(self.conns@), i as int);
            }
            if self.conns[i].is_valid(now) {
                i = i + 1;
            } else {
                let a = self.addrs[i];
                let ghost r0 = removed@;
                let ghost before = self.table();
                let ghost c_before = views(self.conns@);
                self.remove_at(i);
                removed.push(a);
                proof {
                    assert(!r0.contains(a));
                    assert forall|x: int, y: int| 0 <= x < y < removed@.len() implies removed@[x] != removed@[y] by {
                        if y == removed@.len() - 1 {
                            assert(r0.contains(removed@[x]));
                        }
                    }
                    assert forall|x: SocketAddr| #[trigger] removed@.contains(x) implies m0.dom().contains(x) && !self.table().dom().contains(x) by {
                        if x != a {
                            let k = choose|k: int| 0 <= k < removed@.len() && removed@[k] == x;
                            assert(r0[k] == x);
                            assert(r0.contains(x));
                        }
                    }
                    assert forall|x: SocketAddr| #[trigger] m0.dom().contains(x) && !self.table().dom().contains(x) implies !conn_valid(m0[x], now)
                        && removed@.contains(x) by {
                        if x == a {
                            assert(removed@[removed@.len() - 1] == a);
                        } else {
                            assert(!before.dom().contains(x));
                            let k = choose|k: int| 0 <= k < r0.len() && r0[k] == x;
                            assert(removed@[k] == x);
                        }
                    }
                    assert forall|j: int| 0 <= j < i implies conn_valid(#[trigger] views(self.conns@)[j], now) by {
                        assert(views(self.conns@)[j] == c_before[j]);
                    }
                }
            }
        }
        proof {
            let goal = m0.restrict(m0.dom().filter(|a: SocketAddr| conn_valid(m0[a], now)));
            assert forall|x: SocketAddr| #[trigger] self.table().dom().contains(x) <==> goal.dom().contains(x) by {
                if self.table().dom().contains(x) {
                    let j = choose|j: int| 0 <= j < self.addrs@.len() && self.addrs@[j] == x;
                    lemma_table_at(self.addrs@, views(self.conns@), j);
                }
            }
            assert(self.table() =~= goal);
            assert(removed@.to_set() =~= m0.dom().filter(|a: SocketAddr| !conn_valid(m0[a], now)));
        }
        removed
    }

    /// The servers whose protocol version was still being detected, each once.
    pub fn pending(&self) -> (r: Vec<SocketAddr>)
        requires
            self.wf(),
        ensures
            r@.no_duplicates(),
            r@.to_set() == self.table().dom().filter(|a: SocketAddr| self.table()[a].state == ConnectionState::ProtocolDetection),
    {
        let ghost m = self.table();
        let mut out: Vec<SocketAddr> = Vec::new();
        let mut i: usize = 0;
        while i < self.addrs.len()
            invariant
                self.wf(),
                m == self.table(),
                i <= self.addrs@.len(),
                out@.no_duplicates(),
                forall|x: SocketAddr| #[trigger] out@.contains(x) <==> exists|j: int| 0 <= j < i && self.addrs@[j] == x
                    && m[x].state == ConnectionState::ProtocolDetection,
            decreases self.addrs.len() - i,
        {
            let a = self.addrs[i];
            let ghost o0 = out@;
            proof {
                lemma_table_at(self.addrs@, views(self.conns@), i as int);
            }
            if self.conns[i].state == ConnectionState::ProtocolDetection {
                assert(!o0.contains(a)) by {
                    if o0.contains(a) {
                        let j = choose|j: int| 0 <= j < i && self.addrs@[j] == a && m[a].state == ConnectionState::ProtocolDetection;
                        assert(self.addrs@[j] == self.addrs@[i as int]);
                    }
                }
                out.push(a);
                proof {
                    assert forall|x: int, y: int| 0 <= x < y < out@.len() implies out@[x] != out@[y] by {
                        if y == out@.len() - 1 {
                            assert(o0.contains(out@[x]));
                        }
                    }
                }
            }
            proof {
                assert forall|x: SocketAddr| #[trigger] out@.contains(x) <==> exists|j: int| 0 <= j < i + 1 && self.addrs@[j] == x
                    && m[x].state == ConnectionState::ProtocolDetection by {
                    if out@.contains(x) {
                        let k = choose|k: int| 0 <= k < out@.len() && out@[k] == x;
                        if k < o0.len() {
                            assert(o0[k] == x);
                            assert(o0.contains(x));
                            let j = choose|j: int| 0 <= j < i && self.addrs@[j] == x && m[x].state == ConnectionState::ProtocolDetection;
                            assert(0 <= j < i + 1 && self.addrs@[j] == x);
                        } else {
                            assert(0 <= i < i + 1 && self.addrs@[i as int] == x);
                        }
                    }
                    if exists|j: int| 0 <= j < i + 1 && self.addrs@[j] == x && m[x].state == ConnectionState::ProtocolDetection {
                        let j = choose|j: int| 0 <= j < i + 1 && self.addrs@[j] == x && m[x].state == ConnectionState::ProtocolDetection;
                        if j < i {
                            assert(exists|j2: int| 0 <= j2 < i && self.addrs@[j2] == x && m[x].state == ConnectionState::ProtocolDetection);
                            assert(o0.contains(x));
                            let k = choose|k: int| 0 <= k < o0.len() && o0[k] == x;
                            assert(out@[k] == x);
                        } else {
                            assert(out@[out@.len() - 1] == x);
                        }
                    }
                }
            }
            i = i + 1;
        }
        proof {
            assert forall|x: SocketAddr| #[trigger] out@.to_set().contains(x) <==> m.dom().filter(
                |a: SocketAddr| m[a].state == ConnectionState::ProtocolDetection,
            ).contains(x) by {
                if m.dom().contains(x) && m[x].state == ConnectionState::ProtocolDetection {
                    let j = choose|j: int| 0 <= j < self.addrs@.len() && self.addrs@[j] == x;
                    assert(exists|j2: int| 0 <= j2 < self.addrs@.len() && self.addrs@[j2] == x && m[x].state == ConnectionState::ProtocolDetection);
                }
                if out@.contains(x) {
                    let j = choose|j: int| 0 <= j < self.addrs@.len() && self.addrs@[j] == x && m[x].state == ConnectionState::ProtocolDetection;
                    assert(self.addrs@.contains(x));
                }
            }
            assert(out@.to_set() =~= m.dom().filter(|a: SocketAddr| m[a].state == ConnectionState::ProtocolDetection));
        }
        out
    }
}

impl ObserverState {
    /// An observer at `now`, with no server followed yet; masters and servers are due at
    /// once, the first cleanup one interval later.
    pub fn new(filter: Vec<u8>, masters: Vec<Master>, now: u64) -> (r: Self)
        requires
            now + SERVER_CLEAN_INTERVAL <= u64::MAX,
        ensures
            r.servers.wf(),
            r.servers.table().is_empty(),
            r.filter == filter,
            r.masters == masters,
            r.master_time == now,
            r.server_time == now,
            r.server_clean_time == now + SERVER_CLEAN_INTERVAL,
            r.now == now,
    {
        let r = ObserverState {
            filter,
            masters,
            master_time: now,
            server_time: now,
            server_clean_time: now + SERVER_CLEAN_INTERVAL,
            now,
            servers: Connections::new(),
        };
        r
    }

    /// The position of the first master server of address `addr`.
    pub fn get_master(&self, addr: SocketAddr) -> (r: Option<usize>)
        ensures
            match r {
                Some(i) => i < self.masters@.len() && self.masters@[i as int].addr == addr && forall|j: int|
                    0 <= j < i ==> self.masters@[j].addr != addr,
                None => forall|j: int| 0 <= j < self.masters@.len() ==> self.masters@[j].addr != addr,
            },
    {
        let mut i: usize = 0;
        while i < self.masters.len()
            invariant
                i <= self.masters@.len(),
                forall|j: int| 0 <= j < i ==> self.masters@[j].addr != addr,
            decreases self.masters.len() - i,
        {
            if self.masters[i].addr == addr {
                return Some(i);
            }
            i = i + 1;
        }
        None
    }

    /// When the next periodic task is due.
    pub fn first_event_time(&self) -> (r: u64)
        ensures
            r == if self.master_time < self.server_time { self.master_time } else { self.server_time },
    {
        if self.master_time < self.server_time {
            self.master_time
        } else {
            self.server_time
        }
    }








    /// Which periodic tasks are due at `now`, which becomes the observer's time: asking
    /// master servers, asking servers for info, dropping silent servers. Each due task is
    /// next due one interval later (see `update_time`).
    pub fn schedule(&mut self, now: u64) -> (r: (bool, bool, bool))
        requires
            old(self).master_time + MASTER_INTERVAL <= u64::MAX,
            old(self).server_time + SERVER_INTERVAL <= u64::MAX,
            old(self).server_clean_time + SERVER_CLEAN_INTERVAL <= u64::MAX,
            now + SERVER_CLEAN_INTERVAL <= u64::MAX,
        ensures
            final(self).now == now,
            r.0 == (old(self).master_time <= now),
            r.1 == (old(self).server_time <= now),
            r.2 == (old(self).server_clean_time <= now),
            final(self).master_time == if r.0 { spec_update_time(now, old(self).master_time, MASTER_INTERVAL) } else { old(self).master_time as int },
            final(self).server_time == if r.1 { spec_update_time(now, old(self).server_time, SERVER_INTERVAL) } else { old(self).server_time as int },
            final(self).server_clean_time == if r.2 {
                spec_update_time(now, old(self).server_clean_time, SERVER_CLEAN_INTERVAL)
            } else {
                old(self).server_clean_time as int
            },
            final(self).servers == old(self).servers,
            final(self).masters == old(self).masters,
            final(self).filter == old(self).filter,
    {
        self.now = now;
        let m = self.master_time <= now;
        if m {
            self.master_time = update_time(now, self.master_time, MASTER_INTERVAL);
        }
        let q = self.server_time <= now;
        if q {
            self.server_time = update_time(now, self.server_time, SERVER_INTERVAL);
        }
        let c = self.server_clean_time <= now;
        if c {
            self.server_clean_time = update_time(now, self.server_clean_time, SERVER_CLEAN_INTERVAL);
        }
        (m, q, c)
    }

    /// A server listed by a master: followed from now on when the user wants its info (and
    /// asked for it when it is new), else no longer followed.
    pub fn handle_server_from_master(&mut self, server: SocketAddr, wanted: bool) -> (r: Option<ServerEvent>)
        requires
            old(self).servers.wf(),
        ensures
            final(self).servers.wf(),
            final(self).now == old(self).now,
            !wanted ==> r is None && final(self).servers.table() == old(self).servers.table().remove(server),
            wanted && old(self).servers.table().dom().contains(server) ==> r is None
                && final(self).servers.table() == old(self).servers.table(),
            wanted && !old(self).servers.table().dom().contains(server) ==> r == Some(ServerEvent::Query(server, PROTOCOL_VERSION))
                && final(self).servers.table() == old(self).servers.table().insert(server, new_conn(old(self).now)),
    {
        if !wanted {
            self.servers.remove(server);
            return None;
        }
        if self.servers.contains(server) {
            return None;
        }
        self.servers.insert_new(server, self.now);
        Some(ServerEvent::Query(server, PROTOCOL_VERSION))
    }

    /// The periodic turn of the followed servers: the user's extra servers are followed
    /// too, then every server asked less than the timeout ago is asked again; see
    /// `Connections::query_all`.
    pub fn query_info_all(&mut self, extra: &[SocketAddr]) -> (r: Vec<ServerEvent>)
        requires
            old(self).servers.wf(),
        ensures
            final(self).servers.wf(),
            final(self).now == old(self).now,
            ({
                let m = with_extra(old(self).servers.table(), extra@, old(self).now);
                let now = old(self).now;
                &&& final(self).servers.table().dom() == m.dom()
                &&& forall|a: SocketAddr| #[trigger] m.dom().contains(a) ==> final(self).servers.table()[a] == if conn_valid(m[a], now) {
                    after_query_tick(m[a], now)
                } else {
                    m[a]
                }
                &&& forall|a: SocketAddr, p: u8| #[trigger] r@.contains(ServerEvent::Query(a, p)) <==> (m.dom().contains(a)
                    && conn_valid(m[a], now) && p == m[a].protocol)
                &&& forall|a: SocketAddr| #[trigger] r@.contains(ServerEvent::Timeout(a)) <==> (m.dom().contains(a)
                    && conn_valid(m[a], now) && m[a].state == ConnectionState::WaitingInfo)
            }),
    {
        self.servers.add_extra(extra, self.now);
        self.servers.query_all(self.now)
    }

    /// Drops the servers asked at least the timeout ago; see `Connections::cleanup`.
    pub fn cleanup(&mut self) -> (r: Vec<SocketAddr>)
        requires
            old(self).servers.wf(),
        ensures
            final(self).servers.wf(),
            final(self).now == old(self).now,
            final(self).servers.table() == old(self).servers.table().restrict(
                old(self).servers.table().dom().filter(|a: SocketAddr| conn_valid(old(self).servers.table()[a], old(self).now)),
            ),
            r@.no_duplicates(),
            r@.to_set() == old(self).servers.table().dom().filter(
                |a: SocketAddr| !conn_valid(old(self).servers.table()[a], old(self).now),
            ),
    {
        self.servers.cleanup(self.now)
    }


    /// Asks the master servers that the user wants asked (`wanted`, one flag per master):
    /// each gets a fresh key and the request with it, in order.
    pub fn query_masters(&mut self, wanted: &[bool]) -> (r: Vec<(SocketAddr, Vec<u8>)>)
        requires
            old(self).filter@.len() <= 2000,
            wanted@.len() == old(self).masters@.len(),
        ensures
            final(self).masters@.len() == old(self).masters@.len(),
            forall|i: int| 0 <= i < old(self).masters@.len() ==> (#[trigger] final(self).masters@[i]).addr == old(self).masters@[i].addr,
            forall|i: int| 0 <= i < old(self).masters@.len() && !wanted@[i] ==> #[trigger] final(self).masters@[i] == old(self).masters@[i],
            r@.map_values(|p: (SocketAddr, Vec<u8>)| (p.0, p.1@)) == master_requests(final(self).masters@, wanted@, old(self).filter@),
            final(self).filter == old(self).filter,
            final(self).servers == old(self).servers,
            final(self).now == old(self).now,
    {
        let mut out: Vec<(SocketAddr, Vec<u8>)> = Vec::new();
        let mut i: usize = 0;
        while i < self.masters.len()
            invariant
                i <= self.masters@.len(),
                self.masters@.len() == old(self).masters@.len(),
                wanted@.len() == old(self).masters@.len(),
                self.filter == old(self).filter,
                self.filter@.len() <= 2000,
                self.servers == old(self).servers,
                self.now == old(self).now,
                forall|j: int| 0 <= j < old(self).masters@.len() ==> (#[trigger] self.masters@[j]).addr == old(self).masters@[j].addr,
                forall|j: int| (i <= j < old(self).masters@.len() || (0 <= j < i && !wanted@[j])) ==> #[trigger] self.masters@[j]
                    == old(self).masters@[j],
                out@.map_values(|p: (SocketAddr, Vec<u8>)| (p.0, p.1@)) == master_requests(self.masters@.take(i as int), wanted@.take(i as int), self.filter@),
            decreases self.masters.len() - i,
        {
            let ghost ms0 = self.masters@;
            let ghost o0 = out@.map_values(|p: (SocketAddr, Vec<u8>)| (p.0, p.1@));
            if wanted[i] {
                let mut buf = [0u8; 2048];
                let addr = self.masters[i].addr;
                let res = self.masters[i].encode_query_servers_packet(self.filter.as_slice(), &mut buf);
                proof {
                    lemma_observer_query_fits(self.filter@, self.masters@[i as int].key);
                }
                match res {
                    Ok(packet) => {
                        let v = vstd::slice::slice_to_vec(packet);
                        out.push((addr, v));
                    },
                    Err(_) => {
                        assert(false);
                    },
                }
            }
            proof {
                let ms = self.masters@;
                assert(ms.take(i + 1).drop_last() =~= ms.take(i as int)) by {
                    assert forall|j: int| 0 <= j < i implies ms.take(i + 1)[j] == ms.take(i as int)[j] by {
                        if wanted@[j] {
                            assert(ms[j] == ms0[j]);
                        }
                    }
                }
                assert(ms.take(i as int) =~= ms0.take(i as int));
                assert(wanted@.take(i + 1).take(i as int) =~= wanted@.take(i as int));
                assert(out@.map_values(|p: (SocketAddr, Vec<u8>)| (p.0, p.1@)) =~= master_requests(ms.take(i + 1), wanted@.take(i + 1), self.filter@));
            }
            i = i + 1;
        }
        assert(self.masters@.take(self.masters@.len() as int) =~= self.masters@);
        assert(wanted@.take(wanted@.len() as int) =~= wanted@);
        out
    }
}


/// The first address of `addrs` of the family asked for (IPv4 when `v4`), if any.
pub open spec fn first_of_family(addrs: Seq<SocketAddr>, v4: bool) -> Option<SocketAddr>
    decreases addrs.len(),
{
    if addrs.len() == 0 {
        None
    } else if (addrs[0] is V4) == v4 {
        Some(addrs[0])
    } else {
        first_of_family(addrs.drop_first(), v4)
    }
}

/// The master servers that an observer asks: for each master name, the first of the
/// addresses it resolved to that is of the family of the observer's socket; names with
/// none are left out.
pub open spec fn masters_of_family(resolved: Seq<Seq<SocketAddr>>, v4: bool) -> Seq<SocketAddr>
    decreases resolved.len(),
{
    if resolved.len() == 0 {
        Seq::empty()
    } else {
        masters_of_family(resolved.drop_last(), v4) + match first_of_family(resolved.last(), v4) {
            Some(a) => seq![a],
            None => Seq::empty(),
        }
    }
}

/// The first address of `addrs` of the family asked for, if any.
pub fn first_address_of_family(addrs: &[SocketAddr], v4: bool) -> (r: Option<SocketAddr>)
    ensures
        r == first_of_family(addrs@, v4),
{
    let n = addrs.len();
    let mut i: usize = 0;
    assert(addrs@.skip(0) =~= addrs@);
    while i < n
        invariant
            i <= n,
            n == addrs@.len(),
            first_of_family(addrs@, v4) == first_of_family(addrs@.skip(i as int), v4),
        decreases n - i,
    {
        assert(addrs@.skip(i as int)[0] == addrs@[i as int]);
        assert(addrs@.skip(i as int).drop_first() =~= addrs@.skip(i + 1));
        if addrs[i].is_ipv4() == v4 {
            return Some(addrs[i]);
        }
        i = i + 1;
    }
    assert(addrs@.skip(n as int) =~= Seq::<SocketAddr>::empty());
    None
}

/// The master servers that an observer asks, not asked yet: for each master name, the
/// first of the addresses it resolved to that is of the family of the observer's socket.
pub fn select_masters(resolved: &[Vec<SocketAddr>], v4: bool) -> (r: Vec<Master>)
    ensures
        r@.map_values(|m: Master| m.addr) == masters_of_family(resolved@.map_values(|v: Vec<SocketAddr>| v@), v4),
        forall|i: int| 0 <= i < r@.len() ==> (#[trigger] r@[i]).key == 0,
{
    let ghost all = resolved@.map_values(|v: Vec<SocketAddr>| v@);
    let mut r: Vec<Master> = Vec::new();
    let n = resolved.len();
    for i in 0..n
        invariant
            n == resolved@.len(),
            all == resolved@.map_values(|v: Vec<SocketAddr>| v@),
            r@.map_values(|m: Master| m.addr) == masters_of_family(all.take(i as int), v4),
            forall|k: int| 0 <= k < r@.len() ==> (#[trigger] r@[k]).key == 0,
    {
        let ghost before = r@.map_values(|m: Master| m.addr);
        assert(all.take(i + 1).drop_last() =~= all.take(i as int));
        assert(all.take(i + 1).last() == resolved@[i as int]@);
        match first_address_of_family(resolved[i].as_slice(), v4) {
            Some(a) => {
                r.push(Master::new(a));
                assert(r@.map_values(|m: Master| m.addr) =~= before + seq![a]);
            },
            None => {
                assert(before + Seq::<SocketAddr>::empty() =~= before);
            },
        }
    }
    assert(all.take(n as int) =~= all);
    r
}

} // verus!
