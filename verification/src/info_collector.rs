//! What the query tool keeps while it asks servers for their info: a result for each
//! server that answered or timed out, the servers still awaited, and when to stop; and,
//! for its monitor, the info last shown for each server.

use vstd::prelude::*;

use crate::addr_text::{push_socket_addr, socket_addr_text};
use crate::net::{addr_less, addr_lt, lemma_addr_order, SocketAddr};
use crate::query::{pad_right, push_all, push_spaces, spaces, Cli, ServerInfo};

verus! {

/// The addresses of a list of results.
pub open spec fn keys_of<T>(s: Seq<(SocketAddr, T)>) -> Seq<SocketAddr> {
    s.map_values(|p: (SocketAddr, T)| p.0)
}

/// A list of results with distinct addresses, as a map from address to result.
pub open spec fn map_of<T>(s: Seq<(SocketAddr, T)>) -> Map<SocketAddr, T> {
    Map::new(|a: SocketAddr| keys_of(s).contains(a), |a: SocketAddr| s[keys_of(s).index_of(a)].1)
}

/// With distinct addresses, the result of an address is the one beside it.
pub proof fn lemma_map_of_at<T>(s: Seq<(SocketAddr, T)>, i: int)
    requires
        keys_of(s).no_duplicates(),
        0 <= i < s.len(),
    ensures
        map_of(s).dom().contains(s[i].0),
        map_of(s)[s[i].0] == s[i].1,
{
    let k = keys_of(s);
    assert(k[i] == s[i].0);
    assert(k.contains(s[i].0));
    let j = k.index_of(s[i].0);
    assert(k[j] == s[i].0);
}

/// The addresses of a list are in it.
proof fn lemma_keys_contains<T>(s: Seq<(SocketAddr, T)>, a: SocketAddr)
    ensures
        keys_of(s).contains(a) <==> exists|i: int| 0 <= i < s.len() && (#[trigger] s[i]).0 == a,
{
    if keys_of(s).contains(a) {
        let i = choose|i: int| 0 <= i < keys_of(s).len() && keys_of(s)[i] == a;
        assert(s[i].0 == a);
    }
    if exists|i: int| 0 <= i < s.len() && (#[trigger] s[i]).0 == a {
        let i = choose|i: int| 0 <= i < s.len() && (#[trigger] s[i]).0 == a;
        assert(keys_of(s)[i] == a);
    }
}

/// Two lists with distinct addresses, with the same pairs, make the same map.
proof fn lemma_map_of_same<T>(s1: Seq<(SocketAddr, T)>, s2: Seq<(SocketAddr, T)>, m: Map<SocketAddr, T>)
    requires
        keys_of(s1).no_duplicates(),
        forall|a: SocketAddr| #[trigger] m.dom().contains(a) <==> exists|i: int| 0 <= i < s1.len() && (#[trigger] s1[i]).0 == a,
        forall|i: int| 0 <= i < s1.len() ==> m.dom().contains((#[trigger] s1[i]).0) && m[s1[i].0] == s1[i].1,
        s2 == s1,
    ensures
        map_of(s2) == m,
{
    assert forall|a: SocketAddr| #[trigger] map_of(s1).dom().contains(a) <==> m.dom().contains(a) by {
        lemma_keys_contains(s1, a);
    }
    assert forall|a: SocketAddr| #[trigger] map_of(s1).dom().contains(a) implies map_of(s1)[a] == m[a] by {
        lemma_keys_contains(s1, a);
        let i = choose|i: int| 0 <= i < s1.len() && (#[trigger] s1[i]).0 == a;
        lemma_map_of_at(s1, i);
    }
    assert(map_of(s1) =~= m);
}

/// The addresses of a list are strictly sorted.
pub open spec fn sorted_by_address<T>(s: Seq<(SocketAddr, T)>) -> bool {
    forall|i: int, j: int| 0 <= i < j < s.len() ==> addr_lt((#[trigger] s[i]).0, (#[trigger] s[j]).0)
}

/// Puts a result at its place in a list sorted by address, whose addresses do not hold its
/// own.
fn insert_by_address<T>(list: &mut Vec<(SocketAddr, T)>, a: SocketAddr, t: T)
    requires
        sorted_by_address(old(list)@),
        !keys_of(old(list)@).contains(a),
    ensures
        sorted_by_address(final(list)@),
        final(list)@.len() == old(list)@.len() + 1,
        exists|i: int| 0 <= i <= old(list)@.len() && final(list)@ == old(list)@.insert(i, (a, t)),
{
    let n = list.len();
    let mut i: usize = 0;
    while i < n
        invariant
            i <= n,
            n == list@.len(),
            forall|k: int| 0 <= k < i ==> addr_lt((#[trigger] list@[k]).0, a),
        ensures
            i <= n,
            forall|k: int| 0 <= k < i ==> addr_lt((#[trigger] list@[k]).0, a),
            i < n ==> !addr_lt(list@[i as int].0, a),
        decreases n - i,
    {
        if !addr_less(&list[i].0, &a) {
            break;
        }
        i = i + 1;
    }
    let ghost old_list = list@;
    proof {
        if i < n {
            assert(keys_of(old_list)[i as int] == old_list[i as int].0);
            lemma_addr_order(old_list[i as int].0, a, a);
            assert(addr_lt(a, old_list[i as int].0));
        }
    }
    list.insert(i, (a, t));
    proof {
        let s = list@;
        assert(s == old_list.insert(i as int, (a, t)));
        assert forall|p: int, q: int| 0 <= p < q < s.len() implies addr_lt((#[trigger] s[p]).0, (#[trigger] s[q]).0) by {
            if q < i {
                assert(s[p] == old_list[p] && s[q] == old_list[q]);
            } else if q == i {
                assert(s[p] == old_list[p]);
            } else if p < i {
                assert(s[p] == old_list[p] && s[q] == old_list[q - 1]);
                lemma_addr_order(s[p].0, a, s[q].0);
                if q - 1 > i {
                    assert(addr_lt(old_list[i as int].0, old_list[q - 1].0));
                    lemma_addr_order(a, old_list[i as int].0, s[q].0);
                }
            } else if p == i {
                assert(s[q] == old_list[q - 1]);
                if q - 1 > i {
                    assert(addr_lt(old_list[i as int].0, old_list[q - 1].0));
                    lemma_addr_order(a, old_list[i as int].0, s[q].0);
                }
            } else {
                assert(s[p] == old_list[p - 1] && s[q] == old_list[q - 1]);
            }
        }
    }
}

/// What the query tool gathers while it asks servers for their info.
pub struct CollectServerInfo<T> {
    start_time: u64,
    master_timeout: u64,
    server_timeout: u64,
    is_custom_servers: bool,
    custom_servers: Vec<SocketAddr>,
    servers: Vec<(SocketAddr, T)>,
    pending: Vec<SocketAddr>,
}

impl<T> CollectServerInfo<T> {
    /// The result of each server that answered or timed out.
    pub closed spec fn results(&self) -> Map<SocketAddr, T> {
        map_of(self.servers@)
    }

    /// The servers awaited.
    pub closed spec fn pending_servers(&self) -> Set<SocketAddr> {
        self.pending@.to_set()
    }

    /// The servers given on the command line whose info is still to be asked for.
    pub closed spec fn custom(&self) -> Seq<SocketAddr> {
        self.custom_servers@
    }

    /// Whether servers were given on the command line.
    pub closed spec fn spec_is_custom(&self) -> bool {
        self.is_custom_servers
    }

    /// When the tool started, in milliseconds.
    pub closed spec fn spec_start(&self) -> u64 {
        self.start_time
    }

    /// How long the tool waits for master servers, in milliseconds.
    pub closed spec fn spec_master_timeout(&self) -> u64 {
        self.master_timeout
    }

    /// How long the tool waits for servers, in milliseconds.
    pub closed spec fn spec_server_timeout(&self) -> u64 {
        self.server_timeout
    }

    /// Each server has one result and is awaited once.
    pub closed spec fn wf(&self) -> bool {
        &&& keys_of(self.servers@).no_duplicates()
        &&& self.pending@.no_duplicates()
    }

    /// Nothing gathered yet at `now`, in milliseconds; the servers given on the command
    /// line are awaited.
    pub fn new(cli: &Cli, custom_servers: Vec<SocketAddr>, now: u64) -> (r: Self)
        ensures
            r.wf(),
            r.results().is_empty(),
            r.pending_servers() == custom_servers@.to_set(),
            r.custom() == custom_servers@,
            r.spec_is_custom() == (custom_servers@.len() > 0),
            r.spec_start() == now,
            r.spec_master_timeout() == cli.master_timeout as u64 * 1000,
            r.spec_server_timeout() == cli.server_timeout as u64 * 1000,
    {
        let mut pending: Vec<SocketAddr> = Vec::new();
        let n = custom_servers.len();
        for i in 0..n
            invariant
                n == custom_servers@.len(),
                pending@.no_duplicates(),
                pending@.to_set() == custom_servers@.take(i as int).to_set(),
        {
            let a = custom_servers[i];
            let ghost before = pending@;
            assert(custom_servers@.take(i + 1) =~= custom_servers@.take(i as int).push(a));
            if !contains_addr(&pending, a) {
                pending.push(a);
                proof {
                    assert forall|j: int, k: int| 0 <= j < k < pending@.len() implies pending@[j] != pending@[k] by {
                        if k == pending@.len() - 1 {
                            assert(pending@[j] == before[j]);
                            assert(before.contains(before[j]));
                        } else {
                            assert(pending@[j] == before[j] && pending@[k] == before[k]);
                        }
                    }
                    broadcast use vstd::seq_lib::group_seq_properties;
                    assert(pending@.to_set() =~= before.to_set().insert(a));
                }
            } else {
                assert(before.to_set() =~= before.to_set().insert(a));
            }
            proof {
                broadcast use vstd::seq_lib::group_seq_properties;
                assert(custom_servers@.take(i + 1).to_set() =~= custom_servers@.take(i as int).to_set().insert(a));
            }
        }
        assert(custom_servers@.take(n as int) =~= custom_servers@);
        let is_custom_servers = n > 0;
        let r = CollectServerInfo {
            start_time: now,
            master_timeout: cli.master_timeout as u64 * 1000,
            server_timeout: cli.server_timeout as u64 * 1000,
            is_custom_servers,
            custom_servers,
            servers: Vec::new(),
            pending,
        };
        assert(keys_of(r.servers@) =~= Seq::<SocketAddr>::empty());
        assert(r.results() =~= Map::<SocketAddr, T>::empty());
        r
    }

    /// Whether the tool is done at `now`: all the servers given on the command line have a
    /// result, or the time to wait is over. Without servers given, the tool waits for the
    /// master servers too.
    pub fn stop_observer(&self, now: u64) -> (r: bool)
        ensures
            r == ((self.spec_is_custom() && !self.results().is_empty() && self.pending_servers().is_empty())
                || ({
                    let timeout = if !self.spec_is_custom() && self.spec_master_timeout() > self.spec_server_timeout() {
                        self.spec_master_timeout()
                    } else {
                        self.spec_server_timeout()
                    };
                    let elapsed = if now >= self.spec_start() { now - self.spec_start() } else { 0 };
                    timeout < elapsed
                })),
    {
        proof {
            if self.servers@.len() > 0 {
                assert(keys_of(self.servers@)[0] == self.servers@[0].0);
                assert(keys_of(self.servers@).contains(self.servers@[0].0));
                assert(self.results().dom().contains(self.servers@[0].0));
            } else {
                assert(self.results() =~= Map::<SocketAddr, T>::empty());
            }
            if self.pending@.len() > 0 {
                assert(self.pending@.to_set().contains(self.pending@[0]));
            } else {
                assert(self.pending@.to_set() =~= Set::<SocketAddr>::empty());
            }
        }
        if self.is_custom_servers && self.servers.len() > 0 && self.pending.len() == 0 {
            return true;
        }
        let mut timeout = self.server_timeout;
        if !self.is_custom_servers && self.master_timeout > timeout {
            timeout = self.master_timeout;
        }
        let elapsed = if now >= self.start_time {
            now - self.start_time
        } else {
            0
        };
        timeout < elapsed
    }

    /// The servers given on the command line whose info is still to be asked for.
    pub fn extra_servers(&self) -> (r: &[SocketAddr])
        ensures
            r@ == self.custom(),
    {
        self.custom_servers.as_slice()
    }

    /// Whether to ask `server` for its info: only where it has no result yet; it is then
    /// awaited.
    pub fn query_info_for_server(&mut self, server: SocketAddr) -> (r: bool)
        requires
            old(self).wf(),
        ensures
            final(self).wf(),
            r == !old(self).results().dom().contains(server),
            final(self).pending_servers() == if r {
                old(self).pending_servers().insert(server)
            } else {
                old(self).pending_servers()
            },
            final(self).results() == old(self).results(),
            final(self).custom() == old(self).custom(),
            final(self).spec_is_custom() == old(self).spec_is_custom(),
            final(self).spec_start() == old(self).spec_start(),
            final(self).spec_master_timeout() == old(self).spec_master_timeout(),
            final(self).spec_server_timeout() == old(self).spec_server_timeout(),
    {
        if position_of(&self.servers, server).is_some() {
            return false;
        }
        let ghost before = self.pending@;
        if !contains_addr(&self.pending, server) {
            self.pending.push(server);
            proof {
                assert forall|j: int, k: int| 0 <= j < k < self.pending@.len() implies self.pending@[j] != self.pending@[k] by {
                    if k == self.pending@.len() - 1 {
                        assert(self.pending@[j] == before[j]);
                        assert(before.contains(before[j]));
                    } else {
                        assert(self.pending@[j] == before[j] && self.pending@[k] == before[k]);
                    }
                }
                broadcast use vstd::seq_lib::group_seq_properties;
                assert(self.pending@.to_set() =~= before.to_set().insert(server));
            }
        } else {
            assert(before.to_set() =~= before.to_set().insert(server));
        }
        true
    }

    /// Keeps the result of `addr`: it is no longer awaited nor to be asked.
    pub fn insert(&mut self, addr: SocketAddr, result: T)
        requires
            old(self).wf(),
        ensures
            final(self).wf(),
            final(self).results() == old(self).results().insert(addr, result),
            final(self).pending_servers() == old(self).pending_servers().remove(addr),
            final(self).custom() == old(self).custom().filter(|a: SocketAddr| a != addr),
            final(self).spec_is_custom() == old(self).spec_is_custom(),
            final(self).spec_start() == old(self).spec_start(),
            final(self).spec_master_timeout() == old(self).spec_master_timeout(),
            final(self).spec_server_timeout() == old(self).spec_server_timeout(),
    {
        self.custom_servers = without_addr(&self.custom_servers, addr);
        self.pending = without_addr(&self.pending, addr);
        assert(self.pending@.to_set() =~= old(self).pending@.to_set().remove(addr));
        upsert_result(&mut self.servers, addr, result);
    }

    /// The results, sorted by address.
    pub fn into_sorted(self) -> (r: Vec<(SocketAddr, T)>)
        requires
            self.wf(),
        ensures
            sorted_by_address(r@),
            map_of(r@) == self.results(),
            keys_of(r@).no_duplicates(),
    {
        let ghost m = self.results();
        let CollectServerInfo { servers, .. } = self;
        let mut rest = servers;
        let mut out: Vec<(SocketAddr, T)> = Vec::new();
        let ghost s = rest@;
        while rest.len() > 0
            invariant
                keys_of(s).no_duplicates(),
                m == map_of(s),
                rest@ == s.take(rest@.len() as int),
                rest@.len() <= s.len(),
                sorted_by_address(out@),
                out@.len() + rest@.len() == s.len(),
                forall|i: int| 0 <= i < out@.len() ==> s.skip(rest@.len() as int).contains(#[trigger] out@[i]),
                forall|j: int| rest@.len() <= j < s.len() ==> out@.contains(#[trigger] s[j]),
            decreases rest@.len(),
        {
            let ghost before = out@;
            let ghost k = rest@.len() - 1;
            let ghost done = s.skip(rest@.len() as int);
            let (a, t) = match rest.pop() {
                Some(p) => p,
                None => {
                    assert(false);
                    return out;
                },
            };
            assert(s[k] == (a, t));
            proof {
                assert(!keys_of(before).contains(a)) by {
                    if keys_of(before).contains(a) {
                        let i = choose|i: int| 0 <= i < keys_of(before).len() && keys_of(before)[i] == a;
                        assert(done.contains(before[i]));
                        let d = choose|d: int| 0 <= d < done.len() && done[d] == before[i];
                        assert(done[d] == s[k + 1 + d]);
                        assert(keys_of(s)[k + 1 + d] == keys_of(s)[k]);
                    }
                }
            }
            insert_by_address(&mut out, a, t);
            proof {
                let p = choose|p: int| 0 <= p <= before.len() && out@ == before.insert(p, (a, t));
                let done2 = s.skip(k);
                assert(done2 =~= seq![(a, t)] + done);
                assert forall|i: int| 0 <= i < out@.len() implies done2.contains(#[trigger] out@[i]) by {
                    if i < p {
                        assert(out@[i] == before[i]);
                        let d = choose|d: int| 0 <= d < done.len() && done[d] == before[i];
                        assert(done2[d + 1] == before[i]);
                    } else if i == p {
                        assert(done2[0] == out@[i]);
                    } else {
                        assert(out@[i] == before[i - 1]);
                        let d = choose|d: int| 0 <= d < done.len() && done[d] == before[i - 1];
                        assert(done2[d + 1] == before[i - 1]);
                    }
                }
                assert forall|j: int| k <= j < s.len() implies out@.contains(#[trigger] s[j]) by {
                    if j == k {
                        assert(out@[p] == s[j]);
                    } else {
                        assert(before.contains(s[j]));
                        let i = choose|i: int| 0 <= i < before.len() && before[i] == s[j];
                        if i < p {
                            assert(out@[i] == before[i]);
                        } else {
                            assert(out@[i + 1] == before[i]);
                        }
                    }
                }
            }
        }
        proof {
            let o = out@;
            assert(s.skip(0) =~= s);
            assert forall|i: int, j: int| 0 <= i < j < keys_of(o).len() implies keys_of(o)[i] != keys_of(o)[j] by {
                lemma_addr_order(o[i].0, o[j].0, o[j].0);
            }
            assert forall|a: SocketAddr| #[trigger] m.dom().contains(a) <==> exists|i: int| 0 <= i < o.len() && (#[trigger] o[i]).0 == a by {
                lemma_keys_contains(s, a);
                if exists|i: int| 0 <= i < o.len() && (#[trigger] o[i]).0 == a {
                    let i = choose|i: int| 0 <= i < o.len() && (#[trigger] o[i]).0 == a;
                    assert(s.contains(o[i]));
                    let j = choose|j: int| 0 <= j < s.len() && s[j] == o[i];
                    assert(s[j].0 == a);
                }
                if m.dom().contains(a) {
                    let j = choose|j: int| 0 <= j < s.len() && (#[trigger] s[j]).0 == a;
                    assert(o.contains(s[j]));
                    let i = choose|i: int| 0 <= i < o.len() && o[i] == s[j];
                    assert(o[i].0 == a);
                }
            }
            assert forall|i: int| 0 <= i < o.len() implies m.dom().contains((#[trigger] o[i]).0) && m[o[i].0] == o[i].1 by {
                assert(s.contains(o[i]));
                let j = choose|j: int| 0 <= j < s.len() && s[j] == o[i];
                lemma_map_of_at(s, j);
            }
            lemma_map_of_same(o, out@, m);
        }
        out
    }
}

/// Once a server has a result it is not asked for its info again: after `insert(addr, _)`,
/// `query_info_for_server(addr)` answers `false`.
pub proof fn lemma_answered_not_asked_again<T>(before: CollectServerInfo<T>, after: CollectServerInfo<T>, addr: SocketAddr, result: T)
    requires
        after.results() == before.results().insert(addr, result),
    ensures
        after.results().dom().contains(addr),
{
}

/// The place of `addr` in a list of results.
fn position_of<T>(list: &Vec<(SocketAddr, T)>, addr: SocketAddr) -> (r: Option<usize>)
    ensures
        match r {
            Some(i) => i < list@.len() && list@[i as int].0 == addr,
            None => !keys_of(list@).contains(addr),
        },
        r is Some <==> map_of(list@).dom().contains(addr),
{
    let n = list.len();
    let mut i: usize = 0;
    while i < n
        invariant
            i <= n,
            n == list@.len(),
            forall|j: int| 0 <= j < i ==> (#[trigger] list@[j]).0 != addr,
        decreases n - i,
    {
        if list[i].0 == addr {
            proof {
                lemma_keys_contains(list@, addr);
            }
            return Some(i);
        }
        i = i + 1;
    }
    proof {
        lemma_keys_contains(list@, addr);
    }
    None
}

/// Sets the result of `addr` in a list of results with distinct addresses, and gives back
/// the result it had.
pub fn upsert_result<T>(list: &mut Vec<(SocketAddr, T)>, addr: SocketAddr, result: T) -> (r: Option<T>)
    requires
        keys_of(old(list)@).no_duplicates(),
    ensures
        keys_of(final(list)@).no_duplicates(),
        map_of(final(list)@) == map_of(old(list)@).insert(addr, result),
        r == map_of(old(list)@).get(addr),
{
    let ghost s = list@;
    let ghost m = map_of(s).insert(addr, result);
    let n = list.len();
    match position_of(list, addr) {
        Some(i) => {
            let (_, previous) = list.remove(i);
            list.insert(i, (addr, result));
            proof {
                let s2 = list@;
                assert(s2 =~= s.update(i as int, (addr, result)));
                assert(keys_of(s2) =~= keys_of(s).update(i as int, addr));
                assert(keys_of(s)[i as int] == addr);
                assert(keys_of(s2) =~= keys_of(s));
                lemma_map_of_at(s, i as int);
                assert forall|a: SocketAddr| #[trigger] m.dom().contains(a) <==> exists|j: int| 0 <= j < s2.len() && (#[trigger] s2[j]).0 == a by {
                    lemma_keys_contains(s, a);
                    lemma_keys_contains(s2, a);
                }
                assert forall|j: int| 0 <= j < s2.len() implies m.dom().contains((#[trigger] s2[j]).0) && m[s2[j].0] == s2[j].1 by {
                    if j != i {
                        lemma_map_of_at(s, j);
                        assert(keys_of(s)[j] != keys_of(s)[i as int]);
                    }
                }
                lemma_map_of_same(s2, list@, m);
            }
            Some(previous)
        },
        None => {
            list.push((addr, result));
            proof {
                let s2 = list@;
                assert(keys_of(s2) =~= keys_of(s).push(addr));
                assert forall|j: int, k: int| 0 <= j < k < keys_of(s2).len() implies keys_of(s2)[j] != keys_of(s2)[k] by {
                    if k == n {
                        assert(keys_of(s).contains(keys_of(s)[j]));
                    } else {
                        assert(keys_of(s2)[j] == keys_of(s)[j] && keys_of(s2)[k] == keys_of(s)[k]);
                    }
                }
                assert forall|a: SocketAddr| #[trigger] m.dom().contains(a) <==> exists|j: int| 0 <= j < s2.len() && (#[trigger] s2[j]).0 == a by {
                    lemma_keys_contains(s, a);
                    if exists|j: int| 0 <= j < s2.len() && (#[trigger] s2[j]).0 == a {
                        let j = choose|j: int| 0 <= j < s2.len() && (#[trigger] s2[j]).0 == a;
                        if j < n {
                            assert(s[j].0 == a);
                        }
                    }
                    if a == addr {
                        assert(s2[n as int].0 == a);
                    } else if m.dom().contains(a) {
                        let j = choose|j: int| 0 <= j < s.len() && (#[trigger] s[j]).0 == a;
                        assert(s2[j] == s[j]);
                    }
                }
                assert forall|j: int| 0 <= j < s2.len() implies m.dom().contains((#[trigger] s2[j]).0) && m[s2[j].0] == s2[j].1 by {
                    if j < n {
                        assert(s2[j] == s[j]);
                        lemma_map_of_at(s, j);
                        assert(keys_of(s)[j] == s[j].0);
                    }
                }
                lemma_map_of_same(s2, list@, m);
            }
            None
        },
    }
}

/// Removes the result of `addr` from a list of results with distinct addresses, and gives
/// back the result it had.
pub fn remove_result<T>(list: &mut Vec<(SocketAddr, T)>, addr: SocketAddr) -> (r: Option<T>)
    requires
        keys_of(old(list)@).no_duplicates(),
    ensures
        keys_of(final(list)@).no_duplicates(),
        map_of(final(list)@) == map_of(old(list)@).remove(addr),
        r == map_of(old(list)@).get(addr),
{
    let ghost s = list@;
    let ghost m = map_of(s).remove(addr);
    match position_of(list, addr) {
        Some(i) => {
            let (_, previous) = list.remove(i);
            proof {
                let s2 = list@;
                assert(s2 =~= s.remove(i as int));
                lemma_map_of_at(s, i as int);
                assert(keys_of(s2) =~= keys_of(s).remove(i as int));
                assert forall|j: int, k: int| 0 <= j < k < keys_of(s2).len() implies keys_of(s2)[j] != keys_of(s2)[k] by {
                    let j1 = if j < i { j } else { j + 1 };
                    let k1 = if k < i { k } else { k + 1 };
                    assert(keys_of(s2)[j] == keys_of(s)[j1] && keys_of(s2)[k] == keys_of(s)[k1]);
                }
                assert forall|a: SocketAddr| #[trigger] m.dom().contains(a) <==> exists|j: int| 0 <= j < s2.len() && (#[trigger] s2[j]).0 == a by {
                    lemma_keys_contains(s, a);
                    if exists|j: int| 0 <= j < s2.len() && (#[trigger] s2[j]).0 == a {
                        let j = choose|j: int| 0 <= j < s2.len() && (#[trigger] s2[j]).0 == a;
                        let j1 = if j < i { j } else { j + 1 };
                        assert(s[j1].0 == a);
                        assert(keys_of(s)[j1] != keys_of(s)[i as int]);
                    }
                    if m.dom().contains(a) {
                        let j = choose|j: int| 0 <= j < s.len() && (#[trigger] s[j]).0 == a;
                        assert(j != i);
                        if j < i {
                            assert(s2[j] == s[j]);
                        } else {
                            assert(s2[j - 1] == s[j]);
                        }
                    }
                }
                assert forall|j: int| 0 <= j < s2.len() implies m.dom().contains((#[trigger] s2[j]).0) && m[s2[j].0] == s2[j].1 by {
                    let j1 = if j < i { j } else { j + 1 };
                    assert(s2[j] == s[j1]);
                    lemma_map_of_at(s, j1);
                    assert(keys_of(s)[j1] != keys_of(s)[i as int]);
                }
                lemma_map_of_same(s2, list@, m);
            }
            Some(previous)
        },
        None => {
            proof {
                assert(m =~= map_of(s));
            }
            None
        },
    }
}

/// The servers that the query tool's monitor shows, with the info last shown for each.
pub struct Monitor {
    servers: Vec<(SocketAddr, ServerInfo)>,
}

impl Monitor {
    /// The info last shown for each server.
    pub closed spec fn shown(&self) -> Map<SocketAddr, ServerInfo> {
        map_of(self.servers@)
    }

    /// Each server is shown once.
    pub closed spec fn wf(&self) -> bool {
        keys_of(self.servers@).no_duplicates()
    }

    /// No server shown yet.
    pub fn new() -> (r: Self)
        ensures
            r.wf(),
            r.shown().is_empty(),
    {
        let r = Monitor { servers: Vec::new() };
        assert(keys_of(r.servers@) =~= Seq::<SocketAddr>::empty());
        assert(r.shown() =~= Map::<SocketAddr, ServerInfo>::empty());
        r
    }

    /// Shows `info` for `addr` from now on, and gives back the info shown before, whose
    /// line is printed as gone before the new one.
    pub fn server_update(&mut self, addr: SocketAddr, info: ServerInfo) -> (r: Option<ServerInfo>)
        requires
            old(self).wf(),
        ensures
            final(self).wf(),
            final(self).shown() == old(self).shown().insert(addr, info),
            r == old(self).shown().get(addr),
    {
        upsert_result(&mut self.servers, addr, info)
    }

    /// Stops showing `addr`.
    pub fn server_remove(&mut self, addr: SocketAddr)
        requires
            old(self).wf(),
        ensures
            final(self).wf(),
            final(self).shown() == old(self).shown().remove(addr),
    {
        remove_result(&mut self.servers, addr);
    }
}

/// The line printed for the info a server showed before: its address left-aligned in 24
/// columns, `---`, seven blank columns where the ping stands on a new line, and the
/// server's line.
pub open spec fn monitor_gone_line(addr: SocketAddr, line: Seq<u8>) -> Seq<u8> {
    pad_right(socket_addr_text(addr), socket_addr_text(addr).len(), 24) + seq![32u8, 45u8, 45u8, 45u8, 32u8]
        + spaces(7) + seq![32u8] + line
}

/// The line printed for the info a server showed before, with the server's line `line`.
pub fn monitor_gone_line_exec(addr: &SocketAddr, line: &[u8]) -> (r: Vec<u8>)
    ensures
        r@ == monitor_gone_line(*addr, line@),
{
    let mut out: Vec<u8> = Vec::new();
    push_socket_addr(&mut out, addr);
    let n = out.len();
    if n < 24 {
        push_spaces(&mut out, 24 - n);
    }
    let ghost head = out@;
    assert(head =~= pad_right(socket_addr_text(*addr), socket_addr_text(*addr).len(), 24));
    out.push(32);
    out.push(45);
    out.push(45);
    out.push(45);
    out.push(32);
    push_spaces(&mut out, 7);
    out.push(32);
    push_all(&mut out, line);
    assert(out@ =~= monitor_gone_line(*addr, line@));
    out
}

/// Whether `a` is in `list`.
fn contains_addr(list: &Vec<SocketAddr>, a: SocketAddr) -> (r: bool)
    ensures
        r == list@.contains(a),
{
    let n = list.len();
    let mut i: usize = 0;
    while i < n
        invariant
            i <= n,
            n == list@.len(),
            forall|j: int| 0 <= j < i ==> list@[j] != a,
        decreases n - i,
    {
        if list[i] == a {
            return true;
        }
        i = i + 1;
    }
    false
}

/// `list` without `a`.
fn without_addr(list: &Vec<SocketAddr>, a: SocketAddr) -> (r: Vec<SocketAddr>)
    ensures
        r@ == list@.filter(|x: SocketAddr| x != a),
        forall|x: SocketAddr| #[trigger] r@.contains(x) <==> list@.contains(x) && x != a,
        list@.no_duplicates() ==> r@.no_duplicates(),
{
    let mut r: Vec<SocketAddr> = Vec::new();
    let n = list.len();
    assert(list@.take(0).filter(|x: SocketAddr| x != a) =~= Seq::<SocketAddr>::empty()) by {
        reveal(Seq::filter);
    }
    for i in 0..n
        invariant
            n == list@.len(),
            r@ == list@.take(i as int).filter(|x: SocketAddr| x != a),
            forall|x: SocketAddr| #[trigger] r@.contains(x) <==> list@.take(i as int).contains(x) && x != a,
            list@.no_duplicates() ==> r@.no_duplicates(),
    {
        let x = list[i];
        let ghost before = r@;
        proof {
            assert(list@.take(i + 1) =~= list@.take(i as int).push(x));
            list@.take(i as int).lemma_filter_push(x, |x: SocketAddr| x != a);
        }
        if x != a {
            r.push(x);
            proof {
                if list@.no_duplicates() {
                    let t0 = list@.take(i as int);
                    assert(!t0.contains(x)) by {
                        if t0.contains(x) {
                            let j = choose|j: int| 0 <= j < t0.len() && t0[j] == x;
                            assert(list@[j] == list@[i as int]);
                        }
                    }
                    assert forall|j: int, k: int| 0 <= j < k < r@.len() implies r@[j] != r@[k] by {
                        if k == r@.len() - 1 {
                            assert(before.contains(before[j]));
                        } else {
                            assert(r@[j] == before[j] && r@[k] == before[k]);
                        }
                    }
                }
            }
        }
        proof {
            let t0 = list@.take(i as int);
            let t1 = list@.take(i + 1);
            assert forall|y: SocketAddr| #[trigger] r@.contains(y) <==> t1.contains(y) && y != a by {
                if t1.contains(y) && y != a {
                    let j = choose|j: int| 0 <= j < t1.len() && t1[j] == y;
                    if j < i {
                        assert(t0[j] == y);
                        assert(t0.contains(y));
                    } else {
                        assert(r@[r@.len() - 1] == y);
                    }
                }
                if r@.contains(y) {
                    let j = choose|j: int| 0 <= j < r@.len() && r@[j] == y;
                    if j < before.len() {
                        assert(before[j] == y);
                        assert(before.contains(y));
                        let k = choose|k: int| 0 <= k < t0.len() && t0[k] == y;
                        assert(t1[k] == y);
                    } else {
                        assert(t1[i as int] == y);
                    }
                }
            }
        }
    }
    assert(list@.take(n as int) =~= list@);
    r
}

} // verus!
