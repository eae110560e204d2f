//! The master server's table of game servers: each entry expires after a timeout, and an
//! IP address may hold only so many servers.

use vstd::prelude::*;

use ahash::AHashMap;

use crate::filter::{version_lt, Version};
use crate::game::Region;
use crate::hash_map::{fresh_at, next_count, now_millis, Periodic, Timed, PERIODIC_DEFAULT_LIMIT};

verus! {

/// What the master server keeps of a game server.
#[derive(Clone, Debug)]
pub struct ServerInfo {
    /// The region that the server is in.
    pub region: Region,
    /// The protocol version of the server.
    pub protocol: u8,
    /// Whether the server is behind NAT.
    pub nat: bool,
    /// The game directory of the server.
    pub gamedir: Vec<u8>,
}

/// A game server's key in the table: its IP address, as a number, and its port.
pub type ServerKey = (u128, u16);

/// An `AHashMap` of game servers.
pub type ServerMap = AHashMap<ServerKey, Timed<ServerInfo>>;

/// What an `AHashMap` of game servers holds.
pub uninterp spec fn server_entries(m: ServerMap) -> Map<ServerKey, Timed<ServerInfo>>;

/// `AHashMap::new`: an empty map.
///
/// Claimed: the new map holds nothing.
#[verifier::external_body]
fn server_map_new() -> (r: ServerMap)
    ensures
        server_entries(r).is_empty(),
{
    AHashMap::new()
}

/// `HashMap::len` (through `AHashMap`'s `Deref`).
///
/// Claimed: the number of keys that the map holds.
#[verifier::external_body]
fn server_map_len(m: &ServerMap) -> (r: usize)
    ensures
        r == server_entries(*m).len(),
{
    m.len()
}

/// `AHashMap::insert`: maps `k` to `v`.
///
/// Claimed: the map afterwards is the old one with `k` mapped to `v`.
#[verifier::external_body]
fn server_map_insert(m: &mut ServerMap, k: ServerKey, v: Timed<ServerInfo>)
    ensures
        server_entries(*final(m)) == server_entries(*old(m)).insert(k, v),
{
    m.insert(k, v);
}

/// `AHashMap::remove`: removes the entry of `k`.
///
/// Claimed: the map afterwards is the old one without `k`.
#[verifier::external_body]
fn server_map_remove(m: &mut ServerMap, k: ServerKey)
    ensures
        server_entries(*final(m)) == server_entries(*old(m)).remove(k),
{
    m.remove(&k);
}

/// `AHashMap::get`: the time at which the entry of `k` was made.
///
/// Claimed: the result is the time of the map's entry for `k`, if it has one.
#[verifier::external_body]
fn server_map_time(m: &ServerMap, k: ServerKey) -> (r: Option<u64>)
    ensures
        r == (if server_entries(*m).dom().contains(k) { Some(server_entries(*m)[k].time) } else { None::<u64> }),
{
    m.get(&k).map(|t| t.time)
}

/// `AHashMap::get`: the entry of `k`.
///
/// Claimed: the result is the map's entry for `k`, if it has one.
#[verifier::external_body]
fn server_map_get(m: &ServerMap, k: ServerKey) -> (r: Option<&Timed<ServerInfo>>)
    ensures
        r matches Some(t) ==> server_entries(*m).dom().contains(k) && *t == server_entries(*m)[k],
        r is None ==> !server_entries(*m).dom().contains(k),
{
    m.get(&k)
}

/// `HashMap::keys` (through `AHashMap`'s `Deref`), collected: every key once, in the order
/// in which the map is walked.
///
/// Claimed: each key of the map occurs exactly once. The order depends on the seed of the
/// map's hasher, which each map draws at random, so nothing is said of it.
#[verifier::external_body]
fn server_map_keys(m: &ServerMap) -> (r: Vec<ServerKey>)
    ensures
        r@.no_duplicates(),
        r@.to_set() == server_entries(*m).dom(),
{
    m.keys().copied().collect()
}

/// `HashMap::retain` (through `AHashMap`'s `DerefMut`), keeping the servers that are
/// younger than `secs` seconds at `now`, as `Timed::is_valid` decides.
///
/// Claimed: the map afterwards holds exactly the old entries for which the predicate held.
#[verifier::external_body]
fn server_map_retain_fresh(m: &mut ServerMap, now: u64, secs: u32)
    ensures
        server_entries(*final(m)) == server_entries(*old(m)).restrict(fresh_keys(server_entries(*old(m)), now, secs)),
{
    m.retain(|_, v| v.is_valid(now, secs))
}

/// The keys of entries that are younger than `secs` seconds at `now`.
pub open spec fn fresh_keys(m: Map<ServerKey, Timed<ServerInfo>>, now: u64, secs: u32) -> Set<ServerKey> {
    m.dom().filter(|k: ServerKey| fresh_at(m[k].time, now, secs))
}

/// The keys of `s` with the IP address `ip`.
pub open spec fn with_ip(s: Set<ServerKey>, ip: u128) -> Set<ServerKey> {
    s.filter(|k: ServerKey| k.0 == ip)
}

/// The fresh servers of the IP address `ip`.
pub open spec fn servers_of(m: Map<ServerKey, Timed<ServerInfo>>, ip: u128, now: u64, secs: u32) -> Set<ServerKey> {
    with_ip(fresh_keys(m, now, secs), ip)
}

/// How many of `keys` have the IP address `ip`.
pub fn count_ip(keys: &Vec<ServerKey>, ip: u128) -> (r: usize)
    requires
        keys@.no_duplicates(),
    ensures
        r == with_ip(keys@.to_set(), ip).len(),
{
    let mut same: Vec<ServerKey> = Vec::new();
    let mut i: usize = 0;
    while i < keys.len()
        invariant
            i <= keys@.len(),
            keys@.no_duplicates(),
            same@.no_duplicates(),
            same@.to_set() == keys@.take(i as int).to_set().filter(|k: ServerKey| k.0 == ip),
        decreases keys.len() - i,
    {
        let k = keys[i];
        let ghost s0 = same@;
        assert(keys@.take(i + 1) =~= keys@.take(i as int).push(k));
        proof {
            keys@.take(i as int).lemma_push_to_set_commute(k);
            assert(!keys@.take(i as int).contains(k)) by {
                if keys@.take(i as int).contains(k) {
                    let j = choose|j: int| 0 <= j < i && keys@.take(i as int)[j] == k;
                    assert(keys@[j] == keys@[i as int]);
                }
            }
        }
        if k.0 == ip {
            same.push(k);
            proof {
                assert(!s0.contains(k)) by {
                    if s0.contains(k) {
                        assert(s0.to_set().contains(k));
                    }
                }
                s0.lemma_push_to_set_commute(k);
                assert(same@.to_set() =~= keys@.take(i + 1).to_set().filter(|k: ServerKey| k.0 == ip));
                assert forall|a: int, b: int| 0 <= a < b < same@.len() implies same@[a] != same@[b] by {
                    if b == same@.len() - 1 {
                        assert(s0.contains(same@[a]));
                    }
                }
            }
        } else {
            assert(same@.to_set() =~= keys@.take(i + 1).to_set().filter(|k: ServerKey| k.0 == ip));
        }
        i = i + 1;
    }
    assert(keys@.take(keys@.len() as int) =~= keys@);
    proof {
        same@.unique_seq_to_set();
        assert(same@.to_set() =~= with_ip(keys@.to_set(), ip));
    }
    same.len()
}

/// The game servers that the master server lists, each forgotten `timeout` seconds after
/// it last announced itself.
pub struct ServerTable {
    timeout: u32,
    periodic: Periodic,
    map: ServerMap,
}

/// The servers after a call that may run the periodic cleanup: with `count` calls counted
/// before it, the cleanup runs when the call makes the limit, and keeps the servers that are
/// still younger than `secs` seconds at `now`.
pub open spec fn servers_after_tick(
    m: Map<ServerKey, Timed<ServerInfo>>,
    count: nat,
    now: u64,
    secs: u32,
) -> Map<ServerKey, Timed<ServerInfo>> {
    if count + 1 >= PERIODIC_DEFAULT_LIMIT {
        m.restrict(fresh_keys(m, now, secs))
    } else {
        m
    }
}

/// Whether a server is of an IP address other than `ip`.
pub open spec fn other_ip(ip: u128) -> spec_fn(ServerKey) -> bool {
    |k: ServerKey| k.0 != ip
}

/// What forgetting the servers of `ip` and the expired ones at `now` does to the table
/// `before`, giving `after`: see `ServerTable::remove_servers_by_ip_at`.
pub open spec fn removed_by_ip_at(before: ServerTable, after: ServerTable, ip: u128, now: u64) -> bool {
    &&& before.entries().is_empty() ==> after.entries() == before.entries() && after.ticks() == before.ticks()
    &&& !before.entries().is_empty() ==> after.entries() == before.entries().restrict(
        fresh_keys(before.entries(), now, before.timeout()).filter(other_ip(ip)),
    ) && after.ticks() == 0
}

/// What adding the server `addr`, announced at `now` with `info`, does to the table
/// `before`, giving `after` and the result `r`: see `ServerTable::add_server_at`.
pub open spec fn added_at(before: ServerTable, after: ServerTable, r: bool, addr: ServerKey, info: ServerInfo, max_per_ip: u16, now: u64) -> bool {

                let m0 = before.entries();
                let t = before.timeout();
                let present = m0.dom().contains(addr);
                let fresh = present && fresh_at(m0[addr].time, now, t);
                let m1 = if present {
                    if fresh { m0 } else { m0.remove(addr) }
                } else {
                    servers_after_tick(m0, before.ticks(), now, t)
                };
                let c1 = if present { before.ticks() } else { next_count(before.ticks()) };
                let n = servers_of(m1, addr.0, now, t).len();
                &&& fresh ==> r && after.entries() == m0.insert(addr, Timed { time: now, value: info })
                    && after.ticks() == before.ticks()
                &&& (!fresh && n > max_per_ip) ==> !r && after.entries() == m1 && after.ticks() == c1
                &&& (!fresh && n <= max_per_ip) ==> r && after.entries() == servers_after_tick(
                    m1.insert(addr, Timed { time: now, value: info }),
                    c1,
                    now,
                    t,
                ) && after.ticks() == next_count(c1)
            
}

impl ServerTable {
    /// What the table holds, expired entries included.
    pub closed spec fn entries(&self) -> Map<ServerKey, Timed<ServerInfo>> {
        server_entries(self.map)
    }

    /// After how many seconds a server is forgotten.
    pub closed spec fn timeout(&self) -> u32 {
        self.timeout
    }

    /// The calls counted towards the next cleanup of expired servers.
    pub closed spec fn ticks(&self) -> nat {
        self.periodic.count()
    }

    /// Whether the table's keys are finitely many and its periodic cleanup is set up.
    pub closed spec fn wf(&self) -> bool {
        &&& server_entries(self.map).dom().finite()
        &&& self.periodic.wf()
        &&& self.periodic.limit() == PERIODIC_DEFAULT_LIMIT
    }

    /// An empty table whose servers expire after `timeout` seconds.
    pub fn new(timeout: u32) -> (r: Self)
        ensures
            r.wf(),
            r.entries().is_empty(),
            r.timeout() == timeout,
            r.ticks() == 0,
    {
        ServerTable { timeout, periodic: Periodic::new(PERIODIC_DEFAULT_LIMIT), map: server_map_new() }
    }

    /// Counts a call; on every limit-th call, forgets the servers that expired at `now`.
    fn cleanup_at(&mut self, now: u64)
        requires
            old(self).wf(),
        ensures
            final(self).wf(),
            final(self).entries() == servers_after_tick(old(self).entries(), old(self).ticks(), now, old(self).timeout()),
            final(self).ticks() == next_count(old(self).ticks()),
            final(self).timeout() == old(self).timeout(),
    {
        let ghost m = self.entries();
        if self.periodic.tick() {
            proof {
                vstd::set_lib::lemma_set_subset_finite(m.dom(), fresh_keys(m, now, self.timeout));
            }
            server_map_retain_fresh(&mut self.map, now, self.timeout);
            assert(self.entries().dom() =~= fresh_keys(m, now, self.timeout));
        }
    }

    /// The number of servers, expired ones included.
    pub fn count_all_servers(&self) -> (r: usize)
        ensures
            r == self.entries().len(),
    {
        server_map_len(&self.map)
    }

    /// The info of the server `k`, if it had not expired at `now`.
    pub fn get_at(&self, k: ServerKey, now: u64) -> (r: Option<&ServerInfo>)
        ensures
            r matches Some(i) ==> self.entries().dom().contains(k) && fresh_at(self.entries()[k].time, now, self.timeout())
                && *i == self.entries()[k].value,
            r is None ==> !self.entries().dom().contains(k) || !fresh_at(self.entries()[k].time, now, self.timeout()),
    {
        match server_map_get(&self.map, k) {
            Some(t) => {
                if t.is_valid(now, self.timeout) {
                    Some(&t.value)
                } else {
                    None
                }
            },
            None => None,
        }
    }

    /// The keys of the servers that had not expired at `now`, each once.
    pub fn keys_at(&self, now: u64) -> (r: Vec<ServerKey>)
        ensures
            r@.no_duplicates(),
            r@.to_set() == fresh_keys(self.entries(), now, self.timeout()),
    {
        let all = server_map_keys(&self.map);
        let ghost m = self.entries();
        let ghost f = fresh_keys(m, now, self.timeout);
        let mut out: Vec<ServerKey> = Vec::new();
        let mut i: usize = 0;
        while i < all.len()
            invariant
                i <= all@.len(),
                m == self.entries(),
                f == fresh_keys(m, now, self.timeout),
                all@.no_duplicates(),
                all@.to_set() == m.dom(),
                out@.no_duplicates(),
                forall|j: int| 0 <= j < out@.len() ==> exists|j2: int| 0 <= j2 < i && all@[j2] == #[trigger] out@[j],
                forall|j: int| 0 <= j < out@.len() ==> f.contains(#[trigger] out@[j]),
                forall|j: int| 0 <= j < i ==> f.contains(#[trigger] all@[j]) ==> out@.contains(all@[j]),
            decreases all.len() - i,
        {
            let k = all[i];
            assert(m.dom().contains(k)) by {
                assert(all@.to_set().contains(k));
            }
            let ghost out0 = out@;
            let t = server_map_time(&self.map, k);
            if let Some(time) = t {
                let age: u64 = if now >= time { now - time } else { 0 };
                if age < self.timeout as u64 * 1000 {
                    assert(!out@.contains(k)) by {
                        if out@.contains(k) {
                            let j = choose|j: int| 0 <= j < out@.len() && out@[j] == k;
                            let j2 = choose|j2: int| 0 <= j2 < i && all@[j2] == #[trigger] out@[j];
                            assert(all@[j2] == all@[i as int]);
                        }
                    }
                    out.push(k);
                    proof {
                        assert forall|j: int| 0 <= j < out@.len() implies exists|j2: int| 0 <= j2 < i + 1 && all@[j2] == #[trigger] out@[j] by {
                            if j < out@.len() - 1 {
                                let j2 = choose|j2: int| 0 <= j2 < i && all@[j2] == #[trigger] out@[j];
                                assert(all@[j2] == out@[j]);
                            } else {
                                assert(all@[i as int] == out@[j]);
                            }
                        }
                    }
                }
            }
            proof {
                if f.contains(k) {
                    assert(fresh_at(m[k].time, now, self.timeout));
                    assert(out@[out@.len() - 1] == k);
                }
                assert forall|x: ServerKey| out0.contains(x) implies out@.contains(x) by {
                    let j = choose|j: int| 0 <= j < out0.len() && out0[j] == x;
                    assert(out@[j] == x);
                }
            }
            i = i + 1;
        }
        proof {
            assert(out@.to_set() =~= f) by {
                assert forall|k: ServerKey| f.contains(k) implies out@.to_set().contains(k) by {
                    assert(all@.to_set().contains(k));
                    let j = choose|j: int| 0 <= j < all@.len() && all@[j] == k;
                    assert(f.contains(all@[j]));
                }
            }
        }
        out
    }

    /// Adds the server `addr`, which announced itself at `now` with `info`: a server still
    /// listed is updated; a new one is refused when its IP address already holds more than
    /// `max_per_ip` listed servers. Looking the server up drops its expired entry, or may run
    /// the periodic cleanup; adding one counts towards it too. The result says whether the
    /// server is listed.
    pub fn add_server_at(&mut self, addr: ServerKey, info: ServerInfo, max_per_ip: u16, now: u64) -> (r: bool)
        requires
            old(self).wf(),
        ensures
            final(self).wf(),
            final(self).timeout() == old(self).timeout(),
            added_at(*old(self), *final(self), r, addr, info, max_per_ip, now),
    {
        let ghost m0 = self.entries();
        let ghost t0 = self.ticks();
        let found = server_map_time(&self.map, addr);
        match found {
            Some(time) => {
                let age: u64 = if now >= time { now - time } else { 0 };
                if age < self.timeout as u64 * 1000 {
                    server_map_insert(&mut self.map, addr, Timed { time: now, value: info });
                    return true;
                }
                server_map_remove(&mut self.map, addr);
            },
            None => {
                self.cleanup_at(now);
            },
        }
        let keys = self.keys_at(now);
        let n = count_ip(&keys, addr.0);
        let ghost m1 = if m0.dom().contains(addr) { m0.remove(addr) } else { servers_after_tick(m0, t0, now, self.timeout) };
        let ghost c1 = if m0.dom().contains(addr) { t0 } else { next_count(t0) };
        assert(self.entries() == m1);
        assert(self.ticks() == c1);
        assert(n == servers_of(m1, addr.0, now, self.timeout).len());
        if n > max_per_ip as usize {
            return false;
        }
        server_map_insert(&mut self.map, addr, Timed { time: now, value: info });
        self.cleanup_at(now);
        true
    }

    /// Adds the server `addr`, which announced itself now with `info`; see `add_server_at`.
    pub fn add_server(&mut self, addr: ServerKey, info: ServerInfo, max_per_ip: u16) -> (r: bool)
        requires
            old(self).wf(),
        ensures
            final(self).wf(),
            final(self).timeout() == old(self).timeout(),
            exists|now: u64| #[trigger] added_at(*old(self), *final(self), r, addr, info, max_per_ip, now),
    {
        let now = now_millis();
        self.add_server_at(addr, info, max_per_ip, now)
    }

    /// Forgets the servers of the IP address `ip` and those that had expired at `now`. A call
    /// on an empty table changes nothing; any other call counts as the periodic cleanup.
    pub fn remove_servers_by_ip_at(&mut self, ip: u128, now: u64)
        requires
            old(self).wf(),
        ensures
            final(self).wf(),
            final(self).timeout() == old(self).timeout(),
            old(self).entries().is_empty() ==> final(self).entries() == old(self).entries()
                && final(self).ticks() == old(self).ticks(),
            !old(self).entries().is_empty() ==> final(self).entries() == old(self).entries().restrict(
                fresh_keys(old(self).entries(), now, old(self).timeout()).filter(other_ip(ip)),
            ) && final(self).ticks() == 0,
    {
        if server_map_len(&self.map) == 0 {
            proof {
                self.entries().dom().lemma_len0_is_empty();
            }
            return;
        }
        let ghost m0 = self.entries();
        let ghost keep = fresh_keys(m0, now, self.timeout).filter(other_ip(ip));
        let keys = server_map_keys(&self.map);
        let mut i: usize = 0;
        while i < keys.len()
            invariant
                self.wf(),
                self.timeout == old(self).timeout(),
                self.ticks() == old(self).ticks(),
                m0 == old(self).entries(),
                keep == fresh_keys(m0, now, self.timeout).filter(other_ip(ip)),
                i <= keys@.len(),
                keys@.no_duplicates(),
                keys@.to_set() == m0.dom(),
                self.entries().dom().subset_of(m0.dom()),
                forall|k: ServerKey| #[trigger] self.entries().dom().contains(k) ==> self.entries()[k] == m0[k],
                forall|j: int| i <= j < keys@.len() ==> self.entries().dom().contains(#[trigger] keys@[j]),
                forall|j: int| 0 <= j < i ==> (#[trigger] self.entries().dom().contains(keys@[j]) <==> keep.contains(keys@[j])),
            decreases keys.len() - i,
        {
            let k = keys[i];
            let ghost before = self.entries();
            match server_map_time(&self.map, k) {
                Some(time) => {
                    let age: u64 = if now >= time { now - time } else { 0 };
                    if age >= self.timeout as u64 * 1000 || k.0 == ip {
                        server_map_remove(&mut self.map, k);
                    }
                    proof {
                        assert forall|j: int| i < j < keys@.len() implies self.entries().dom().contains(#[trigger] keys@[j]) by {
                            assert(keys@[j] != keys@[i as int]);
                            assert(before.dom().contains(keys@[j]));
                        }
                        assert forall|j: int| 0 <= j < i implies (#[trigger] self.entries().dom().contains(keys@[j])
                            == before.dom().contains(keys@[j])) by {
                            assert(keys@[j] != keys@[i as int]);
                        }
                        assert(self.entries().dom().contains(k) <==> keep.contains(k));
                    }
                },
                None => {
                    assert(false);
                },
            }
            i = i + 1;
        }
        proof {
            assert forall|k: ServerKey| #[trigger] self.entries().dom().contains(k) <==> keep.contains(k) by {
                if m0.dom().contains(k) {
                    assert(keys@.to_set().contains(k));
                    let j = choose|j: int| 0 <= j < keys@.len() && keys@[j] == k;
                    assert(self.entries().dom().contains(keys@[j]) <==> keep.contains(keys@[j]));
                }
            }
            assert(self.entries() =~= m0.restrict(keep));
        }
        self.periodic.reset();
    }

    /// Forgets the servers of the IP address `ip` and those that have expired.
    pub fn remove_servers_by_ip(&mut self, ip: u128)
        requires
            old(self).wf(),
        ensures
            final(self).wf(),
            final(self).timeout() == old(self).timeout(),
            forall|k: ServerKey| #[trigger] final(self).entries().dom().contains(k) ==> k.0 != ip
                || old(self).entries().is_empty(),
            final(self).entries().dom().subset_of(old(self).entries().dom()),
            exists|now: u64| #[trigger] removed_by_ip_at(*old(self), *final(self), ip, now),
    {
        let now = now_millis();
        self.remove_servers_by_ip_at(ip, now);
        assert(removed_by_ip_at(*old(self), *self, ip, now));
    }
}

} // verus!

verus! {

/// Removing the servers of an address leaves none of them, and keeps every listed server of
/// the other addresses.
pub proof fn lemma_remove_servers_by_ip(m: Map<ServerKey, Timed<ServerInfo>>, ip: u128, now: u64, secs: u32)
    ensures
        ({
            let r = m.restrict(fresh_keys(m, now, secs).filter(other_ip(ip)));
            &&& forall|k: ServerKey| #[trigger] r.dom().contains(k) ==> k.0 != ip
            &&& forall|k: ServerKey| #[trigger] fresh_keys(m, now, secs).contains(k) && k.0 != ip ==> r.dom().contains(k) && r[k] == m[k]
            &&& servers_of(r, ip, now, secs).is_empty()
        }),
{
    let r = m.restrict(fresh_keys(m, now, secs).filter(other_ip(ip)));
    assert(servers_of(r, ip, now, secs) =~= Set::<ServerKey>::empty());
}

/// A new server joins only while its address holds at most `max` listed servers, so an
/// address reaches at most `max + 1` of them by adding one.
pub proof fn lemma_servers_per_ip(m: Map<ServerKey, Timed<ServerInfo>>, count: nat, addr: ServerKey, info: ServerInfo, now: u64, secs: u32, max: nat)
    requires
        m.dom().finite(),
        servers_of(m, addr.0, now, secs).len() <= max,
    ensures
        servers_of(servers_after_tick(m.insert(addr, Timed { time: now, value: info }), count, now, secs), addr.0, now, secs).len() <= max + 1,
{
    let m2 = m.insert(addr, Timed { time: now, value: info });
    let m3 = servers_after_tick(m2, count, now, secs);
    let before = servers_of(m, addr.0, now, secs);
    let after = servers_of(m3, addr.0, now, secs);
    vstd::set_lib::lemma_set_subset_finite(m.dom(), before);
    assert(after.subset_of(before.insert(addr)));
    vstd::set_lib::lemma_len_subset(after, before.insert(addr));
}

} // verus!

verus! {

/// Whether the listed server of a key is behind NAT.
pub open spec fn is_behind_nat(m: Map<ServerKey, Timed<ServerInfo>>) -> spec_fn(ServerKey) -> bool {
    |k: ServerKey| m[k].value.nat
}

/// Whether a listed server is offered to a client of `client_version` asking for `region`:
/// it is of the region, and a client older than 0.20 is offered only servers of protocol 48.
pub open spec fn offered(info: ServerInfo, region: Region, client_version: Version) -> bool {
    &&& info.region == region
    &&& !version_lt(client_version, Version { major: 0, minor: 20, patch: 0 }) || info.protocol == 48
}


/// A server is offered only to queries for its own region, and a client older than 0.20
/// only servers of protocol 48; every other server of the region is offered.
pub proof fn lemma_offered_region(info: ServerInfo, region: Region, v: Version)
    ensures
        offered(info, region, v) ==> info.region == region,
        offered(info, region, v) && v.major == 0 && v.minor < 20 ==> info.protocol == 48,
        info.region == region && (v.major > 0 || v.minor >= 20 || info.protocol == 48) ==> offered(info, region, v),
{
}

impl ServerTable {
    /// The listed servers (not expired at `now`) offered to a client of `client_version`
    /// asking for `region`, that its filter `matches`, each once; and, in the same order,
    /// those of them behind NAT, to which the client is announced.
    pub fn select_servers_at<F: Fn(&ServerInfo) -> bool>(
        &self,
        region: Region,
        client_version: Version,
        matches: F,
        now: u64,
    ) -> (r: (Vec<ServerKey>, Vec<ServerKey>))
        requires
            forall|i: &ServerInfo| #[trigger] matches.requires((i,)),
        ensures
            r.0@.no_duplicates(),
            forall|j: int| 0 <= j < r.0@.len() ==> {
                let k = #[trigger] r.0@[j];
                &&& fresh_keys(self.entries(), now, self.timeout()).contains(k)
                &&& offered(self.entries()[k].value, region, client_version)
                &&& matches.ensures((&self.entries()[k].value,), true)
            },
            forall|k: ServerKey| #[trigger] fresh_keys(self.entries(), now, self.timeout()).contains(k)
                && offered(self.entries()[k].value, region, client_version) && !r.0@.contains(k)
                ==> matches.ensures((&self.entries()[k].value,), false),
            r.1@ == r.0@.filter(is_behind_nat(self.entries())),
    {
        let keys = self.keys_at(now);
        let ghost m = self.entries();
        let ghost f = fresh_keys(m, now, self.timeout);
        let v020 = Version::new(0, 20);
        let old_client = client_version.lt(&v020);
        let mut list: Vec<ServerKey> = Vec::new();
        let mut behind_nat: Vec<ServerKey> = Vec::new();
        let mut i: usize = 0;
        while i < keys.len()
            invariant
                i <= keys@.len(),
                m == self.entries(),
                f == fresh_keys(m, now, self.timeout),
                keys@.no_duplicates(),
                keys@.to_set() == f,
                old_client == version_lt(client_version, Version { major: 0, minor: 20, patch: 0 }),
                forall|i: &ServerInfo| #[trigger] matches.requires((i,)),
                list@.no_duplicates(),
                forall|j: int| 0 <= j < list@.len() ==> exists|j2: int| 0 <= j2 < i && keys@[j2] == #[trigger] list@[j],
                forall|j: int| 0 <= j < list@.len() ==> {
                    let k = #[trigger] list@[j];
                    &&& f.contains(k)
                    &&& offered(m[k].value, region, client_version)
                    &&& matches.ensures((&m[k].value,), true)
                },
                forall|j: int| 0 <= j < i ==> {
                    let k = #[trigger] keys@[j];
                    offered(m[k].value, region, client_version) && !list@.contains(k)
                        ==> matches.ensures((&m[k].value,), false)
                },
                behind_nat@ == list@.filter(is_behind_nat(m)),
            decreases keys.len() - i,
        {
            let k = keys[i];
            assert(f.contains(k)) by {
                assert(keys@.to_set().contains(k));
            }
            let ghost list0 = list@;
            let got = server_map_get(&self.map, k);
            assert(got is Some);
            let t = got.unwrap();
            let info = &t.value;
            assert(*info == m[k].value);
            let offer = info.region == region && (!old_client || info.protocol == 48);
            assert(offer == offered(m[k].value, region, client_version));
            let ok = if offer { matches(info) } else { false };
            proof {
                if offer {
                    assert(matches.ensures((&m[k].value,), ok));
                }
            }
            if ok {
                assert(!list@.contains(k)) by {
                    if list@.contains(k) {
                        let j = choose|j: int| 0 <= j < list@.len() && list@[j] == k;
                        let j2 = choose|j2: int| 0 <= j2 < i && keys@[j2] == #[trigger] list@[j];
                        assert(keys@[j2] == keys@[i as int]);
                    }
                }
                list.push(k);
                proof {
                    assert(list@.drop_last() =~= list0);
                    assert(list@.filter(is_behind_nat(m)) == list0.filter(is_behind_nat(m))
                        + if m[k].value.nat { seq![k] } else { Seq::<ServerKey>::empty() }) by {
                        reveal(Seq::filter);
                    }
                    assert forall|j: int| 0 <= j < list@.len() implies exists|j2: int| 0 <= j2 < i + 1 && keys@[j2] == #[trigger] list@[j] by {
                        if j < list@.len() - 1 {
                            let j2 = choose|j2: int| 0 <= j2 < i && keys@[j2] == #[trigger] list@[j];
                            assert(keys@[j2] == list@[j]);
                        } else {
                            assert(keys@[i as int] == list@[j]);
                        }
                    }
                }
                if info.nat {
                    behind_nat.push(k);
                }
            }
            proof {
                assert forall|x: ServerKey| list0.contains(x) implies list@.contains(x) by {
                    let j = choose|j: int| 0 <= j < list0.len() && list0[j] == x;
                    assert(list@[j] == x);
                }
                assert forall|j: int| 0 <= j < i + 1 implies ({
                    let k2 = #[trigger] keys@[j];
                    offered(m[k2].value, region, client_version) && !list@.contains(k2)
                        ==> matches.ensures((&m[k2].value,), false)
                }) by {
                    let k2 = keys@[j];
                    if j < i {
                        if !list@.contains(k2) {
                            assert(!list0.contains(k2));
                        }
                    } else {
                        assert(k2 == k);
                        if ok {
                            assert(list@[list@.len() - 1] == k);
                        }
                    }
                }
            }
            i = i + 1;
        }
        proof {
            assert forall|k: ServerKey| #[trigger] f.contains(k) && offered(m[k].value, region, client_version)
                && !list@.contains(k) implies matches.ensures((&m[k].value,), false) by {
                assert(keys@.to_set().contains(k));
                let j = choose|j: int| 0 <= j < keys@.len() && keys@[j] == k;
                assert(keys@[j] == k);
            }
        }
        (list, behind_nat)
    }
}

/// Whether a client is announced to the servers behind NAT that it was offered: when there
/// are some, unless its filter asks for no NAT (a filter that says nothing of NAT counts as
/// asking for it).
pub fn announce_to_nat(nat_servers: usize, filter_nat: Option<bool>) -> (r: bool)
    ensures
        r == (nat_servers > 0 && match filter_nat {
            Some(b) => b,
            None => true,
        }),
{
    nat_servers > 0 && match filter_nat {
        Some(b) => b,
        None => true,
    }
}


/// The longest game directory kept for the update reply, in bytes.
pub const GAMEDIR_MAX_SIZE: usize = 31;

/// `valve`, the game directory of the update reply when none was kept.
pub open spec fn default_gamedir() -> Seq<u8> {
    seq![118u8, 97u8, 108u8, 118u8, 101u8]
}

/// An `AHashMap` of the game directories of refused clients, each with the time at which it
/// was kept.
pub type GamedirMap = AHashMap<ServerKey, Timed<Vec<u8>>>;

/// What an `AHashMap` of game directories holds: for each client, the time and the
/// directory.
pub uninterp spec fn gamedir_entries(m: GamedirMap) -> Map<ServerKey, (u64, Seq<u8>)>;

/// The clients whose directories are younger than `secs` seconds at `now`.
pub open spec fn fresh_dirs(m: Map<ServerKey, (u64, Seq<u8>)>, now: u64, secs: u32) -> Set<ServerKey> {
    m.dom().filter(|k: ServerKey| fresh_at(m[k].0, now, secs))
}

/// `AHashMap::new`: an empty map.
///
/// Claimed: the new map holds nothing.
#[verifier::external_body]
fn gamedir_map_new() -> (r: GamedirMap)
    ensures
        gamedir_entries(r).is_empty(),
{
    AHashMap::new()
}

/// `AHashMap::insert`: maps `k` to `dir`, made at `time`.
///
/// Claimed: the map afterwards is the old one with `k` mapped to the time and the directory.
#[verifier::external_body]
fn gamedir_map_insert(m: &mut GamedirMap, k: ServerKey, time: u64, dir: Vec<u8>)
    ensures
        gamedir_entries(*final(m)) == gamedir_entries(*old(m)).insert(k, (time, dir@)),
{
    m.insert(k, Timed { time, value: dir });
}

/// `AHashMap::remove`: removes the entry of `k` and gives it back.
///
/// Claimed: the map afterwards is the old one without `k`, and the result is what `k` mapped
/// to before.
#[verifier::external_body]
fn gamedir_map_remove(m: &mut GamedirMap, k: ServerKey) -> (r: Option<(u64, Vec<u8>)>)
    ensures
        gamedir_entries(*final(m)) == gamedir_entries(*old(m)).remove(k),
        r is Some <==> gamedir_entries(*old(m)).dom().contains(k),
        r matches Some(p) ==> (p.0, p.1@) == gamedir_entries(*old(m))[k],
{
    m.remove(&k).map(|t| (t.time, t.value))
}

/// `HashMap::retain` (through `AHashMap`'s `DerefMut`), keeping the directories that are
/// younger than `secs` seconds at `now`, as `Timed::is_valid` decides.
///
/// Claimed: the map afterwards holds exactly the old entries for which the predicate held.
#[verifier::external_body]
fn gamedir_map_retain_fresh(m: &mut GamedirMap, now: u64, secs: u32)
    ensures
        gamedir_entries(*final(m)) == gamedir_entries(*old(m)).restrict(fresh_dirs(gamedir_entries(*old(m)), now, secs)),
{
    m.retain(|_, v| v.is_valid(now, secs))
}

/// The directories after a call that may run the periodic cleanup: with `count` calls
/// counted before it, the cleanup runs when the call makes the limit, and keeps the
/// directories that are still younger than `secs` seconds at `now`.
pub open spec fn dirs_after_tick(m: Map<ServerKey, (u64, Seq<u8>)>, count: nat, now: u64, secs: u32) -> Map<ServerKey, (u64, Seq<u8>)> {
    if count + 1 >= PERIODIC_DEFAULT_LIMIT {
        m.restrict(fresh_dirs(m, now, secs))
    } else {
        m
    }
}

/// The game directories of clients whose server list request was refused, kept a while for
/// the update reply that the clients then ask for.
pub struct UpdateGamedirs {
    timeout: u32,
    periodic: Periodic,
    map: GamedirMap,
}

impl UpdateGamedirs {
    /// What the table holds, expired entries included: for each client, when its directory
    /// was kept, and the directory.
    pub closed spec fn entries(&self) -> Map<ServerKey, (u64, Seq<u8>)> {
        gamedir_entries(self.map)
    }

    /// After how many seconds a directory is forgotten.
    pub closed spec fn timeout(&self) -> u32 {
        self.timeout
    }

    /// The calls counted towards the next cleanup of expired directories.
    pub closed spec fn ticks(&self) -> nat {
        self.periodic.count()
    }

    /// Whether the periodic cleanup is set up.
    pub closed spec fn wf(&self) -> bool {
        &&& self.periodic.wf()
        &&& self.periodic.limit() == PERIODIC_DEFAULT_LIMIT
    }

    /// An empty table whose directories expire after `timeout` seconds.
    pub fn new(timeout: u32) -> (r: Self)
        ensures
            r.wf(),
            r.entries().is_empty(),
            r.timeout() == timeout,
            r.ticks() == 0,
    {
        UpdateGamedirs { timeout, periodic: Periodic::new(PERIODIC_DEFAULT_LIMIT), map: gamedir_map_new() }
    }

    /// Keeps at `now` the game directory that the refused client `client` gave, when it gave
    /// one of at most `GAMEDIR_MAX_SIZE` bytes (else nothing is kept); keeping one counts
    /// towards the periodic cleanup.
    pub fn save_at(&mut self, client: ServerKey, gamedir: Option<&[u8]>, now: u64)
        requires
            old(self).wf(),
        ensures
            final(self).wf(),
            final(self).timeout() == old(self).timeout(),
            match gamedir {
                Some(g) if g@.len() <= GAMEDIR_MAX_SIZE => {
                    &&& final(self).entries() == dirs_after_tick(
                        old(self).entries().insert(client, (now, g@)),
                        old(self).ticks(),
                        now,
                        old(self).timeout(),
                    )
                    &&& final(self).ticks() == next_count(old(self).ticks())
                },
                _ => final(self).entries() == old(self).entries() && final(self).ticks() == old(self).ticks(),
            },
    {
        if let Some(g) = gamedir {
            if g.len() <= GAMEDIR_MAX_SIZE {
                let mut dir: Vec<u8> = Vec::new();
                crate::query::push_all(&mut dir, g);
                assert(dir@ =~= g@);
                gamedir_map_insert(&mut self.map, client, now, dir);
                if self.periodic.tick() {
                    gamedir_map_retain_fresh(&mut self.map, now, self.timeout);
                }
            }
        }
    }

    /// Takes at `now` the game directory kept for `client`, for the update reply: it is
    /// removed, and given back when it had not expired; `valve` otherwise.
    pub fn take_at(&mut self, client: ServerKey, now: u64) -> (r: Vec<u8>)
        requires
            old(self).wf(),
        ensures
            final(self).wf(),
            final(self).timeout() == old(self).timeout(),
            final(self).ticks() == old(self).ticks(),
            final(self).entries() == old(self).entries().remove(client),
            r@ == if old(self).entries().dom().contains(client) && fresh_at(old(self).entries()[client].0, now, old(self).timeout()) {
                old(self).entries()[client].1
            } else {
                default_gamedir()
            },
    {
        let valve: Vec<u8> = vec![118u8, 97u8, 108u8, 118u8, 101u8];
        assert(valve@ =~= default_gamedir());
        match gamedir_map_remove(&mut self.map, client) {
            Some((time, dir)) => {
                let age: u64 = if now >= time { now - time } else { 0 };
                if age < self.timeout as u64 * 1000 {
                    dir
                } else {
                    valve
                }
            },
            None => valve,
        }
    }
}

} // verus!
