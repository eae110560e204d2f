//! The decisions of the master server: which requests it answers, which clients it limits,
//! which servers it lists, and what an administrator's command does.

use vstd::prelude::*;
use vstd::string::StringSliceAdditionalSpecFns;

use crate::error::Error;
use crate::filter::{version_lt, Version};
use crate::admin::{admin_challenge_header, admin_command_header, spec_decode_admin_command, AdminChallenge, AdminCommand, AdminCommandView};
use crate::cursor::{seq_starts_with, starts_with};
use crate::error::end_error;
use crate::game::{
    get_server_info_header, query_servers_header, spec_decode_get_server_info, spec_decode_query_servers,
    GetServerInfo, QueryServers, QueryServersView,
};
use crate::hash_map::{after_tick, fresh_get, now_millis, Timed, TimedHashMap};
use crate::servers::{
    dirs_after_tick, fresh_keys, is_behind_nat, offered, other_ip, ServerInfo, ServerKey, ServerTable, UpdateGamedirs,
    GAMEDIR_MAX_SIZE,
};
use crate::hash_map::next_count;
use crate::game::Region;
use crate::master::{
    addr_items, addrs_bytes, fit_count, has_key_marker, key_header, lemma_query_servers_response_roundtrip,
    query_servers_response_header, spec_decode_query_servers_response, spec_encode_query_servers_response,
    zeros, QueryServersResponse, ServerAddress,
};

verus! {

/// Why the master server did not answer a packet.
#[derive(Clone, Copy, Debug, PartialEq, Eq, Structural)]
pub enum UdpServerError {
    /// The server socket could not be bound.
    BindSocket,
    /// The packet did not decode.
    Protocol(Error),
    /// Reading or sending failed.
    Io,
    /// The packet is of no known kind.
    UndefinedPacket,
    /// The client sent more requests than allowed; the count of its requests.
    GameRateLimit(u32),
    /// The address sent an invalid administrator hash a short while ago.
    AdminRateLimit,
    /// The new listen address is of the other IP version.
    IpVersion,
}

impl UdpServerError {
    /// The message for this error.
    pub fn message(&self) -> (r: &'static str)
        ensures
            r@ == match self {
                UdpServerError::BindSocket => "Failed to bind server socket"@,
                UdpServerError::Protocol(e) => crate::error::error_text(*e),
                UdpServerError::Io => "I/O error"@,
                UdpServerError::UndefinedPacket => "Undefined packet"@,
                UdpServerError::GameRateLimit(_) => "Rate limit game request"@,
                UdpServerError::AdminRateLimit => "Admin limit game request"@,
                UdpServerError::IpVersion => "Ip version changed"@,
            },
    {
        match self {
            UdpServerError::BindSocket => "Failed to bind server socket",
            UdpServerError::Protocol(e) => e.message(),
            UdpServerError::Io => "I/O error",
            UdpServerError::UndefinedPacket => "Undefined packet",
            UdpServerError::GameRateLimit(_) => "Rate limit game request",
            UdpServerError::AdminRateLimit => "Admin limit game request",
            UdpServerError::IpVersion => "Ip version changed",
        }
    }
}

/// The count of requests that the map holds for `ip` at `now`: that of its entry if it has
/// not expired, else none.
pub open spec fn request_count(m: Map<u128, Timed<u32>>, ip: u128, now: u64, secs: u32) -> u32 {
    match fresh_get(m, ip, now, secs) {
        Some(t) => t.value,
        None => 0,
    }
}

/// One more request: the count raised by one, staying at the largest `u32`.
pub open spec fn one_more(c: u32) -> u32 {
    if c == u32::MAX {
        c
    } else {
        (c + 1) as u32
    }
}

/// The counters after a request of `ip` at `now` is counted: the counter of `ip`, raised
/// by one, keeps the time at which its window began (a new window begins at `now` when it has
/// none). Looking `ip` up drops its expired counter, or, when it had none, may run the
/// periodic cleanup.
pub open spec fn counted(m: Map<u128, Timed<u32>>, ticks: nat, ip: u128, now: u64, secs: u32) -> Map<u128, Timed<u32>> {
    let base = if m.dom().contains(ip) { m } else { after_tick(m, ticks, now, secs) };
    let start = match fresh_get(m, ip, now, secs) {
        Some(t) => t.time,
        None => now,
    };
    base.insert(ip, Timed { time: start, value: one_more(request_count(m, ip, now, secs)) })
}

/// What counting a game request of `ip` at `now` against `limit` (above 0) does to the
/// counters `before`, giving `after` and the answer `r`: see `allow_game_request_at`.
pub open spec fn game_request_counted(before: TimedHashMap, after: TimedHashMap, r: Result<(), UdpServerError>, ip: u128, limit: u32, now: u64) -> bool {
    let c = one_more(request_count(before.entries(), ip, now, before.timeout()));
    &&& after.entries() == counted(before.entries(), before.ticks(), ip, now, before.timeout())
    &&& r == if c > limit { Err::<(), UdpServerError>(UdpServerError::GameRateLimit(c)) } else { Ok(()) }
}

/// Counts a game request of `ip` at `now` against `limit` requests per window of the map's
/// timeout; a limit of 0 turns the count off. Refused when the raised count goes over the
/// limit.
pub fn allow_game_request_at(counters: &mut TimedHashMap, ip: u128, limit: u32, now: u64) -> (r: Result<(), UdpServerError>)
    requires
        old(counters).wf(),
    ensures
        final(counters).wf(),
        final(counters).timeout() == old(counters).timeout(),
        limit == 0 ==> r is Ok && final(counters).entries() == old(counters).entries()
            && final(counters).ticks() == old(counters).ticks(),
        limit > 0 ==> final(counters).entries() == counted(
            old(counters).entries(),
            old(counters).ticks(),
            ip,
            now,
            old(counters).timeout(),
        ),
        limit > 0 ==> {
            let c = one_more(request_count(old(counters).entries(), ip, now, old(counters).timeout()));
            r == if c > limit { Err::<(), UdpServerError>(UdpServerError::GameRateLimit(c)) } else { Ok(()) }
        },
{
    if limit > 0 {
        let found = counters.entry_at(ip, now);
        let counter = match found {
            Some(t) => t,
            None => Timed { time: now, value: 0 },
        };
        let value = counter.value.saturating_add(1);
        counters.put(ip, Timed { time: counter.time, value });
        proof {
            let m = old(counters).entries();
            let base = if m.dom().contains(ip) { m } else { after_tick(m, old(counters).ticks(), now, old(counters).timeout()) };
            if m.dom().contains(ip) && found is None {
                assert(base.remove(ip).insert(ip, Timed { time: counter.time, value }) =~= base.insert(ip, Timed { time: counter.time, value }));
            }
        }
        if value > limit {
            return Err(UdpServerError::GameRateLimit(value));
        }
    }
    Ok(())
}

/// Counts a game request of `ip` now, as `allow_game_request_at` does at the time the clock
/// gives.
pub fn allow_game_request(counters: &mut TimedHashMap, ip: u128, limit: u32) -> (r: Result<(), UdpServerError>)
    requires
        old(counters).wf(),
    ensures
        final(counters).wf(),
        final(counters).timeout() == old(counters).timeout(),
        limit == 0 ==> r is Ok && final(counters).entries() == old(counters).entries(),
        r matches Err(e) ==> e matches UdpServerError::GameRateLimit(c) && c > limit,
        limit > 0 ==> exists|now: u64| #[trigger] game_request_counted(*old(counters), *final(counters), r, ip, limit, now),
{
    let now = now_millis();
    let r = allow_game_request_at(counters, ip, limit, now);
    assert(limit > 0 ==> game_request_counted(*old(counters), *counters, r, ip, limit, now));
    r
}

/// Whether an administrator request of `ip` is answered at `now`: refused while a recent
/// invalid hash of `ip` is remembered.
pub fn allow_admin_request_at(failures: &TimedHashMap, ip: u128, now: u64) -> (r: Result<(), UdpServerError>)
    ensures
        r == if fresh_get(failures.entries(), ip, now, failures.timeout()) is None {
            Ok::<(), UdpServerError>(())
        } else {
            Err(UdpServerError::AdminRateLimit)
        },
{
    if failures.get_at(ip, now).is_none() {
        Ok(())
    } else {
        Err(UdpServerError::AdminRateLimit)
    }
}

/// Whether an administrator request of `ip` is answered now.
pub fn allow_admin_request(failures: &TimedHashMap, ip: u128) -> (r: Result<(), UdpServerError>)
    ensures
        r is Ok || r == Err::<(), UdpServerError>(UdpServerError::AdminRateLimit),
        r is Err ==> failures.entries().dom().contains(ip),
        exists|now: u64| r == if #[trigger] fresh_get(failures.entries(), ip, now, failures.timeout()) is None {
            Ok::<(), UdpServerError>(())
        } else {
            Err(UdpServerError::AdminRateLimit)
        },
{
    let now = now_millis();
    allow_admin_request_at(failures, ip, now)
}

/// Remembers an invalid administrator hash from `ip` at `now`.
pub fn remember_admin_failure_at(failures: &mut TimedHashMap, ip: u128, now: u64)
    requires
        old(failures).wf(),
    ensures
        final(failures).wf(),
        final(failures).timeout() == old(failures).timeout(),
        final(failures).entries() == after_tick(
            old(failures).entries().insert(ip, Timed { time: now, value: 0 }),
            old(failures).ticks(),
            now,
            old(failures).timeout(),
        ),
{
    failures.insert_at(ip, 0, now);
}

/// The version limits on clients that query the server list.
#[derive(Clone, Copy, Debug, PartialEq, Eq, Structural)]
pub struct ClientLimits {
    /// The lowest client version served.
    pub min_version: Version,
    /// The lowest build number served to clients of version 0.20 and later; 0 for any.
    pub min_engine_buildnum: u32,
    /// The lowest build number served to clients older than 0.20; 0 for any.
    pub min_old_engine_buildnum: u32,
}

/// Whether a client's build number passes the lowest one allowed, `min`: any does when `min`
/// is 0; otherwise the client must give one, and not a lower one.
pub open spec fn spec_buildnum_valid(buildnum: Option<u32>, min: u32) -> bool {
    min == 0 || (buildnum matches Some(b) && b >= min)
}

/// Whether a server list query is served: it gives a client version, not below the lowest
/// one, and a build number that passes the limit for its engine (clients before 0.20 have a
/// limit of their own).
pub open spec fn spec_query_servers_valid(clver: Option<Version>, buildnum: Option<u32>, limits: ClientLimits) -> bool {
    match clver {
        None => false,
        Some(v) => !version_lt(v, limits.min_version) && spec_buildnum_valid(
            buildnum,
            if version_lt(v, Version { major: 0, minor: 20, patch: 0 }) {
                limits.min_old_engine_buildnum
            } else {
                limits.min_engine_buildnum
            },
        ),
    }
}

/// Whether a client's build number passes the lowest one allowed, `min`.
pub fn is_buildnum_valid(buildnum: Option<u32>, min: u32) -> (r: bool)
    ensures
        r == spec_buildnum_valid(buildnum, min),
{
    if min == 0 {
        return true;
    }
    match buildnum {
        Some(b) => b >= min,
        None => false,
    }
}

/// Whether a server list query with these client version and build number is served.
pub fn is_query_servers_valid(clver: Option<Version>, buildnum: Option<u32>, limits: &ClientLimits) -> (r: bool)
    ensures
        r == spec_query_servers_valid(clver, buildnum, *limits),
{
    let version = match clver {
        Some(v) => v,
        None => return false,
    };
    if version.lt(&limits.min_version) {
        return false;
    }
    let min = if version.lt(&Version::new(0, 20)) {
        limits.min_old_engine_buildnum
    } else {
        limits.min_engine_buildnum
    };
    is_buildnum_valid(buildnum, min)
}

} // verus!

verus! {

/// A counted request is found at once by the next request of the same client: while
/// entries live for some time, the client's count goes up by one.
pub proof fn lemma_request_counted(m: Map<u128, Timed<u32>>, ticks: nat, ip: u128, now: u64, secs: u32)
    requires
        secs > 0,
    ensures
        request_count(counted(m, ticks, ip, now, secs), ip, now, secs) == one_more(request_count(m, ip, now, secs)),
{
}

/// The counters after `n` requests of `ip` at `now`, each counted as `counted` does.
pub open spec fn repeated_requests(m: Map<u128, Timed<u32>>, ticks: nat, ip: u128, now: u64, secs: u32, n: nat) -> Map<u128, Timed<u32>>
    decreases n,
{
    if n == 0 {
        m
    } else {
        counted(repeated_requests(m, ticks, ip, now, secs, (n - 1) as nat), ticks, ip, now, secs)
    }
}

/// Within one window, a client that had no requests counted has `n` counted after `n`
/// requests, and its `n`-th request is refused exactly when `n` is over the limit.
pub proof fn lemma_rate_limit(m: Map<u128, Timed<u32>>, ticks: nat, ip: u128, now: u64, secs: u32, limit: u32, n: nat)
    requires
        secs > 0,
        request_count(m, ip, now, secs) == 0,
        1 <= n <= u32::MAX,
    ensures
        request_count(repeated_requests(m, ticks, ip, now, secs, n), ip, now, secs) == n,
        (one_more(request_count(repeated_requests(m, ticks, ip, now, secs, (n - 1) as nat), ip, now, secs)) > limit)
            == (n > limit),
    decreases n,
{
    if n > 1 {
        lemma_rate_limit(m, ticks, ip, now, secs, limit, (n - 1) as nat);
    }
    lemma_request_counted(repeated_requests(m, ticks, ip, now, secs, (n - 1) as nat), ticks, ip, now, secs);
}

} // verus!

verus! {

/// What BLAKE2b gives for an administrator's password and a hash challenge: a hash of
/// `hash_len` bytes, keyed with `key` and personalised with `personal`, of the password's
/// bytes followed by the four little-endian bytes of the challenge.
pub uninterp spec fn blake2b_admin_hash(hash_len: nat, key: Seq<u8>, personal: Seq<u8>, password: Seq<u8>, challenge: u32) -> Seq<u8>;

/// `blake2b_simd::Params` with `hash_length`, `key` and `personal` set, fed the password
/// and then the challenge's little-endian bytes, and finalised.
///
/// Claimed: the result is named by `blake2b_admin_hash` on these arguments, and it has
/// `hash_len` bytes (`Hash::as_bytes` gives the first `hash_length` bytes of the hash).
/// `Params` panics on a hash length outside 1 to 64, a key over 64 bytes or a
/// personalisation over 16 bytes, which `requires` rules out.
#[verifier::external_body]
fn blake2b_hash(hash_len: usize, key: &[u8], personal: &[u8], password: &[u8], challenge: u32) -> (r: Vec<u8>)
    requires
        1 <= hash_len <= 64,
        key@.len() <= 64,
        personal@.len() <= 16,
    ensures
        r@ == blake2b_admin_hash(hash_len as nat, key@, personal@, password@, challenge),
        r@.len() == hash_len,
{
    blake2b_simd::Params::new()
        .hash_length(hash_len)
        .key(key)
        .personal(personal)
        .to_state()
        .update(password)
        .update(&challenge.to_le_bytes())
        .finalize()
        .as_bytes()
        .to_vec()
}

/// The UTF-8 bytes of a string.
pub open spec fn string_bytes(s: String) -> Seq<u8> {
    vstd::utf8::encode_utf8(s@)
}

/// How administrator hashes are made.
#[derive(Clone, Debug)]
pub struct HashParams {
    /// The length of a hash in bytes.
    pub len: usize,
    /// The key of the hash.
    pub key: String,
    /// The personalisation of the hash.
    pub personal: String,
}

impl HashParams {
    /// Whether BLAKE2b takes these parameters: a length of 1 to 64 bytes, a key of at most 64
    /// bytes and a personalisation of at most 16 bytes.
    pub open spec fn valid(&self) -> bool {
        &&& 1 <= self.len <= 64
        &&& string_bytes(self.key).len() <= 64
        &&& string_bytes(self.personal).len() <= 16
    }
}

/// The hash that proves knowledge of `password` for a hash challenge.
pub open spec fn spec_admin_hash(params: HashParams, password: Seq<u8>, challenge: u32) -> Seq<u8> {
    blake2b_admin_hash(params.len as nat, string_bytes(params.key), string_bytes(params.personal), password, challenge)
}

/// The hash that proves knowledge of `password` for the hash challenge `challenge`, which
/// an administrator sends with a command.
pub fn admin_hash(params: &HashParams, password: &[u8], challenge: u32) -> (r: Vec<u8>)
    requires
        params.valid(),
    ensures
        r@ == spec_admin_hash(*params, password@, challenge),
        r@.len() == params.len,
{
    blake2b_hash(params.len, params.key.as_str().as_bytes(), params.personal.as_str().as_bytes(), password, challenge)
}

/// An administrator of the master server.
#[derive(Clone, Debug)]
pub struct Admin {
    /// The administrator's name.
    pub name: String,
    /// The administrator's password.
    pub password: String,
}

/// Whether two byte strings are equal.
pub fn bytes_eq(a: &[u8], b: &[u8]) -> (r: bool)
    ensures
        r == (a@ == b@),
{
    if a.len() != b.len() {
        return false;
    }
    let mut i: usize = 0;
    while i < a.len()
        invariant
            a@.len() == b@.len(),
            i <= a@.len(),
            forall|j: int| 0 <= j < i ==> a@[j] == b@[j],
        decreases a.len() - i,
    {
        if a[i] != b[i] {
            return false;
        }
        i = i + 1;
    }
    assert(a@ =~= b@);
    true
}

/// The first administrator, in the list's order, whose password gives `hash` for the
/// challenge.
pub open spec fn spec_find_admin(admins: Seq<Admin>, params: HashParams, hash: Seq<u8>, challenge: u32) -> Option<nat>
    decreases admins.len(),
{
    if admins.len() == 0 {
        None
    } else if spec_admin_hash(params, string_bytes(admins[0].password), challenge) == hash {
        Some(0)
    } else {
        match spec_find_admin(admins.drop_first(), params, hash, challenge) {
            Some(i) => Some(i + 1),
            None => None,
        }
    }
}

/// The position of the first administrator whose password gives `hash` for the challenge.
pub fn find_admin(admins: &[Admin], params: &HashParams, hash: &[u8], challenge: u32) -> (r: Option<usize>)
    requires
        params.valid(),
    ensures
        r == match spec_find_admin(admins@, *params, hash@, challenge) {
            Some(i) => Some(i as usize),
            None => None::<usize>,
        },
{
    let mut i: usize = 0;
    while i < admins.len()
        invariant
            params.valid(),
            i <= admins@.len(),
            forall|j: int| 0 <= j < i ==> spec_admin_hash(*params, string_bytes(#[trigger] admins@[j].password), challenge) != hash@,
        decreases admins.len() - i,
    {
        let h = admin_hash(params, admins[i].password.as_str().as_bytes(), challenge);
        if bytes_eq(h.as_slice(), hash) {
            proof {
                lemma_find_admin_at(admins@, *params, hash@, challenge, i as nat);
            }
            return Some(i);
        }
        i = i + 1;
    }
    proof {
        lemma_find_admin_none(admins@, *params, hash@, challenge);
    }
    None
}

/// The search finds the first administrator whose hash matches, when all before it fail.
proof fn lemma_find_admin_at(admins: Seq<Admin>, params: HashParams, hash: Seq<u8>, challenge: u32, i: nat)
    requires
        i < admins.len(),
        spec_admin_hash(params, string_bytes(admins[i as int].password), challenge) == hash,
        forall|j: int| 0 <= j < i ==> spec_admin_hash(params, string_bytes(#[trigger] admins[j].password), challenge) != hash,
    ensures
        spec_find_admin(admins, params, hash, challenge) == Some(i),
    decreases i,
{
    if i > 0 {
        let rest = admins.drop_first();
        assert forall|j: int| 0 <= j < i - 1 implies spec_admin_hash(params, string_bytes(#[trigger] rest[j].password), challenge) != hash by {
            assert(rest[j] == admins[j + 1]);
        }
        assert(rest[(i - 1) as int] == admins[i as int]);
        lemma_find_admin_at(rest, params, hash, challenge, (i - 1) as nat);
        assert(spec_admin_hash(params, string_bytes(admins[0].password), challenge) != hash);
    }
}

/// The search finds nobody when no administrator's hash matches.
proof fn lemma_find_admin_none(admins: Seq<Admin>, params: HashParams, hash: Seq<u8>, challenge: u32)
    requires
        forall|j: int| 0 <= j < admins.len() ==> spec_admin_hash(params, string_bytes(#[trigger] admins[j].password), challenge) != hash,
    ensures
        spec_find_admin(admins, params, hash, challenge) is None,
    decreases admins.len(),
{
    if admins.len() > 0 {
        let rest = admins.drop_first();
        assert forall|j: int| 0 <= j < rest.len() implies spec_admin_hash(params, string_bytes(#[trigger] rest[j].password), challenge) != hash by {
            assert(rest[j] == admins[j + 1]);
        }
        assert(spec_admin_hash(params, string_bytes(admins[0].password), challenge) != hash);
        lemma_find_admin_none(rest, params, hash, challenge);
    }
}

/// The hash challenge of the window whose master challenge is the one a command carries:
/// the current window is tried first, then the one before it. Each window is given as its
/// pair of master and hash challenges.
pub fn select_hash_challenge(current: (u32, u32), previous: (u32, u32), master_challenge: u32) -> (r: Option<u32>)
    ensures
        r == if current.0 == master_challenge {
            Some(current.1)
        } else if previous.0 == master_challenge {
            Some(previous.1)
        } else {
            None::<u32>
        },
{
    if current.0 == master_challenge {
        Some(current.1)
    } else if previous.0 == master_challenge {
        Some(previous.1)
    } else {
        None
    }
}

/// What an administrator command is granted.
#[derive(Clone, Copy, Debug, PartialEq, Eq, Structural)]
pub enum AdminAuth {
    /// The master challenge is of neither window: the command is ignored.
    InvalidChallenge,
    /// The hash is that of the administrator at this position: the command runs.
    Granted(usize),
    /// No administrator's hash matches: the command is refused, and the address is
    /// limited for a while.
    InvalidHash,
}

/// What an administrator command that carries `master_challenge` and `hash` is granted,
/// given the challenge pairs of the current and the previous window: the hash challenge of
/// the window whose master challenge it carries, then the first administrator whose
/// password gives the hash for it.
pub open spec fn spec_authenticate_admin(
    current: (u32, u32),
    previous: (u32, u32),
    master_challenge: u32,
    hash: Seq<u8>,
    admins: Seq<Admin>,
    params: HashParams,
) -> AdminAuth {
    match (if current.0 == master_challenge {
        Some(current.1)
    } else if previous.0 == master_challenge {
        Some(previous.1)
    } else {
        None::<u32>
    }) {
        None => AdminAuth::InvalidChallenge,
        Some(c) => match spec_find_admin(admins, params, hash, c) {
            Some(i) => AdminAuth::Granted(i as usize),
            None => AdminAuth::InvalidHash,
        },
    }
}

/// Decides on an administrator command that carries `master_challenge` and `hash`, given
/// the challenge pairs of the current and the previous window.
pub fn authenticate_admin(
    current: (u32, u32),
    previous: (u32, u32),
    master_challenge: u32,
    hash: &[u8],
    admins: &[Admin],
    params: &HashParams,
) -> (r: AdminAuth)
    requires
        params.valid(),
    ensures
        r == spec_authenticate_admin(current, previous, master_challenge, hash@, admins@, *params),
{
    let challenge = match select_hash_challenge(current, previous, master_challenge) {
        Some(c) => c,
        None => return AdminAuth::InvalidChallenge,
    };
    match find_admin(admins, params, hash, challenge) {
        Some(i) => AdminAuth::Granted(i),
        None => AdminAuth::InvalidHash,
    }
}

} // verus!

verus! {

/// An administrator's client that knows a password on the list sends a hash that the master
/// server accepts: the search finds that administrator or one listed before it.
pub proof fn lemma_known_password_granted(admins: Seq<Admin>, params: HashParams, password: Seq<u8>, challenge: u32, i: int)
    requires
        0 <= i < admins.len(),
        string_bytes(admins[i].password) == password,
    ensures
        spec_find_admin(admins, params, spec_admin_hash(params, password, challenge), challenge) matches Some(j) && j <= i,
    decreases admins.len(),
{
    if i > 0 && spec_admin_hash(params, string_bytes(admins[0].password), challenge) != spec_admin_hash(params, password, challenge) {
        let rest = admins.drop_first();
        assert(rest[i - 1] == admins[i]);
        lemma_known_password_granted(rest, params, password, challenge, i - 1);
    }
}

} // verus!

verus! {

/// The pieces of `s` between single `sep` bytes, as `str::split` gives them: one more piece
/// than separators, empty ones included.
pub open spec fn split_on(s: Seq<u8>, sep: u8) -> Seq<Seq<u8>>
    decreases s.len(),
{
    if s.len() == 0 {
        seq![Seq::empty()]
    } else {
        let p = split_on(s.drop_last(), sep);
        if s.last() == sep {
            p.push(Seq::empty())
        } else {
            p.update(p.len() - 1, p.last().push(s.last()))
        }
    }
}

/// The pieces of `s` between single spaces.
pub open spec fn split_spaces(s: Seq<u8>) -> Seq<Seq<u8>> {
    split_on(s, 32)
}

/// Splitting gives at least one piece.
pub proof fn lemma_split_on_len(s: Seq<u8>, sep: u8)
    ensures
        split_on(s, sep).len() >= 1,
    decreases s.len(),
{
    if s.len() > 0 {
        lemma_split_on_len(s.drop_last(), sep);
    }
}

/// The pieces of `s` between single `sep` bytes.
pub fn split_on_exec<'a>(s: &'a [u8], sep: u8) -> (r: Vec<&'a [u8]>)
    ensures
        r@.map_values(|p: &[u8]| p@) == split_on(s@, sep),
        vstd::utf8::valid_utf8(s@) && sep < 128 ==> forall|k: int| 0 <= k < r@.len() ==> vstd::utf8::valid_utf8(#[trigger] r@[k]@),
{
    let mut parts: Vec<&'a [u8]> = Vec::new();
    let mut start: usize = 0;
    let mut i: usize = 0;
    assert(s@.take(0) =~= Seq::<u8>::empty());
    assert(s@.subrange(0, s@.len() as int) =~= s@);
    assert(parts@.map_values(|p: &[u8]| p@).push(s@.subrange(0, 0)) =~= seq![Seq::<u8>::empty()]);
    while i < s.len()
        invariant
            start <= i <= s@.len(),
            split_on(s@.take(i as int), sep) == parts@.map_values(|p: &[u8]| p@).push(s@.subrange(start as int, i as int)),
            vstd::utf8::valid_utf8(s@) && sep < 128 ==> {
                &&& forall|k: int| 0 <= k < parts@.len() ==> vstd::utf8::valid_utf8(#[trigger] parts@[k]@)
                &&& vstd::utf8::valid_utf8(s@.subrange(start as int, s@.len() as int))
            },
        decreases s.len() - i,
    {
        let ghost before = parts@.map_values(|p: &[u8]| p@);
        assert(s@.take(i + 1).drop_last() =~= s@.take(i as int));
        proof {
            lemma_split_on_len(s@.take(i as int), sep);
        }
        if s[i] == sep {
            let piece = &s[start..i];
            proof {
                if vstd::utf8::valid_utf8(s@) && sep < 128 {
                    let u = s@.subrange(start as int, s@.len() as int);
                    assert(u[i - start] == sep);
                    crate::text::lemma_valid_around_ascii(u, i - start);
                    assert(u.subrange(0, i - start) =~= piece@);
                    assert(u.subrange(i - start + 1, u.len() as int) =~= s@.subrange(i + 1, s@.len() as int));
                }
            }
            parts.push(piece);
            assert(parts@.map_values(|p: &[u8]| p@) =~= before.push(s@.subrange(start as int, i as int)));
            start = i + 1;
            assert(s@.subrange(start as int, i + 1) =~= Seq::<u8>::empty());
        } else {
            assert(s@.subrange(start as int, i + 1) =~= s@.subrange(start as int, i as int).push(s[i as int]));
            assert(split_on(s@.take(i + 1), sep) =~= before.push(s@.subrange(start as int, i + 1)));
        }
        i = i + 1;
    }
    let piece = &s[start..s.len()];
    let ghost before = parts@.map_values(|p: &[u8]| p@);
    parts.push(piece);
    assert(s@.take(s@.len() as int) =~= s@);
    assert(parts@.map_values(|p: &[u8]| p@) =~= before.push(s@.subrange(start as int, s@.len() as int)));
    parts
}

/// The IP address that fills `s`, as `Ipv4Addr` or (when `v6`) `Ipv6Addr` parses one.
pub open spec fn parse_ip(s: Seq<u8>, v6: bool) -> Option<u128> {
    if v6 {
        match crate::addr_text::read_ipv6(s) {
            Some((ip, l)) => if l == s.len() { Some(ip) } else { None },
            None => None,
        }
    } else {
        match crate::addr_text::read_ipv4(s) {
            Some((ip, l)) => if l == s.len() { Some(ip as u128) } else { None },
            None => None,
        }
    }
}

/// Parses the IP address that fills `s`.
pub fn parse_ip_exec(s: &[u8], v6: bool) -> (r: Option<u128>)
    ensures
        r == parse_ip(s@, v6),
{
    assert(s@.skip(0) =~= s@);
    if v6 {
        match crate::addr_text::read_ipv6_at(s, 0) {
            Some((ip, l)) => if l == s.len() { Some(ip) } else { None },
            None => None,
        }
    } else {
        match crate::addr_text::read_ipv4_at(s, 0) {
            Some((ip, l)) => if l == s.len() { Some(ip as u128) } else { None },
            None => None,
        }
    }
}

/// The addresses among `args`, in order; the others are skipped.
pub open spec fn valid_ips(args: Seq<Seq<u8>>, v6: bool) -> Seq<u128>
    decreases args.len(),
{
    if args.len() == 0 {
        Seq::empty()
    } else {
        valid_ips(args.drop_last(), v6) + match parse_ip(args.last(), v6) {
            Some(ip) => seq![ip],
            None => Seq::empty(),
        }
    }
}

/// The arguments among `args` that are not addresses, in order.
pub open spec fn invalid_args(args: Seq<Seq<u8>>, v6: bool) -> Seq<Seq<u8>>
    decreases args.len(),
{
    if args.len() == 0 {
        Seq::empty()
    } else {
        invalid_args(args.drop_last(), v6) + if parse_ip(args.last(), v6) is None {
            seq![args.last()]
        } else {
            Seq::empty()
        }
    }
}

/// What an administrator command asks for.
#[derive(Clone, Copy, Debug, PartialEq, Eq, Structural)]
pub enum AdminCommandKind {
    /// `ban` and addresses: block them.
    Ban,
    /// `unban` and addresses: unblock them.
    Unban,
    /// Any other command, which is refused.
    Unknown,
}

/// An administrator command, read.
#[derive(Debug)]
pub struct AdminAction<'a> {
    /// What the command asks for.
    pub kind: AdminCommandKind,
    /// The addresses that it names, in order.
    pub ips: Vec<u128>,
    /// The arguments that are not addresses, in order.
    pub invalid: Vec<&'a [u8]>,
}

/// `ban`
pub open spec fn ban_word() -> Seq<u8> {
    seq![98u8, 97u8, 110u8]
}

/// `unban`
pub open spec fn unban_word() -> Seq<u8> {
    seq![117u8, 110u8, 98u8, 97u8, 110u8]
}

/// What a command asks for: its first word decides.
pub open spec fn spec_command_kind(cmd: Seq<u8>) -> AdminCommandKind {
    let w = split_spaces(cmd)[0];
    if w == ban_word() {
        AdminCommandKind::Ban
    } else if w == unban_word() {
        AdminCommandKind::Unban
    } else {
        AdminCommandKind::Unknown
    }
}

/// Reads an administrator command: its words are separated by single spaces; `ban` and
/// `unban` take the addresses that follow (IPv6 ones when `v6`), and words that are not
/// addresses are set aside. Any other first word makes an unknown command, whose arguments
/// are not read.
pub fn parse_admin_command<'a>(cmd: &'a str, v6: bool) -> (r: AdminAction<'a>)
    ensures
        r.kind == spec_command_kind(cmd.spec_bytes()),
        r.kind != AdminCommandKind::Unknown ==> r.ips@ == valid_ips(split_spaces(cmd.spec_bytes()).drop_first(), v6)
            && r.invalid@.map_values(|p: &[u8]| p@) == invalid_args(split_spaces(cmd.spec_bytes()).drop_first(), v6),
        r.kind == AdminCommandKind::Unknown ==> r.ips@.len() == 0 && r.invalid@.len() == 0,
{
    let bytes = cmd.as_bytes();
    let args = split_on_exec(bytes, 32);
    let ghost words = split_spaces(bytes@);
    proof {
        lemma_split_on_len(bytes@, 32);
        assert(args@.len() == words.len());
        assert(args@[0]@ == words[0]);
    }
    let first = args[0];
    let ban: [u8; 3] = [98, 97, 110];
    let unban: [u8; 5] = [117, 110, 98, 97, 110];
    proof {
        assert(ban@ =~= ban_word());
        assert(unban@ =~= unban_word());
    }
    let kind = if bytes_eq(first, &ban) {
        AdminCommandKind::Ban
    } else if bytes_eq(first, &unban) {
        AdminCommandKind::Unban
    } else {
        AdminCommandKind::Unknown
    };
    let mut ips: Vec<u128> = Vec::new();
    let mut invalid: Vec<&'a [u8]> = Vec::new();
    if kind == AdminCommandKind::Unknown {
        return AdminAction { kind, ips, invalid };
    }
    let ghost rest = words.drop_first();
    let mut i: usize = 1;
    while i < args.len()
        invariant
            1 <= i <= args@.len(),
            args@.len() == words.len(),
            rest == words.drop_first(),
            forall|j: int| 0 <= j < args@.len() ==> (#[trigger] args@[j])@ == words[j],
            ips@ == valid_ips(rest.take(i - 1), v6),
            invalid@.map_values(|p: &[u8]| p@) == invalid_args(rest.take(i - 1), v6),
        decreases args.len() - i,
    {
        let arg = args[i];
        let ghost inv0 = invalid@.map_values(|p: &[u8]| p@);
        assert(rest.take(i as int).drop_last() =~= rest.take(i - 1));
        assert(rest.take(i as int).last() == words[i as int]);
        match parse_ip_exec(arg, v6) {
            Some(ip) => {
                ips.push(ip);
            },
            None => {
                invalid.push(arg);
                assert(invalid@.map_values(|p: &[u8]| p@) =~= inv0.push(arg@));
            },
        }
        assert(ips@ =~= valid_ips(rest.take(i as int), v6));
        assert(invalid@.map_values(|p: &[u8]| p@) =~= invalid_args(rest.take(i as int), v6));
        i = i + 1;
    }
    assert(rest.take(args@.len() - 1) =~= rest);
    AdminAction { kind, ips, invalid }
}

} // verus!

verus! {

#[verifier::external_type_specification]
#[verifier::external_body]
#[verifier::reject_recursive_types(T)]
#[verifier::reject_recursive_types(S)]
pub struct ExAHashSet<T, S>(ahash::AHashSet<T, S>);

/// An `AHashSet` of IP addresses, as numbers.
pub type IpSet = ahash::AHashSet<u128>;

/// What an `AHashSet` of addresses holds.
pub uninterp spec fn ahash_set_items(s: IpSet) -> Set<u128>;

/// `AHashSet::new`: an empty set.
///
/// Claimed: the new set holds nothing.
#[verifier::external_body]
fn ahash_set_new() -> (r: IpSet)
    ensures
        ahash_set_items(r).is_empty(),
{
    ahash::AHashSet::new()
}

/// `HashSet::insert` (through `AHashSet`'s `DerefMut`): adds `ip`.
///
/// Claimed: the set afterwards is the old one with `ip`, and the result says whether `ip`
/// was new to it.
#[verifier::external_body]
fn ahash_set_insert(s: &mut IpSet, ip: u128) -> (r: bool)
    ensures
        ahash_set_items(*final(s)) == ahash_set_items(*old(s)).insert(ip),
        r == !ahash_set_items(*old(s)).contains(ip),
{
    s.insert(ip)
}

/// `HashSet::remove` (through `AHashSet`'s `DerefMut`): removes `ip`.
///
/// Claimed: the set afterwards is the old one without `ip`, and the result says whether
/// `ip` was in it.
#[verifier::external_body]
fn ahash_set_remove(s: &mut IpSet, ip: u128) -> (r: bool)
    ensures
        ahash_set_items(*final(s)) == ahash_set_items(*old(s)).remove(ip),
        r == ahash_set_items(*old(s)).contains(ip),
{
    s.remove(&ip)
}

/// `HashSet::contains` (through `AHashSet`'s `Deref`).
///
/// Claimed: the result says whether `ip` is in the set.
#[verifier::external_body]
fn ahash_set_contains(s: &IpSet, ip: u128) -> (r: bool)
    ensures
        r == ahash_set_items(*s).contains(ip),
{
    s.contains(&ip)
}

/// The addresses of `ips` that adding them one by one to `set` finds new, in order.
pub open spec fn newly_added(set: Set<u128>, ips: Seq<u128>) -> Seq<u128>
    decreases ips.len(),
{
    if ips.len() == 0 {
        Seq::empty()
    } else {
        let before = set.union(ips.drop_last().to_set());
        newly_added(set, ips.drop_last()) + if before.contains(ips.last()) {
            Seq::empty()
        } else {
            seq![ips.last()]
        }
    }
}

/// The addresses of `ips` that removing them one by one from `set` finds there, in order.
pub open spec fn newly_removed(set: Set<u128>, ips: Seq<u128>) -> Seq<u128>
    decreases ips.len(),
{
    if ips.len() == 0 {
        Seq::empty()
    } else {
        let before = set.difference(ips.drop_last().to_set());
        newly_removed(set, ips.drop_last()) + if before.contains(ips.last()) {
            seq![ips.last()]
        } else {
            Seq::empty()
        }
    }
}

/// The addresses whose packets the master server drops.
pub struct BlockList {
    set: IpSet,
}

impl View for BlockList {
    type V = Set<u128>;

    /// The blocked addresses.
    closed spec fn view(&self) -> Set<u128> {
        ahash_set_items(self.set)
    }
}

impl BlockList {
    /// No address blocked.
    pub fn new() -> (r: Self)
        ensures
            r@.is_empty(),
    {
        BlockList { set: ahash_set_new() }
    }

    /// Whether packets from `ip` are dropped.
    pub fn is_blocked(&self, ip: u128) -> (r: bool)
        ensures
            r == self@.contains(ip),
    {
        ahash_set_contains(&self.set, ip)
    }

    /// Blocks the addresses of `ips`, and gives back those that were not blocked yet, in
    /// order: the servers of those addresses are to be removed.
    pub fn ban(&mut self, ips: &[u128]) -> (r: Vec<u128>)
        ensures
            final(self)@ == old(self)@.union(ips@.to_set()),
            r@ == newly_added(old(self)@, ips@),
    {
        let mut out: Vec<u128> = Vec::new();
        let mut i: usize = 0;
        while i < ips.len()
            invariant
                i <= ips@.len(),
                self@ == old(self)@.union(ips@.take(i as int).to_set()),
                out@ == newly_added(old(self)@, ips@.take(i as int)),
            decreases ips.len() - i,
        {
            let ip = ips[i];
            let ghost s0 = self@;
            assert(ips@.take(i + 1).drop_last() =~= ips@.take(i as int));
            assert(ips@.take(i + 1).last() == ip);
            if ahash_set_insert(&mut self.set, ip) {
                out.push(ip);
            }
            assert(ips@.take(i + 1).to_set() =~= ips@.take(i as int).to_set().insert(ip)) by {
                assert(ips@.take(i + 1) =~= ips@.take(i as int).push(ip));
                ips@.take(i as int).lemma_push_to_set_commute(ip);
            }
            assert(self@ =~= old(self)@.union(ips@.take(i + 1).to_set()));
            i = i + 1;
        }
        assert(ips@.take(ips@.len() as int) =~= ips@);
        out
    }

    /// Unblocks the addresses of `ips`, and gives back those that were blocked, in order.
    pub fn unban(&mut self, ips: &[u128]) -> (r: Vec<u128>)
        ensures
            final(self)@ == old(self)@.difference(ips@.to_set()),
            r@ == newly_removed(old(self)@, ips@),
    {
        let mut out: Vec<u128> = Vec::new();
        let mut i: usize = 0;
        while i < ips.len()
            invariant
                i <= ips@.len(),
                self@ == old(self)@.difference(ips@.take(i as int).to_set()),
                out@ == newly_removed(old(self)@, ips@.take(i as int)),
            decreases ips.len() - i,
        {
            let ip = ips[i];
            assert(ips@.take(i + 1).drop_last() =~= ips@.take(i as int));
            assert(ips@.take(i + 1).last() == ip);
            if ahash_set_remove(&mut self.set, ip) {
                out.push(ip);
            }
            assert(ips@.take(i + 1).to_set() =~= ips@.take(i as int).to_set().insert(ip)) by {
                assert(ips@.take(i + 1) =~= ips@.take(i as int).push(ip));
                ips@.take(i as int).lemma_push_to_set_commute(ip);
            }
            assert(self@ =~= old(self)@.difference(ips@.take(i + 1).to_set()));
            i = i + 1;
        }
        assert(ips@.take(ips@.len() as int) =~= ips@);
        out
    }
}





/// Acts on an administrator command from `ip` at `now` that carries `master_challenge`,
/// `hash` and `command`, given the challenge pairs of the current and the previous window: a
/// granted command is carried out; a wrong hash makes the address limited for a while; a
/// command with neither window's master challenge is ignored. Gives back the decision.
pub fn handle_admin_command_at(
    current: (u32, u32),
    previous: (u32, u32),
    master_challenge: u32,
    hash: &[u8],
    command: &str,
    admins: &[Admin],
    params: &HashParams,
    v6: bool,
    ip: u128,
    failures: &mut TimedHashMap,
    blocklist: &mut BlockList,
    servers: &mut ServerTable,
    now: u64,
) -> (r: AdminAuth)
    requires
        params.valid(),
        old(failures).wf(),
        old(servers).wf(),
    ensures
        final(failures).wf(),
        final(servers).wf(),
        final(failures).timeout() == old(failures).timeout(),
        final(servers).timeout() == old(servers).timeout(),
        r == spec_authenticate_admin(current, previous, master_challenge, hash@, admins@, *params),
        r is Granted ==> final(failures).entries() == old(failures).entries() && command_applied(
            command.spec_bytes(),
            v6,
            old(blocklist)@,
            final(blocklist)@,
            old(servers).entries(),
            final(servers).entries(),
            now,
            old(servers).timeout(),
        ),
        r is InvalidHash ==> final(failures).entries() == after_tick(
            old(failures).entries().insert(ip, Timed { time: now, value: 0 }),
            old(failures).ticks(),
            now,
            old(failures).timeout(),
        ) && final(blocklist)@ == old(blocklist)@ && final(servers).entries() == old(servers).entries(),
        r is InvalidChallenge ==> final(failures).entries() == old(failures).entries()
            && final(blocklist)@ == old(blocklist)@ && final(servers).entries() == old(servers).entries(),
{
    let auth = authenticate_admin(current, previous, master_challenge, hash, admins, params);
    match auth {
        AdminAuth::Granted(_) => {
            admin_command_at(command, v6, blocklist, servers, now);
        },
        AdminAuth::InvalidHash => {
            remember_admin_failure_at(failures, ip, now);
        },
        AdminAuth::InvalidChallenge => {},
    }
    auth
}

/// A signal that the running master server receives.
#[derive(Clone, Copy, Debug, PartialEq, Eq, Structural)]
pub enum MasterSignal {
    /// `SIGINT`.
    Interrupt,
    /// `SIGUSR1`.
    User1,
    /// Any other signal.
    Other,
}

/// What the running master server does on a signal.
#[derive(Clone, Copy, Debug, PartialEq, Eq, Structural)]
pub enum MasterAction {
    /// Keep serving and waiting for signals.
    KeepWaiting,
    /// Stop serving and exit.
    Exit,
    /// Stop serving, reload the configuration from its file, and serve again.
    ReloadConfig,
    /// Stop serving, warn that no configuration file was given, and serve again.
    NoConfigToReload,
}

/// What the running master server does on `signal`: an interrupt stops it, `SIGUSR1`
/// reloads the configuration when it was read from a file (and only warns otherwise), and
/// any other signal is ignored.
pub fn master_signal_action(signal: MasterSignal, has_config_path: bool) -> (r: MasterAction)
    ensures
        r == match signal {
            MasterSignal::Interrupt => MasterAction::Exit,
            MasterSignal::User1 => if has_config_path { MasterAction::ReloadConfig } else { MasterAction::NoConfigToReload },
            MasterSignal::Other => MasterAction::KeepWaiting,
        },
{
    match signal {
        MasterSignal::Interrupt => MasterAction::Exit,
        MasterSignal::User1 => if has_config_path {
            MasterAction::ReloadConfig
        } else {
            MasterAction::NoConfigToReload
        },
        MasterSignal::Other => MasterAction::KeepWaiting,
    }
}


/// Which build number limit a client is held to depends on its version alone: a client of
/// version 0.20 or later must send a build number of at least `min_engine_buildnum`, an
/// older one at least `min_old_engine_buildnum` (a limit of 0 asks for nothing).
pub proof fn lemma_buildnum_limit_by_version(v: Version, buildnum: Option<u32>, limits: ClientLimits)
    requires
        spec_query_servers_valid(Some(v), buildnum, limits),
    ensures
        (v.major > 0 || v.minor >= 20) && limits.min_engine_buildnum > 0 ==> (buildnum matches Some(b)
            && b >= limits.min_engine_buildnum),
        (v.major == 0 && v.minor < 20) && limits.min_old_engine_buildnum > 0 ==> (buildnum matches Some(b)
            && b >= limits.min_old_engine_buildnum),
{
}

/// A query is accepted exactly when it names a version no older than `min_version`
/// (compared by major, minor, then patch number) and a build number that meets the limit of
/// its engine: `min_engine_buildnum` from 0.20 on, `min_old_engine_buildnum` before.
pub proof fn lemma_query_accepted(v: Version, buildnum: Option<u32>, limits: ClientLimits)
    ensures
        spec_query_servers_valid(Some(v), buildnum, limits) <==> ({
            let m = limits.min_version;
            let new_enough = v.major > m.major || (v.major == m.major && (v.minor > m.minor || (v.minor == m.minor
                && v.patch >= m.patch)));
            let min = if v.major > 0 || v.minor >= 20 {
                limits.min_engine_buildnum
            } else {
                limits.min_old_engine_buildnum
            };
            new_enough && (min == 0 || (buildnum matches Some(b) && b >= min))
        }),
        spec_query_servers_valid(None, buildnum, limits) == false,
{
}

/// What the master server does with a server list request.
#[derive(Debug)]
pub enum QueryServersReply {
    /// The request is refused: the client is sent the update address as its only server.
    Update,
    /// The servers offered to the client, and the servers behind NAT that the client is
    /// announced to (none when it is not announced).
    Servers(Vec<ServerKey>, Vec<ServerKey>),
}

/// Answers a server list request at `now` from the client `client` of version `clver` and
/// build number `buildnum`, asking for `region`, whose filter `matches` servers, names the
/// game directory `gamedir` and says `filter_nat` of NAT: a request that the limits refuse
/// gets the update address, and the client's game directory, when given, is kept for the
/// update reply; otherwise the servers offered and matched, and, when some of them are
/// behind NAT and the filter does not ask for no NAT, those servers to announce the client
/// to.
pub fn query_servers_reply_at<F: Fn(&ServerInfo) -> bool>(
    table: &ServerTable,
    gamedirs: &mut UpdateGamedirs,
    client: ServerKey,
    gamedir: Option<&[u8]>,
    limits: &ClientLimits,
    region: Region,
    clver: Option<Version>,
    buildnum: Option<u32>,
    filter_nat: Option<bool>,
    matches: F,
    now: u64,
) -> (r: QueryServersReply)
    requires
        forall|i: &ServerInfo| #[trigger] matches.requires((i,)),
        old(gamedirs).wf(),
    ensures
        final(gamedirs).wf(),
        final(gamedirs).timeout() == old(gamedirs).timeout(),
        !spec_query_servers_valid(clver, buildnum, *limits) ==> r is Update,
        !spec_query_servers_valid(clver, buildnum, *limits) ==> match gamedir {
            Some(g) if g@.len() <= GAMEDIR_MAX_SIZE => {
                &&& final(gamedirs).entries() == dirs_after_tick(
                    old(gamedirs).entries().insert(client, (now, g@)),
                    old(gamedirs).ticks(),
                    now,
                    old(gamedirs).timeout(),
                )
                &&& final(gamedirs).ticks() == next_count(old(gamedirs).ticks())
            },
            _ => final(gamedirs).entries() == old(gamedirs).entries() && final(gamedirs).ticks() == old(gamedirs).ticks(),
        },
        spec_query_servers_valid(clver, buildnum, *limits) ==> final(gamedirs).entries() == old(gamedirs).entries()
            && final(gamedirs).ticks() == old(gamedirs).ticks(),
        spec_query_servers_valid(clver, buildnum, *limits) ==> (clver matches Some(v) && r matches QueryServersReply::Servers(list, announced) && {
            let m = table.entries();
            let f = fresh_keys(m, now, table.timeout());
            let behind = list@.filter(is_behind_nat(m));
            &&& list@.no_duplicates()
            &&& forall|j: int| 0 <= j < list@.len() ==> {
                let k = #[trigger] list@[j];
                &&& f.contains(k)
                &&& offered(m[k].value, region, v)
                &&& matches.ensures((&m[k].value,), true)
            }
            &&& forall|k: ServerKey| #[trigger] f.contains(k) && offered(m[k].value, region, v) && !list@.contains(k)
                ==> matches.ensures((&m[k].value,), false)
            &&& announced@ == if behind.len() > 0 && match filter_nat { Some(b) => b, None => true } {
                behind
            } else {
                Seq::<ServerKey>::empty()
            }
        }),
{
    if !is_query_servers_valid(clver, buildnum, limits) {
        gamedirs.save_at(client, gamedir, now);
        return QueryServersReply::Update;
    }
    let v = match clver {
        Some(v) => v,
        None => return QueryServersReply::Update,
    };
    let (list, behind_nat) = table.select_servers_at(region, v, matches, now);
    if crate::servers::announce_to_nat(behind_nat.len(), filter_nat) {
        QueryServersReply::Servers(list, behind_nat)
    } else {
        QueryServersReply::Servers(list, Vec::new())
    }
}


/// The reply to a refused server list request: the update address as the client's only
/// server, with the request's key, in packets made in `buf`.
pub fn update_address_reply<A: ServerAddress>(key: Option<u32>, update_addr: A, buf: &mut [u8]) -> (r: Result<Vec<Vec<u8>>, Error>)
    requires
        old(buf)@.len() < query_servers_response_header().len() + key_header(key).len() + A::spec_size()
            || old(buf)@.len() >= query_servers_response_header().len() + key_header(key).len() + 2 * A::spec_size(),
    ensures
        r is Err <==> old(buf)@.len() < query_servers_response_header().len() + key_header(key).len() + A::spec_size(),
        r matches Err(e) ==> e == end_error(),
        r matches Ok(ps) ==> ps@.map_values(|p: Vec<u8>| p@) == server_list_packets(
            key,
            seq![update_addr],
            old(buf)@.len() - query_servers_response_header().len() - key_header(key).len(),
        ),
{
    let list: [A; 1] = [update_addr];
    assert(list@ =~= seq![update_addr]);
    encode_server_list(key, &list, buf)
}

/// The servers of `m` left after forgetting, at `now`, the servers of each address of
/// `ips` in turn, together with the expired ones.
pub open spec fn servers_without_ips(m: Map<ServerKey, Timed<ServerInfo>>, ips: Seq<u128>, now: u64, secs: u32) -> Map<ServerKey, Timed<ServerInfo>>
    decreases ips.len(),
{
    if ips.len() == 0 {
        m
    } else {
        let m1 = servers_without_ips(m, ips.drop_last(), now, secs);
        m1.restrict(fresh_keys(m1, now, secs).filter(other_ip(ips.last())))
    }
}

/// What carrying out the administrator command `cmd` at `now` does to the blocked
/// addresses `bl0` and the listed servers `m0`, giving `bl1` and `m1`: see
/// `admin_command_at`.
pub open spec fn command_applied(
    cmd: Seq<u8>,
    v6: bool,
    bl0: Set<u128>,
    bl1: Set<u128>,
    m0: Map<ServerKey, Timed<ServerInfo>>,
    m1: Map<ServerKey, Timed<ServerInfo>>,
    now: u64,
    secs: u32,
) -> bool {
    let ips = valid_ips(split_spaces(cmd).drop_first(), v6);
    match spec_command_kind(cmd) {
        AdminCommandKind::Ban => bl1 == bl0.union(ips.to_set()) && m1 == servers_without_ips(m0, newly_added(bl0, ips), now, secs),
        AdminCommandKind::Unban => bl1 == bl0.difference(ips.to_set()) && m1 == m0,
        AdminCommandKind::Unknown => bl1 == bl0 && m1 == m0,
    }
}

/// Carries out an administrator command at `now`: `ban` blocks the addresses it names and
/// forgets the servers of each address that was not blocked before; `unban` unblocks the
/// addresses it names; any other command changes nothing. Gives back the command as read.
pub fn admin_command_at<'a>(cmd: &'a str, v6: bool, blocklist: &mut BlockList, servers: &mut ServerTable, now: u64) -> (r: AdminAction<'a>)
    requires
        old(servers).wf(),
    ensures
        final(servers).wf(),
        final(servers).timeout() == old(servers).timeout(),
        r.kind == spec_command_kind(cmd.spec_bytes()),
        r.kind != AdminCommandKind::Unknown ==> r.ips@ == valid_ips(split_spaces(cmd.spec_bytes()).drop_first(), v6)
            && r.invalid@.map_values(|p: &[u8]| p@) == invalid_args(split_spaces(cmd.spec_bytes()).drop_first(), v6),
        r.kind == AdminCommandKind::Unknown ==> r.ips@.len() == 0 && r.invalid@.len() == 0,
        r.kind == AdminCommandKind::Ban ==> final(blocklist)@ == old(blocklist)@.union(r.ips@.to_set())
            && final(servers).entries() == servers_without_ips(
                old(servers).entries(),
                newly_added(old(blocklist)@, r.ips@),
                now,
                old(servers).timeout(),
            ),
        r.kind == AdminCommandKind::Unban ==> final(blocklist)@ == old(blocklist)@.difference(r.ips@.to_set())
            && final(servers).entries() == old(servers).entries(),
        r.kind == AdminCommandKind::Unknown ==> final(blocklist)@ == old(blocklist)@
            && final(servers).entries() == old(servers).entries(),
        command_applied(
            cmd.spec_bytes(),
            v6,
            old(blocklist)@,
            final(blocklist)@,
            old(servers).entries(),
            final(servers).entries(),
            now,
            old(servers).timeout(),
        ),
{
    let action = parse_admin_command(cmd, v6);
    match action.kind {
        AdminCommandKind::Ban => {
            let added = blocklist.ban(action.ips.as_slice());
            let ghost m0 = servers.entries();
            let n = added.len();
            for i in 0..n
                invariant
                    n == added@.len(),
                    servers.wf(),
                    servers.timeout() == old(servers).timeout(),
                    m0 == old(servers).entries(),
                    servers.entries() == servers_without_ips(m0, added@.take(i as int), now, servers.timeout()),
            {
                let ghost before = servers.entries();
                servers.remove_servers_by_ip_at(added[i], now);
                proof {
                    assert(added@.take(i + 1).drop_last() =~= added@.take(i as int));
                    assert(added@.take(i + 1).last() == added@[i as int]);
                    if before.is_empty() {
                        assert(before.restrict(fresh_keys(before, now, servers.timeout()).filter(other_ip(added@[i as int]))) =~= before);
                    }
                }
            }
            assert(added@.take(n as int) =~= added@);
        },
        AdminCommandKind::Unban => {
            blocklist.unban(action.ips.as_slice());
        },
        AdminCommandKind::Unknown => {},
    }
    action
}

} // verus!

verus! {

/// No more addresses are written than the list has.
pub proof fn lemma_fit_count_le(avail: int, size: nat, len: nat)
    ensures
        fit_count(avail, size, len) <= len,
        len > 0 && size > 0 && avail >= 2 * size ==> fit_count(avail, size, len) >= 1,
    decreases len,
{
    if len > 0 && size > 0 && avail >= 2 * size {
        lemma_fit_count_le(avail - size, size, (len - 1) as nat);
    }
}

/// The packets that send the server list `l` with `key`, when `avail` bytes of a packet are
/// left for addresses: each holds as many of the remaining addresses as fit, and the last
/// one the rest. An empty list makes one packet.
pub open spec fn server_list_packets<A: ServerAddress>(key: Option<u32>, l: Seq<A>, avail: int) -> Seq<Seq<u8>>
    decreases l.len(),
{
    let c = fit_count(avail, A::spec_size(), l.len());
    let p = spec_encode_query_servers_response(key, l.take(c as int));
    if c == 0 || c >= l.len() {
        seq![p]
    } else {
        seq![p] + server_list_packets(key, l.skip(c as int), avail)
    }
}

/// The packets of the server list `servers` with `key`, each made in `buf`. Fails when
/// `buf` cannot hold the header, the key and the address that ends a list.
pub fn encode_server_list<A: ServerAddress>(key: Option<u32>, servers: &[A], buf: &mut [u8]) -> (r: Result<Vec<Vec<u8>>, Error>)
    requires
        servers@.len() == 0 || old(buf)@.len() < query_servers_response_header().len()
            + key_header(key).len() + A::spec_size() || old(buf)@.len() >= query_servers_response_header().len()
            + key_header(key).len() + 2 * A::spec_size(),
    ensures
        r is Err <==> old(buf)@.len() < query_servers_response_header().len() + key_header(key).len() + A::spec_size(),
        r matches Err(e) ==> e == end_error(),
        r matches Ok(ps) ==> ps@.map_values(|p: Vec<u8>| p@) == server_list_packets(
            key,
            servers@,
            old(buf)@.len() - query_servers_response_header().len() - key_header(key).len(),
        ),
{
    proof {
        A::lemma_bytes(arbitrary(), Seq::empty());
    }
    let ghost avail: int = buf@.len() - query_servers_response_header().len() - key_header(key).len();
    let ghost len0 = buf@.len();
    let mut list = QueryServersResponse::new(key);
    let mut packets: Vec<Vec<u8>> = Vec::new();
    let mut offset: usize = 0;
    proof {
        assert(servers@.skip(0) =~= servers@);
        assert(packets@.map_values(|p: Vec<u8>| p@) + server_list_packets(key, servers@, avail)
            =~= server_list_packets(key, servers@, avail));
    }
    loop
        invariant
            buf@.len() == len0,
            len0 == old(buf)@.len(),
            avail == len0 - query_servers_response_header().len() - key_header(key).len(),
            list@ == key,
            offset <= servers@.len(),
            offset == 0 || offset < servers@.len(),
            servers@.len() == 0 || avail < A::spec_size() || avail >= 2 * A::spec_size(),
            6 <= A::spec_size() <= 64,
            offset > 0 ==> avail >= 2 * A::spec_size(),
            packets@.map_values(|p: Vec<u8>| p@) + server_list_packets(key, servers@.skip(offset as int), avail)
                == server_list_packets(key, servers@, avail),
        decreases servers@.len() - offset,
    {
        let rest = &servers[offset..servers.len()];
        assert(rest@ =~= servers@.skip(offset as int));
        let (packet, count) = match list.encode(buf, rest) {
            Ok(x) => x,
            Err(e) => {
                return Err(e);
            },
        };
        let v = vstd::slice::slice_to_vec(packet);
        let ghost before = packets@.map_values(|p: Vec<u8>| p@);
        packets.push(v);
        proof {
            lemma_fit_count_le(avail, A::spec_size(), rest@.len());
            assert(packets@.map_values(|p: Vec<u8>| p@) =~= before.push(v@));
        }
        let ghost c = count as nat;
        if count >= rest.len() || count == 0 {
            proof {
                assert(server_list_packets(key, rest@, avail) =~= seq![v@]);
                assert(before.push(v@) =~= before + seq![v@]);
            }
            return Ok(packets);
        }
        proof {
            assert(server_list_packets(key, rest@, avail) =~= seq![v@] + server_list_packets(key, rest@.skip(c as int), avail));
            assert(rest@.skip(c as int) =~= servers@.skip(offset + c));
            assert(before + server_list_packets(key, rest@, avail) =~= before.push(v@) + server_list_packets(key, servers@.skip(offset + c), avail));
        }
        offset = offset + count;
    }
}

} // verus!

verus! {

/// The addresses that a client reads from one packet of a server list.
pub open spec fn packet_addrs<A: ServerAddress>(p: Seq<u8>) -> Seq<A> {
    match spec_decode_query_servers_response(p) {
        Ok((inner, _)) => addr_items::<A>(inner),
        Err(_) => Seq::empty(),
    }
}

/// The addresses that a client reads from packets of a server list, in order.
pub open spec fn all_packet_addrs<A: ServerAddress>(ps: Seq<Seq<u8>>) -> Seq<A>
    decreases ps.len(),
{
    if ps.len() == 0 {
        Seq::empty()
    } else {
        packet_addrs::<A>(ps[0]) + all_packet_addrs::<A>(ps.drop_first())
    }
}

/// Whether an address's bytes would read as the start of a key, were no key sent.
pub open spec fn looks_like_key<A: ServerAddress>(a: A) -> bool {
    a.spec_bytes()[0] == 0x7f && a.spec_bytes()[5] == 8
}

/// A chunk of the list reads back as itself.
proof fn lemma_chunk_roundtrip<A: ServerAddress>(key: Option<u32>, l: Seq<A>)
    requires
        forall|i: int| 0 <= i < l.len() ==> (#[trigger] l[i]).spec_is_canonical(),
        key is Some || forall|i: int| 0 <= i < l.len() ==> !looks_like_key(#[trigger] l[i]),
    ensures
        packet_addrs::<A>(spec_encode_query_servers_response(key, l)) == l,
{
    A::lemma_bytes(arbitrary(), Seq::empty());
    let inner = addrs_bytes(l) + zeros(A::spec_size());
    if key is None {
        if l.len() == 0 {
            assert(addrs_bytes(l) =~= Seq::<u8>::empty());
            assert(inner[0] == 0);
        } else {
            A::lemma_bytes(l[0], Seq::empty());
            assert(addrs_bytes(l) == l[0].spec_bytes() + addrs_bytes(l.drop_first()));
            assert(inner[0] == l[0].spec_bytes()[0]);
            assert(inner[5] == l[0].spec_bytes()[5]);
            assert(!looks_like_key(l[0]));
        }
        assert(!has_key_marker(inner));
    }
    lemma_query_servers_response_roundtrip(key, l);
}

/// Every server of the list reaches the client: the addresses read back from the packets,
/// in order, are the list, when its addresses are written in full, a packet has room for two
/// addresses, and, when no key is sent, no address reads as the start of a key.
pub proof fn lemma_server_list_complete<A: ServerAddress>(key: Option<u32>, l: Seq<A>, avail: int)
    requires
        avail >= 2 * A::spec_size(),
        forall|i: int| 0 <= i < l.len() ==> (#[trigger] l[i]).spec_is_canonical(),
        key is Some || forall|i: int| 0 <= i < l.len() ==> !looks_like_key(#[trigger] l[i]),
    ensures
        all_packet_addrs::<A>(server_list_packets(key, l, avail)) == l,
    decreases l.len(),
{
    A::lemma_bytes(arbitrary(), Seq::empty());
    let c = fit_count(avail, A::spec_size(), l.len());
    lemma_fit_count_le(avail, A::spec_size(), l.len());
    let chunk = l.take(c as int);
    lemma_chunk_roundtrip(key, chunk);
    let ps = server_list_packets(key, l, avail);
    if c == 0 || c >= l.len() {
        assert(chunk =~= l);
        assert(ps =~= seq![spec_encode_query_servers_response(key, chunk)]);
        assert(ps.drop_first() =~= Seq::<Seq<u8>>::empty());
        assert(all_packet_addrs::<A>(ps.drop_first()) =~= Seq::<A>::empty());
        assert(all_packet_addrs::<A>(ps) =~= l);
    } else {
        let rest = l.skip(c as int);
        lemma_server_list_complete(key, rest, avail);
        assert(ps.drop_first() =~= server_list_packets(key, rest, avail));
        assert(chunk + rest =~= l);
    }
}

} // verus!

verus! {

/// `valve`
pub open spec fn valve_word() -> Seq<u8> {
    seq![118u8, 97u8, 108u8, 118u8, 101u8]
}

/// `cstrike`
pub open spec fn cstrike_word() -> Seq<u8> {
    seq![99u8, 115u8, 116u8, 114u8, 105u8, 107u8, 101u8]
}

/// The numbers of listed servers: all of them, and those of each game directory counted
/// apart.
#[derive(Clone, Copy, Debug, PartialEq, Eq, Structural)]
pub struct ServerCounts {
    pub total: u64,
    pub valve: u64,
    pub cstrike: u64,
    pub other: u64,
}

/// How many of `dirs` are `word`.
pub open spec fn count_of(dirs: Seq<Seq<u8>>, word: Seq<u8>) -> nat
    decreases dirs.len(),
{
    if dirs.len() == 0 {
        0
    } else {
        count_of(dirs.drop_last(), word) + if dirs.last() == word { 1nat } else { 0nat }
    }
}

/// The counts of servers with the game directories `dirs`.
pub open spec fn spec_server_counts(dirs: Seq<Seq<u8>>) -> ServerCounts {
    let valve = count_of(dirs, valve_word());
    let cstrike = count_of(dirs, cstrike_word());
    ServerCounts {
        total: dirs.len() as u64,
        valve: valve as u64,
        cstrike: cstrike as u64,
        other: (dirs.len() - valve - cstrike) as u64,
    }
}

/// Counts the servers with the game directories `dirs`.
pub fn server_counts(dirs: &[&[u8]]) -> (r: ServerCounts)
    ensures
        r == spec_server_counts(dirs@.map_values(|d: &[u8]| d@)),
{
    let ghost ds = dirs@.map_values(|d: &[u8]| d@);
    let valve: [u8; 5] = [118, 97, 108, 118, 101];
    let cstrike: [u8; 7] = [99, 115, 116, 114, 105, 107, 101];
    proof {
        assert(valve@ =~= valve_word());
        assert(cstrike@ =~= cstrike_word());
    }
    let mut nv: u64 = 0;
    let mut nc: u64 = 0;
    let mut no: u64 = 0;
    let mut i: usize = 0;
    while i < dirs.len()
        invariant
            i <= dirs@.len(),
            ds == dirs@.map_values(|d: &[u8]| d@),
            valve@ == valve_word(),
            cstrike@ == cstrike_word(),
            nv == count_of(ds.take(i as int), valve_word()),
            nc == count_of(ds.take(i as int), cstrike_word()),
            nv + nc + no == i,
        decreases dirs.len() - i,
    {
        assert(ds.take(i + 1).drop_last() =~= ds.take(i as int));
        assert(ds.take(i + 1).last() == dirs[i as int]@);
        if bytes_eq(dirs[i], &valve) {
            nv = nv + 1;
        } else if bytes_eq(dirs[i], &cstrike) {
            nc = nc + 1;
        } else {
            no = no + 1;
        }
        i = i + 1;
    }
    assert(ds.take(dirs@.len() as int) =~= ds);
    ServerCounts { total: dirs.len() as u64, valve: nv, cstrike: nc, other: no }
}

/// Banning reports each address that was not blocked before exactly once, and only those.
pub proof fn lemma_newly_added(set: Set<u128>, ips: Seq<u128>)
    ensures
        newly_added(set, ips).no_duplicates(),
        forall|x: u128| #[trigger] newly_added(set, ips).contains(x) <==> (ips.contains(x) && !set.contains(x)),
    decreases ips.len(),
{
    if ips.len() > 0 {
        let init = ips.drop_last();
        lemma_newly_added(set, init);
        let before = set.union(init.to_set());
        let r0 = newly_added(set, init);
        let x = ips.last();
        assert forall|y: u128| ips.contains(y) <==> (init.contains(y) || y == x) by {
            if ips.contains(y) {
                let j = choose|j: int| 0 <= j < ips.len() && ips[j] == y;
                if j < ips.len() - 1 {
                    assert(init[j] == y);
                }
            }
            if init.contains(y) {
                let j = choose|j: int| 0 <= j < init.len() && init[j] == y;
                assert(ips[j] == y);
            }
            if y == x {
                assert(ips[ips.len() - 1] == y);
            }
        }
        if !before.contains(x) {
            assert(!r0.contains(x));
            assert(newly_added(set, ips) =~= r0.push(x));
            assert forall|y: u128| #[trigger] r0.push(x).contains(y) <==> (r0.contains(y) || y == x) by {
                if r0.push(x).contains(y) {
                    let j = choose|j: int| 0 <= j < r0.len() + 1 && r0.push(x)[j] == y;
                    if j < r0.len() {
                        assert(r0[j] == y);
                    }
                }
                if r0.contains(y) {
                    let j = choose|j: int| 0 <= j < r0.len() && r0[j] == y;
                    assert(r0.push(x)[j] == y);
                }
                if y == x {
                    assert(r0.push(x)[r0.len() as int] == y);
                }
            }
        } else {
            assert(newly_added(set, ips) =~= r0);
        }
    }
}

} // verus!

verus! {

/// A request of a client or an administrator that the master server answers.
#[derive(Debug)]
pub enum ClientRequest<'a> {
    QueryServers(QueryServers<'a>),
    GetServerInfo(GetServerInfo),
    AdminChallenge,
    AdminCommand(AdminCommand<'a>),
}

/// The view of a client request.
pub enum ClientRequestView {
    QueryServers(QueryServersView),
    GetServerInfo(GetServerInfo),
    AdminChallenge,
    AdminCommand(AdminCommandView),
}

impl<'a> View for ClientRequest<'a> {
    type V = ClientRequestView;

    open spec fn view(&self) -> ClientRequestView {
        match self {
            ClientRequest::QueryServers(q) => ClientRequestView::QueryServers(q@),
            ClientRequest::GetServerInfo(g) => ClientRequestView::GetServerInfo(*g),
            ClientRequest::AdminChallenge => ClientRequestView::AdminChallenge,
            ClientRequest::AdminCommand(c) => ClientRequestView::AdminCommand(c@),
        }
    }
}

/// The view of the outcome of a client packet.
pub open spec fn request_result_view(r: Result<ClientRequest, UdpServerError>) -> Result<ClientRequestView, UdpServerError> {
    match r {
        Ok(q) => Ok(q@),
        Err(e) => Err(e),
    }
}

/// What the kind of a client packet is, by its first bytes: a server list query, a server
/// info query, an administrator challenge request, an administrator command (whose header
/// starts that of the challenge request, so it is tried after it), or none.
pub enum ClientPacketKind {
    QueryServers,
    GetServerInfo,
    AdminChallenge,
    AdminCommand,
    Undefined,
}

/// The kind of a client packet.
pub open spec fn client_packet_kind(s: Seq<u8>) -> ClientPacketKind {
    if seq_starts_with(s, query_servers_header()) {
        ClientPacketKind::QueryServers
    } else if seq_starts_with(s, get_server_info_header()) {
        ClientPacketKind::GetServerInfo
    } else if seq_starts_with(s, admin_challenge_header()) {
        ClientPacketKind::AdminChallenge
    } else if seq_starts_with(s, admin_command_header()) {
        ClientPacketKind::AdminCommand
    } else {
        ClientPacketKind::Undefined
    }
}

/// What a client packet decodes to, once the limits let it through.
pub open spec fn spec_decode_client_packet(s: Seq<u8>, hash_len: nat) -> Result<ClientRequestView, UdpServerError> {
    match client_packet_kind(s) {
        ClientPacketKind::QueryServers => match spec_decode_query_servers(s) {
            Ok(q) => Ok(ClientRequestView::QueryServers(q)),
            Err(e) => Err(UdpServerError::Protocol(e)),
        },
        ClientPacketKind::GetServerInfo => match spec_decode_get_server_info(s) {
            Ok(g) => Ok(ClientRequestView::GetServerInfo(g)),
            Err(e) => Err(UdpServerError::Protocol(e)),
        },
        ClientPacketKind::AdminChallenge => if s == admin_challenge_header() {
            Ok(ClientRequestView::AdminChallenge)
        } else {
            Err(UdpServerError::Protocol(Error::Cursor(crate::error::CursorError::Expect)))
        },
        ClientPacketKind::AdminCommand => match spec_decode_admin_command(hash_len, s) {
            Ok(c) => Ok(ClientRequestView::AdminCommand(c)),
            Err(e) => Err(UdpServerError::Protocol(e)),
        },
        ClientPacketKind::Undefined => Err(UdpServerError::UndefinedPacket),
    }
}

/// Takes a packet `src` of a client at `ip`, at `now`: server queries are counted against
/// the client's rate `limit` and administrator packets are refused while a recent invalid
/// hash of `ip` is remembered; what passes is decoded (administrator hashes of `hash_len`
/// bytes).
pub fn handle_client_packet_at<'a>(
    counters: &mut TimedHashMap,
    admin_failures: &TimedHashMap,
    ip: u128,
    src: &'a [u8],
    limit: u32,
    hash_len: usize,
    now: u64,
) -> (r: Result<ClientRequest<'a>, UdpServerError>)
    requires
        old(counters).wf(),
    ensures
        final(counters).wf(),
        final(counters).timeout() == old(counters).timeout(),
        ({
            let kind = client_packet_kind(src@);
            let game = kind is QueryServers || kind is GetServerInfo;
            let admin = kind is AdminChallenge || kind is AdminCommand;
            let c = one_more(request_count(old(counters).entries(), ip, now, old(counters).timeout()));
            &&& (game && limit > 0) ==> final(counters).entries() == counted(
                old(counters).entries(),
                old(counters).ticks(),
                ip,
                now,
                old(counters).timeout(),
            )
            &&& !(game && limit > 0) ==> final(counters).entries() == old(counters).entries()
            &&& request_result_view(r) == if game && limit > 0 && c > limit {
                Err(UdpServerError::GameRateLimit(c))
            } else if admin && fresh_get(admin_failures.entries(), ip, now, admin_failures.timeout()) is Some {
                Err(UdpServerError::AdminRateLimit)
            } else {
                spec_decode_client_packet(src@, hash_len as nat)
            }
        }),
{
    if starts_with(src, &QueryServers::header()) {
        allow_game_request_at(counters, ip, limit, now)?;
        return match QueryServers::decode(src) {
            Ok(q) => Ok(ClientRequest::QueryServers(q)),
            Err(e) => Err(UdpServerError::Protocol(e)),
        };
    }
    if starts_with(src, &GetServerInfo::header()) {
        allow_game_request_at(counters, ip, limit, now)?;
        return match GetServerInfo::decode(src) {
            Ok(g) => Ok(ClientRequest::GetServerInfo(g)),
            Err(e) => Err(UdpServerError::Protocol(e)),
        };
    }
    if starts_with(src, &AdminChallenge::header()) {
        allow_admin_request_at(admin_failures, ip, now)?;
        return match AdminChallenge::decode(src) {
            Ok(_) => Ok(ClientRequest::AdminChallenge),
            Err(e) => Err(UdpServerError::Protocol(e)),
        };
    }
    if starts_with(src, &AdminCommand::header()) {
        allow_admin_request_at(admin_failures, ip, now)?;
        return match AdminCommand::decode_with_hash_len(hash_len, src) {
            Ok(c) => Ok(ClientRequest::AdminCommand(c)),
            Err(e) => Err(UdpServerError::Protocol(e)),
        };
    }
    Err(UdpServerError::UndefinedPacket)
}

} // verus!

verus! {

/// The command packet that an administrator's client sends: the master challenge, the hash
/// of the password for the hash challenge, and the command, made in `buf`.
pub fn encode_admin_command_packet<'b>(
    params: &HashParams,
    password: &[u8],
    master_challenge: u32,
    hash_challenge: u32,
    command: &str,
    buf: &'b mut [u8],
) -> (r: Result<&'b [u8], Error>)
    requires
        params.valid(),
    ensures
        ({
            let v = AdminCommandView {
                master_challenge,
                hash: spec_admin_hash(*params, password@, hash_challenge),
                command: command.spec_bytes(),
            };
            &&& r is Ok <==> crate::admin::spec_encode_admin_command(v).len() <= old(buf)@.len()
            &&& r matches Ok(out) ==> out@ == crate::admin::spec_encode_admin_command(v)
        }),
{
    let hash = admin_hash(params, password, hash_challenge);
    AdminCommand::new(master_challenge, hash.as_slice(), command).encode(buf)
}

/// An administrator who sends a command with the master challenge of the current window and
/// the hash of a listed password for its hash challenge is granted it: the master reads the
/// packet as that command, and finds that administrator or one listed before. (The packet
/// must not read as a challenge request, which takes a master challenge and hash that spell
/// `challenge`.)
#[verifier::spinoff_prover]
#[verifier::rlimit(30)]
pub proof fn lemma_admin_command_granted(
    current: (u32, u32),
    previous: (u32, u32),
    admins: Seq<Admin>,
    params: HashParams,
    password: Seq<u8>,
    command: Seq<u8>,
    i: int,
)
    requires
        0 <= i < admins.len(),
        string_bytes(admins[i].password) == password,
        spec_admin_hash(params, password, current.1).len() == params.len,
        vstd::utf8::valid_utf8(command),
        !seq_starts_with(
            crate::admin::spec_encode_admin_command(
                AdminCommandView { master_challenge: current.0, hash: spec_admin_hash(params, password, current.1), command },
            ),
            admin_challenge_header(),
        ),
    ensures
        ({
            let v = AdminCommandView { master_challenge: current.0, hash: spec_admin_hash(params, password, current.1), command };
            &&& spec_decode_client_packet(crate::admin::spec_encode_admin_command(v), params.len as nat)
                == Ok::<ClientRequestView, UdpServerError>(ClientRequestView::AdminCommand(v))
            &&& spec_authenticate_admin(current, previous, v.master_challenge, v.hash, admins, params) matches AdminAuth::Granted(j)
                && j <= i
        }),
{
    let v = AdminCommandView { master_challenge: current.0, hash: spec_admin_hash(params, password, current.1), command };
    let s = crate::admin::spec_encode_admin_command(v);
    crate::admin::lemma_admin_command_roundtrip(params.len as nat, v);
    assert(s.subrange(0, 5) =~= admin_command_header());
    assert(s[0] == 97u8);
    assert(!seq_starts_with(s, query_servers_header()));
    assert(!seq_starts_with(s, get_server_info_header()));
    lemma_known_password_granted(admins, params, password, current.1, i);
}

} // verus!
