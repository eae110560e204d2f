//! A hash map whose entries expire: each entry remembers when it was made, and an entry
//! older than the map's timeout is treated as absent.

use vstd::prelude::*;

use ahash::AHashMap;

verus! {

#[verifier::external_type_specification]
#[verifier::external_body]
#[verifier::reject_recursive_types(K)]
#[verifier::reject_recursive_types(V)]
#[verifier::reject_recursive_types(S)]
pub struct ExAHashMap<K, V, S>(AHashMap<K, V, S>);

#[verifier::external_type_specification]
#[verifier::external_body]
pub struct ExAHashRandomState(ahash::RandomState);

/// A value together with the time, in milliseconds, at which it was made.
#[derive(Clone, Copy, Debug, PartialEq, Eq, Structural)]
pub struct Timed<T> {
    /// When the value was made, in milliseconds.
    pub time: u64,
    /// The value.
    pub value: T,
}

/// Whether an entry made at `time` is still younger than `secs` seconds at `now`, both
/// times in milliseconds: its age in whole seconds is below `secs`. A clock that went
/// backwards counts as no time passed.
pub open spec fn fresh_at(time: u64, now: u64, secs: u32) -> bool {
    (if now >= time { now - time } else { 0int }) < secs * 1000
}

/// The current time in milliseconds, as the system clock reports it.
///
/// Reads `std::time::SystemTime::now()`, as milliseconds since the Unix epoch (0 for a clock
/// set before it, `u64::MAX` past the range). Nothing is claimed of the result: the clock is
/// outside the program.
#[verifier::external_body]
pub fn now_millis() -> u64 {
    match std::time::SystemTime::now().duration_since(std::time::UNIX_EPOCH) {
        Ok(d) => u64::try_from(d.as_millis()).unwrap_or(u64::MAX),
        Err(_) => 0,
    }
}

impl<T> Timed<T> {
    /// Wraps `value`, stamped with the current time.
    pub fn new(value: T) -> (r: Self)
        ensures
            r.value == value,
    {
        Timed { time: now_millis(), value }
    }

    /// Wraps `value`, stamped with `time`.
    pub fn with_time(value: T, time: u64) -> (r: Self)
        ensures
            r.value == value,
            r.time == time,
    {
        Timed { time, value }
    }

    /// Whether the entry is younger than `secs` seconds at `now`.
    pub open spec fn spec_is_valid(&self, now: u64, secs: u32) -> bool {
        fresh_at(self.time, now, secs)
    }

    /// Whether the entry is younger than `secs` seconds at `now`.
    pub fn is_valid(&self, now: u64, secs: u32) -> (r: bool)
        ensures
            r == self.spec_is_valid(now, secs),
    {
        let age: u64 = if now >= self.time { now - self.time } else { 0 };
        age < secs as u64 * 1000
    }
}

/// An `AHashMap` of expiring counters, keyed by numbers.
pub type CounterMap = AHashMap<u128, Timed<u32>>;

/// What an `AHashMap` of expiring counters holds.
pub uninterp spec fn ahash_entries(m: CounterMap) -> Map<u128, Timed<u32>>;

/// `AHashMap::new`: an empty map.
///
/// Claimed: the new map holds nothing.
#[verifier::external_body]
fn ahash_new() -> (r: CounterMap)
    ensures
        ahash_entries(r).is_empty(),
{
    AHashMap::new()
}

/// `HashMap::len` (through `AHashMap`'s `Deref`): the number of entries.
///
/// Claimed: the number of keys that the map holds.
#[verifier::external_body]
fn ahash_len(m: &CounterMap) -> (r: usize)
    ensures
        r == ahash_entries(*m).len(),
{
    m.len()
}

/// `HashMap::clear` (through `AHashMap`'s `DerefMut`): removes every entry.
///
/// Claimed: afterwards the map holds nothing.
#[verifier::external_body]
fn ahash_clear(m: &mut CounterMap)
    ensures
        ahash_entries(*final(m)).is_empty(),
{
    m.clear()
}

/// `AHashMap::insert`: maps `k` to `v`, replacing what `k` mapped to.
///
/// Claimed: the map afterwards is the old one with `k` mapped to `v`, and the result is what
/// `k` mapped to before.
#[verifier::external_body]
fn ahash_insert(m: &mut CounterMap, k: u128, v: Timed<u32>) -> (r: Option<Timed<u32>>)
    ensures
        ahash_entries(*final(m)) == ahash_entries(*old(m)).insert(k, v),
        r == ahash_entries(*old(m)).get(k),
{
    m.insert(k, v)
}

/// `AHashMap::remove`: removes the entry of `k`.
///
/// Claimed: the map afterwards is the old one without `k`, and the result is what `k` mapped
/// to before.
#[verifier::external_body]
fn ahash_remove(m: &mut CounterMap, k: u128) -> (r: Option<Timed<u32>>)
    ensures
        ahash_entries(*final(m)) == ahash_entries(*old(m)).remove(k),
        r == ahash_entries(*old(m)).get(k),
{
    m.remove(&k)
}

/// `AHashMap::get`: what `k` maps to, copied out.
///
/// Claimed: the result is what the map holds for `k`.
#[verifier::external_body]
fn ahash_get(m: &CounterMap, k: u128) -> (r: Option<Timed<u32>>)
    ensures
        r == ahash_entries(*m).get(k),
{
    m.get(&k).copied()
}

/// `HashMap::keys` (through `AHashMap`'s `Deref`), collected: every key once, in the order
/// in which the map is walked.
///
/// Claimed: each key of the map occurs exactly once. The order depends on the seed of the
/// map's hasher, which each map draws at random, so nothing is said of it.
#[verifier::external_body]
fn ahash_keys(m: &CounterMap) -> (r: Vec<u128>)
    ensures
        r@.no_duplicates(),
        r@.to_set() == ahash_entries(*m).dom(),
{
    m.keys().copied().collect()
}

/// The entries of `m` that are younger than `secs` seconds at `now`.
pub open spec fn fresh_entries(m: Map<u128, Timed<u32>>, now: u64, secs: u32) -> Map<u128, Timed<u32>> {
    m.restrict(m.dom().filter(|k: u128| m[k].spec_is_valid(now, secs)))
}

/// The fresh entries of a map are among its entries, so finitely many when those are.
proof fn lemma_fresh_entries_finite(m: Map<u128, Timed<u32>>, now: u64, secs: u32)
    requires
        m.dom().finite(),
    ensures
        fresh_entries(m, now, secs).dom().finite(),
        fresh_entries(m, now, secs).dom().subset_of(m.dom()),
{
    vstd::set_lib::lemma_set_subset_finite(m.dom(), fresh_entries(m, now, secs).dom());
}

/// `HashMap::retain` (through `AHashMap`'s `DerefMut`), keeping the entries that are younger
/// than `secs` seconds at `now`, as `Timed::is_valid` decides.
///
/// Claimed: the map afterwards holds exactly the old entries for which the predicate held.
#[verifier::external_body]
fn ahash_retain_fresh(m: &mut CounterMap, now: u64, secs: u32)
    ensures
        ahash_entries(*final(m)) == fresh_entries(ahash_entries(*old(m)), now, secs),
{
    m.retain(|_, v| v.is_valid(now, secs))
}

/// How many calls a periodic task waits between two runs.
pub const PERIODIC_DEFAULT_LIMIT: u32 = 100;

/// A task that runs once every `limit` calls.
pub struct Periodic {
    count: u32,
    limit: u32,
}

impl Periodic {
    /// The calls counted since the task last ran.
    pub closed spec fn count(&self) -> nat {
        self.count as nat
    }

    /// How many calls make a run.
    pub closed spec fn limit(&self) -> nat {
        self.limit as nat
    }

    /// Whether the counter is below its limit.
    pub closed spec fn wf(&self) -> bool {
        self.count < self.limit
    }

    /// A task that runs on every `limit`-th call.
    pub fn new(limit: u32) -> (r: Self)
        requires
            limit > 0,
        ensures
            r.wf(),
            r.count() == 0,
            r.limit() == limit,
    {
        Periodic { count: 0, limit }
    }

    /// Counts a call, and says whether the task runs on it: it runs on every `limit`-th
    /// call.
    pub fn tick(&mut self) -> (r: bool)
        requires
            old(self).wf(),
        ensures
            final(self).wf(),
            final(self).limit() == old(self).limit(),
            r == (old(self).count() + 1 >= old(self).limit()),
            final(self).count() == if r { 0 } else { old(self).count() + 1 },
    {
        if self.count + 1 >= self.limit {
            self.count = 0;
            true
        } else {
            self.count = self.count + 1;
            false
        }
    }

    /// Starts the count again: the task has just run.
    pub fn reset(&mut self)
        requires
            old(self).wf(),
        ensures
            final(self).wf(),
            final(self).limit() == old(self).limit(),
            final(self).count() == 0,
    {
        self.count = 0;
    }
}

/// The entries after a call that may run the periodic cleanup: with `count` calls counted
/// before it, the cleanup runs when the call makes the limit, and keeps the entries that are
/// still younger than `secs` seconds at `now`.
pub open spec fn after_tick(
    m: Map<u128, Timed<u32>>,
    count: nat,
    now: u64,
    secs: u32,
) -> Map<u128, Timed<u32>> {
    if count + 1 >= PERIODIC_DEFAULT_LIMIT {
        fresh_entries(m, now, secs)
    } else {
        m
    }
}

/// The count of calls after one more call.
pub open spec fn next_count(count: nat) -> nat {
    if count + 1 >= PERIODIC_DEFAULT_LIMIT {
        0
    } else {
        count + 1
    }
}

/// What the map gives for `k` at `now`: its entry, when there is one younger than `secs`
/// seconds.
pub open spec fn fresh_get(m: Map<u128, Timed<u32>>, k: u128, now: u64, secs: u32) -> Option<Timed<u32>> {
    if m.dom().contains(k) && m[k].spec_is_valid(now, secs) {
        Some(m[k])
    } else {
        None
    }
}

/// A hash map of counters keyed by numbers (IP addresses, as the master server uses it),
/// whose entries expire `timeout` seconds after they were made.
pub struct TimedHashMap {
    timeout: u32,
    periodic: Periodic,
    map: CounterMap,
}

/// What looking `k` up at `now` as a caller about to change its entry does to the map
/// `before`, giving `after` and the entry `r`: see `TimedHashMap::entry_at`.
pub open spec fn entry_looked_up_at(before: TimedHashMap, after: TimedHashMap, r: Option<Timed<u32>>, k: u128, now: u64) -> bool {
    &&& r == fresh_get(before.entries(), k, now, before.timeout())
    &&& before.entries().dom().contains(k) ==> {
        &&& after.ticks() == before.ticks()
        &&& after.entries() == if r is Some {
            before.entries()
        } else {
            before.entries().remove(k)
        }
    }
    &&& !before.entries().dom().contains(k) ==> {
        &&& after.ticks() == next_count(before.ticks())
        &&& after.entries() == after_tick(before.entries(), before.ticks(), now, before.timeout())
    }
}

/// What keeping the entries that had not expired at `now` and that `f` accepts does to the
/// map `before`, giving `after`: see `TimedHashMap::retain_at`.
pub open spec fn retained_at<F: Fn(u128, u32) -> bool>(before: TimedHashMap, after: TimedHashMap, f: F, now: u64) -> bool {
    &&& after.ticks() == if before.entries().is_empty() { before.ticks() } else { 0 }
    &&& after.entries().dom().subset_of(before.entries().dom())
    &&& forall|k: u128| #[trigger] after.entries().dom().contains(k) ==> {
        &&& after.entries()[k] == before.entries()[k]
        &&& before.entries()[k].spec_is_valid(now, before.timeout())
        &&& f.ensures((k, before.entries()[k].value), true)
    }
    &&& forall|k: u128| #[trigger] before.entries().dom().contains(k) && !after.entries().dom().contains(k)
        ==> !before.entries()[k].spec_is_valid(now, before.timeout())
            || f.ensures((k, before.entries()[k].value), false)
}

impl TimedHashMap {
    /// What the map holds, expired entries included.
    pub closed spec fn entries(&self) -> Map<u128, Timed<u32>> {
        ahash_entries(self.map)
    }

    /// After how many seconds an entry expires.
    pub closed spec fn timeout(&self) -> u32 {
        self.timeout
    }

    /// The calls counted towards the next cleanup of expired entries.
    pub closed spec fn ticks(&self) -> nat {
        self.periodic.count()
    }

    /// Whether the periodic cleanup is set up as the map needs it.
    pub closed spec fn wf(&self) -> bool {
        &&& self.periodic.wf()
        &&& self.periodic.limit() == PERIODIC_DEFAULT_LIMIT
        &&& ahash_entries(self.map).dom().finite()
    }

    /// An empty map whose entries expire after `timeout` seconds.
    pub fn new(timeout: u32) -> (r: Self)
        ensures
            r.wf(),
            r.entries().is_empty(),
            r.timeout() == timeout,
            r.ticks() == 0,
    {
        TimedHashMap { timeout, periodic: Periodic::new(PERIODIC_DEFAULT_LIMIT), map: ahash_new() }
    }

    /// Changes after how many seconds entries expire.
    pub fn set_timeout(&mut self, timeout: u32)
        requires
            old(self).wf(),
        ensures
            final(self).wf(),
            final(self).entries() == old(self).entries(),
            final(self).timeout() == timeout,
            final(self).ticks() == old(self).ticks(),
    {
        self.timeout = timeout;
    }

    /// The number of entries, expired ones included.
    pub fn len(&self) -> (r: usize)
        ensures
            r == self.entries().len(),
    {
        ahash_len(&self.map)
    }

    /// Removes every entry.
    pub fn clear(&mut self)
        requires
            old(self).wf(),
        ensures
            final(self).wf(),
            final(self).entries().is_empty(),
            final(self).timeout() == old(self).timeout(),
            final(self).ticks() == old(self).ticks(),
    {
        ahash_clear(&mut self.map);
    }

    /// Counts a call; on every limit-th call, removes the entries that expired at `now`.
    fn cleanup_at(&mut self, now: u64)
        requires
            old(self).wf(),
        ensures
            final(self).wf(),
            final(self).entries() == after_tick(old(self).entries(), old(self).ticks(), now, old(self).timeout()),
            final(self).ticks() == next_count(old(self).ticks()),
            final(self).timeout() == old(self).timeout(),
    {
        if self.periodic.tick() {
            proof {
                lemma_fresh_entries_finite(self.entries(), now, self.timeout);
            }
            ahash_retain_fresh(&mut self.map, now, self.timeout);
        }
    }

    /// Maps `k` to `v`, stamped with the current time, and may clean up expired entries.
    pub fn insert(&mut self, k: u128, v: u32)
        requires
            old(self).wf(),
        ensures
            final(self).wf(),
            final(self).timeout() == old(self).timeout(),
            final(self).ticks() == next_count(old(self).ticks()),
            exists|now: u64|
                final(self).entries() == after_tick(
                    #[trigger] old(self).entries().insert(k, Timed { time: now, value: v }),
                    old(self).ticks(),
                    now,
                    old(self).timeout(),
                ),
    {
        let now = now_millis();
        self.insert_at(k, v, now);
    }

    /// Maps `k` to `v`, stamped with `now`; on every limit-th call it also removes the
    /// entries that expired at `now`.
    pub fn insert_at(&mut self, k: u128, v: u32, now: u64)
        requires
            old(self).wf(),
        ensures
            final(self).wf(),
            final(self).entries() == after_tick(
                old(self).entries().insert(k, Timed { time: now, value: v }),
                old(self).ticks(),
                now,
                old(self).timeout(),
            ),
            final(self).ticks() == next_count(old(self).ticks()),
            final(self).timeout() == old(self).timeout(),
    {
        ahash_insert(&mut self.map, k, Timed { time: now, value: v });
        self.cleanup_at(now);
    }

    /// Maps `k` to the entry `t` as it is, time included.
    pub fn put(&mut self, k: u128, t: Timed<u32>)
        requires
            old(self).wf(),
        ensures
            final(self).wf(),
            final(self).entries() == old(self).entries().insert(k, t),
            final(self).ticks() == old(self).ticks(),
            final(self).timeout() == old(self).timeout(),
    {
        ahash_insert(&mut self.map, k, t);
    }

    /// Removes the entry of `k`, and gives it back if it had not expired.
    pub fn remove(&mut self, k: u128) -> (r: Option<Timed<u32>>)
        requires
            old(self).wf(),
        ensures
            final(self).wf(),
            final(self).entries() == old(self).entries().remove(k),
            final(self).ticks() == old(self).ticks(),
            final(self).timeout() == old(self).timeout(),
            r matches Some(t) ==> old(self).entries().dom().contains(k) && old(self).entries()[k] == t,
            exists|now: u64| r == #[trigger] fresh_get(old(self).entries(), k, now, old(self).timeout()),
    {
        let now = now_millis();
        self.remove_at(k, now)
    }

    /// Removes the entry of `k`, and gives it back if it had not expired at `now`.
    pub fn remove_at(&mut self, k: u128, now: u64) -> (r: Option<Timed<u32>>)
        requires
            old(self).wf(),
        ensures
            final(self).wf(),
            final(self).entries() == old(self).entries().remove(k),
            final(self).ticks() == old(self).ticks(),
            final(self).timeout() == old(self).timeout(),
            r == fresh_get(old(self).entries(), k, now, old(self).timeout()),
    {
        match ahash_remove(&mut self.map, k) {
            Some(t) => {
                if t.is_valid(now, self.timeout) {
                    Some(t)
                } else {
                    None
                }
            },
            None => None,
        }
    }

    /// The entry of `k`, if it has not expired.
    pub fn get(&self, k: u128) -> (r: Option<Timed<u32>>)
        ensures
            r matches Some(t) ==> self.entries().dom().contains(k) && self.entries()[k] == t,
            exists|now: u64| r == #[trigger] fresh_get(self.entries(), k, now, self.timeout()),
    {
        let now = now_millis();
        self.get_at(k, now)
    }

    /// The entry of `k`, if it had not expired at `now`.
    pub fn get_at(&self, k: u128, now: u64) -> (r: Option<Timed<u32>>)
        ensures
            r == fresh_get(self.entries(), k, now, self.timeout()),
    {
        match ahash_get(&self.map, k) {
            Some(t) => {
                if t.is_valid(now, self.timeout) {
                    Some(t)
                } else {
                    None
                }
            },
            None => None,
        }
    }

    /// Looks `k` up as a caller about to change its entry: an expired entry of `k` is
    /// removed, and when `k` has no entry, the call may clean up expired entries. Gives back
    /// the entry of `k` that remains.
    pub fn entry(&mut self, k: u128) -> (r: Option<Timed<u32>>)
        requires
            old(self).wf(),
        ensures
            final(self).wf(),
            final(self).timeout() == old(self).timeout(),
            r matches Some(t) ==> final(self).entries().dom().contains(k) && final(self).entries()[k] == t,
            r is None ==> !final(self).entries().dom().contains(k),
            exists|now: u64| #[trigger] entry_looked_up_at(*old(self), *final(self), r, k, now),
    {
        let now = now_millis();
        let r = self.entry_at(k, now);
        assert(entry_looked_up_at(*old(self), *self, r, k, now));
        r
    }

    /// Looks `k` up at `now` as a caller about to change its entry. When `k` has an entry
    /// that expired, it is removed; when `k` has none, the call counts towards the periodic
    /// cleanup. Gives back the entry of `k` that remains.
    pub fn entry_at(&mut self, k: u128, now: u64) -> (r: Option<Timed<u32>>)
        requires
            old(self).wf(),
        ensures
            final(self).wf(),
            final(self).timeout() == old(self).timeout(),
            r == fresh_get(old(self).entries(), k, now, old(self).timeout()),
            old(self).entries().dom().contains(k) ==> {
                &&& final(self).ticks() == old(self).ticks()
                &&& final(self).entries() == if r is Some {
                    old(self).entries()
                } else {
                    old(self).entries().remove(k)
                }
            },
            !old(self).entries().dom().contains(k) ==> {
                &&& final(self).ticks() == next_count(old(self).ticks())
                &&& final(self).entries() == after_tick(old(self).entries(), old(self).ticks(), now, old(self).timeout())
            },
            r matches Some(t) ==> final(self).entries().dom().contains(k) && final(self).entries()[k] == t,
            r is None ==> !final(self).entries().dom().contains(k),
    {
        match ahash_get(&self.map, k) {
            Some(t) => {
                if t.is_valid(now, self.timeout) {
                    Some(t)
                } else {
                    ahash_remove(&mut self.map, k);
                    None
                }
            },
            None => {
                self.cleanup_at(now);
                None
            },
        }
    }

    /// The keys whose entries had not expired at `now`, each once, in the order in which the
    /// map is walked.
    pub fn keys_at(&self, now: u64) -> (r: Vec<u128>)
        ensures
            r@.no_duplicates(),
            r@.to_set() == fresh_entries(self.entries(), now, self.timeout()).dom(),
    {
        let all = ahash_keys(&self.map);
        let ghost m = self.entries();
        let ghost f = fresh_entries(m, now, self.timeout);
        let mut out: Vec<u128> = Vec::new();
        let mut i: usize = 0;
        while i < all.len()
            invariant
                i <= all.len(),
                m == self.entries(),
                f == fresh_entries(m, now, self.timeout),
                all@.no_duplicates(),
                all@.to_set() == m.dom(),
                out@.no_duplicates(),
                forall|j: int| 0 <= j < out@.len() ==> exists|j2: int| 0 <= j2 < i && all@[j2] == #[trigger] out@[j],
                forall|j: int| 0 <= j < out@.len() ==> f.dom().contains(#[trigger] out@[j]),
                forall|j: int| 0 <= j < i ==> f.dom().contains(#[trigger] all@[j]) ==> out@.contains(all@[j]),
            decreases all.len() - i,
        {
            let k = all[i];
            assert(m.dom().contains(k)) by {
                assert(all@.to_set().contains(k));
            }
            let ghost out0 = out@;
            let t = ahash_get(&self.map, k);
            if let Some(t) = t {
                if t.is_valid(now, self.timeout) {
                    assert(!out@.contains(k)) by {
                        if out@.contains(k) {
                            let j = choose|j: int| 0 <= j < out@.len() && out@[j] == k;
                            let j2 = choose|j2: int| 0 <= j2 < i && all@[j2] == #[trigger] out@[j];
                            assert(all@[j2] == all@[i as int]);
                        }
                    }
                    out.push(k);
                    proof {
                        assert forall|j: int| 0 <= j < out@.len() implies exists|j2: int| 0 <= j2 < i + 1 && all@[j2] == #[trigger] out@[j] by {
                            if j < out@.len() - 1 {
                                let j2 = choose|j2: int| 0 <= j2 < i && all@[j2] == #[trigger] out@[j];
                                assert(all@[j2] == out@[j]);
                            } else {
                                assert(all@[i as int] == out@[j]);
                            }
                        }
                    }
                }
            }
            proof {
                if f.dom().contains(k) {
                    assert(m.dom().filter(|k: u128| m[k].spec_is_valid(now, self.timeout)).contains(k));
                    assert(m[k].spec_is_valid(now, self.timeout));
                    assert(out@[out@.len() - 1] == k);
                }
                assert forall|x: u128| out0.contains(x) implies out@.contains(x) by {
                    let j = choose|j: int| 0 <= j < out0.len() && out0[j] == x;
                    assert(out@[j] == x);
                }
            }
            i = i + 1;
        }
        proof {
            assert(out@.to_set() =~= f.dom()) by {
                assert forall|k: u128| f.dom().contains(k) implies out@.to_set().contains(k) by {
                    assert(all@.to_set().contains(k));
                    let j = choose|j: int| 0 <= j < all@.len() && all@[j] == k;
                    assert(f.dom().contains(all@[j]));
                }
            }
        }
        out
    }

    /// The keys whose entries have not expired, each once, in the order in which the map is
    /// walked.
    pub fn keys(&self) -> (r: Vec<u128>)
        ensures
            r@.no_duplicates(),
            exists|now: u64| r@.to_set() == #[trigger] fresh_entries(self.entries(), now, self.timeout()).dom(),
    {
        let now = now_millis();
        self.keys_at(now)
    }

    /// The entries that had not expired at `now`, each key once, in the order in which the map
    /// is walked.
    pub fn iter_at(&self, now: u64) -> (r: Vec<(u128, Timed<u32>)>)
        ensures
            r@.map_values(|p: (u128, Timed<u32>)| p.0).no_duplicates(),
            r@.map_values(|p: (u128, Timed<u32>)| p.0).to_set() == fresh_entries(self.entries(), now, self.timeout()).dom(),
            forall|j: int| 0 <= j < r@.len() ==> #[trigger] r@[j].1 == self.entries()[r@[j].0],
    {
        let keys = self.keys_at(now);
        let ghost f = fresh_entries(self.entries(), now, self.timeout);
        let mut out: Vec<(u128, Timed<u32>)> = Vec::new();
        let mut i: usize = 0;
        while i < keys.len()
            invariant
                i <= keys.len(),
                f == fresh_entries(self.entries(), now, self.timeout),
                keys@.to_set() == f.dom(),
                out@.len() == i,
                forall|j: int| 0 <= j < i ==> (#[trigger] out@[j]).0 == keys@[j],
                forall|j: int| 0 <= j < i ==> (#[trigger] out@[j]).1 == self.entries()[keys@[j]],
            decreases keys.len() - i,
        {
            let k = keys[i];
            assert(f.dom().contains(k)) by {
                assert(keys@.to_set().contains(k));
            }
            match ahash_get(&self.map, k) {
                Some(t) => {
                    out.push((k, t));
                },
                None => {
                    assert(false);
                },
            }
            i = i + 1;
        }
        proof {
            assert(out@.map_values(|p: (u128, Timed<u32>)| p.0) =~= keys@);
        }
        out
    }

    /// The entries that have not expired, each key once, in the order in which the map is
    /// walked.
    pub fn iter(&self) -> (r: Vec<(u128, Timed<u32>)>)
        ensures
            r@.map_values(|p: (u128, Timed<u32>)| p.0).no_duplicates(),
            forall|j: int| 0 <= j < r@.len() ==> #[trigger] r@[j].1 == self.entries()[r@[j].0],
            forall|j: int| 0 <= j < r@.len() ==> self.entries().dom().contains(#[trigger] r@[j].0),
            exists|now: u64| r@.map_values(|p: (u128, Timed<u32>)| p.0).to_set() == #[trigger] fresh_entries(self.entries(), now, self.timeout()).dom(),
    {
        let now = now_millis();
        let r = self.iter_at(now);
        proof {
            assert forall|j: int| 0 <= j < r@.len() implies self.entries().dom().contains(#[trigger] r@[j].0) by {
                let ks = r@.map_values(|p: (u128, Timed<u32>)| p.0);
                assert(ks[j] == r@[j].0);
                assert(ks.to_set().contains(r@[j].0));
            }
        }
        r
    }

    /// Keeps the entries that had not expired at `now` and for which `f` holds of the key and
    /// the value; removes the others. A call on an empty map changes nothing; any other call
    /// counts as the periodic cleanup.
    pub fn retain_at<F: Fn(u128, u32) -> bool>(&mut self, f: F, now: u64)
        requires
            old(self).wf(),
            forall|k: u128, v: u32| #[trigger] f.requires((k, v)),
        ensures
            final(self).wf(),
            final(self).timeout() == old(self).timeout(),
            final(self).ticks() == if old(self).entries().is_empty() { old(self).ticks() } else { 0 },
            final(self).entries().dom().subset_of(old(self).entries().dom()),
            forall|k: u128| #[trigger] final(self).entries().dom().contains(k) ==> {
                &&& final(self).entries()[k] == old(self).entries()[k]
                &&& old(self).entries()[k].spec_is_valid(now, old(self).timeout())
                &&& f.ensures((k, old(self).entries()[k].value), true)
            },
            forall|k: u128| #[trigger] old(self).entries().dom().contains(k) && !final(self).entries().dom().contains(k)
                ==> !old(self).entries()[k].spec_is_valid(now, old(self).timeout())
                    || f.ensures((k, old(self).entries()[k].value), false),
    {
        if ahash_len(&self.map) == 0 {
            proof {
                self.entries().dom().lemma_len0_is_empty();
            }
            return;
        }
        let ghost m0 = self.entries();
        let keys = ahash_keys(&self.map);
        let mut i: usize = 0;
        while i < keys.len()
            invariant
                self.wf(),
                self.timeout == old(self).timeout(),
                self.ticks() == old(self).ticks(),
                m0 == old(self).entries(),
                forall|k: u128, v: u32| #[trigger] f.requires((k, v)),
                i <= keys.len(),
                keys@.no_duplicates(),
                keys@.to_set() == m0.dom(),
                self.entries().dom().subset_of(m0.dom()),
                forall|k: u128| #[trigger] self.entries().dom().contains(k) ==> self.entries()[k] == m0[k],
                forall|j: int| i <= j < keys@.len() ==> self.entries().dom().contains(#[trigger] keys@[j]),
                forall|j: int| 0 <= j < i ==> #[trigger] self.entries().dom().contains(keys@[j]) ==> {
                    &&& m0[keys@[j]].spec_is_valid(now, self.timeout)
                    &&& f.ensures((keys@[j], m0[keys@[j]].value), true)
                },
                forall|j: int| 0 <= j < i ==> !#[trigger] self.entries().dom().contains(keys@[j]) ==> (
                    !m0[keys@[j]].spec_is_valid(now, self.timeout)
                    || f.ensures((keys@[j], m0[keys@[j]].value), false)),
            decreases keys.len() - i,
        {
            let k = keys[i];
            let ghost before = self.entries();
            match ahash_get(&self.map, k) {
                Some(t) => {
                    let keep = t.is_valid(now, self.timeout) && f(k, t.value);
                    if !keep {
                        ahash_remove(&mut self.map, k);
                    }
                    proof {
                        assert forall|j: int| i < j < keys@.len() implies self.entries().dom().contains(#[trigger] keys@[j]) by {
                            assert(keys@[j] != keys@[i as int]);
                            assert(before.dom().contains(keys@[j]));
                        }
                        assert forall|j: int| 0 <= j < i implies (#[trigger] self.entries().dom().contains(keys@[j])
                            == before.dom().contains(keys@[j])) by {
                            assert(keys@[j] != keys@[i as int]);
                        }
                    }
                },
                None => {
                    assert(false);
                },
            }
            i = i + 1;
        }
        proof {
            assert forall|k: u128| #[trigger] m0.dom().contains(k) && !self.entries().dom().contains(k)
                implies !m0[k].spec_is_valid(now, self.timeout)
                    || f.ensures((k, m0[k].value), false) by {
                assert(keys@.to_set().contains(k));
                let j = choose|j: int| 0 <= j < keys@.len() && keys@[j] == k;
                assert(!self.entries().dom().contains(keys@[j]));
            }
            assert forall|k: u128| #[trigger] self.entries().dom().contains(k) implies {
                &&& m0[k].spec_is_valid(now, self.timeout)
                &&& f.ensures((k, m0[k].value), true)
            } by {
                assert(m0.dom().contains(k));
                assert(keys@.to_set().contains(k));
                let j = choose|j: int| 0 <= j < keys@.len() && keys@[j] == k;
                assert(self.entries().dom().contains(keys@[j]));
            }
        }
        self.periodic.reset();
    }

    /// Keeps the entries that have not expired and for which `f` holds of the key and the
    /// value; removes the others.
    pub fn retain<F: Fn(u128, u32) -> bool>(&mut self, f: F)
        requires
            old(self).wf(),
            forall|k: u128, v: u32| #[trigger] f.requires((k, v)),
        ensures
            final(self).wf(),
            final(self).timeout() == old(self).timeout(),
            final(self).entries().dom().subset_of(old(self).entries().dom()),
            forall|k: u128| #[trigger] final(self).entries().dom().contains(k) ==> {
                &&& final(self).entries()[k] == old(self).entries()[k]
                &&& f.ensures((k, old(self).entries()[k].value), true)
            },
            exists|now: u64| #[trigger] retained_at(*old(self), *final(self), f, now),
    {
        let now = now_millis();
        self.retain_at(f, now);
        assert(retained_at(*old(self), *self, f, now));
    }
}

} // verus!

verus! {

/// A value put in at `now` is found at `now` when entries live for some time, whether or not
/// the put ran the periodic cleanup.
pub proof fn lemma_insert_then_get(m: Map<u128, Timed<u32>>, count: nat, k: u128, v: u32, now: u64, secs: u32)
    requires
        secs > 0,
    ensures
        fresh_get(after_tick(m.insert(k, Timed { time: now, value: v }), count, now, secs), k, now, secs)
            == Some(Timed { time: now, value: v }),
{
    let m1 = m.insert(k, Timed { time: now, value: v });
    assert(m1[k].spec_is_valid(now, secs));
    assert(m1.dom().filter(|x: u128| m1[x].spec_is_valid(now, secs)).contains(k));
}

/// An entry made at `time` is no longer found once `secs` seconds have passed.
pub proof fn lemma_entry_expires(m: Map<u128, Timed<u32>>, k: u128, v: u32, time: u64, now: u64, secs: u32)
    requires
        now >= time + secs * 1000,
    ensures
        fresh_get(m.insert(k, Timed { time, value: v }), k, now, secs) is None,
{
}

/// A removed key is not found.
pub proof fn lemma_remove_then_get(m: Map<u128, Timed<u32>>, k: u128, now: u64, secs: u32)
    ensures
        fresh_get(m.remove(k), k, now, secs) is None,
{
}

/// What a lookup finds never expired: it is the entry of the key, younger than the timeout.
pub proof fn lemma_get_is_fresh(m: Map<u128, Timed<u32>>, k: u128, now: u64, secs: u32)
    ensures
        fresh_get(m, k, now, secs) matches Some(t) ==> m.dom().contains(k) && m[k] == t
            && t.spec_is_valid(now, secs),
{
}

} // verus!
