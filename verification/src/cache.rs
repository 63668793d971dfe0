//! Bounded CNAME cache: maps a CNAME target back to the name that pointed
//! at it, so that addresses resolved through a CNAME chain are attributed
//! to the domain that was originally queried.
//!
//! Times are nanoseconds since the cache was created.

use vstd::prelude::*;
use std::collections::hash_map::RandomState;
use std::time::{Duration, Instant};
use hashlink::LruCache;
use crate::text::{spec_to_lowercase, str_to_lowercase};

verus! {

#[verifier::external_type_specification]
#[verifier::external_body]
#[verifier::reject_recursive_types(K)]
#[verifier::reject_recursive_types(V)]
#[verifier::reject_recursive_types(S)]
pub struct ExLruCache<K, V, S>(LruCache<K, V, S>);

#[verifier::external_type_specification]
#[verifier::external_body]
pub struct ExInstant(Instant);

/// The shortest lifetime given to a mapping, in seconds.
pub const MIN_TTL: u32 = 60;
/// The longest lifetime given to a mapping, in seconds (one day).
pub const MAX_TTL: u32 = 86400;
/// The most CNAME links that one resolution follows.
pub const MAX_CNAME_DEPTH: usize = 10;
/// Nanoseconds in a second.
pub const NANOS_PER_SEC: u64 = 1_000_000_000;
/// The latest time (in nanoseconds since the cache was created) at which
/// the cache can still be updated: a mapping of the longest lifetime made
/// then still has an expiry that fits in a `u64`.
pub const MAX_NOW: u64 = 18_446_657_673_709_551_615;

/// A cached mapping: the original name and when the mapping expires.
#[derive(Clone, Debug)]
pub struct CacheEntry {
    pub original: String,
    /// Expiry time, in nanoseconds since the cache was created.
    pub expire_at: u64,
    pub ttl_secs: u32,
}

/// An entry as (original, expiry, ttl).
pub type EntryView = (Seq<char>, u64, u32);

/// Cache contents, least recently used first: (target, entry).
pub type LruEntries = Seq<(Seq<char>, EntryView)>;

impl View for CacheEntry {
    type V = EntryView;

    open spec fn view(&self) -> EntryView {
        (self.original@, self.expire_at, self.ttl_secs)
    }
}

/// What an LRU cache holds, least recently used first.
pub uninterp spec fn lru_entries(c: LruCache<String, CacheEntry, RandomState>) -> LruEntries;

/// The capacity that an LRU cache was made with.
pub uninterp spec fn lru_capacity(c: LruCache<String, CacheEntry, RandomState>) -> nat;

/// No key occurs twice.
pub open spec fn keys_distinct(s: LruEntries) -> bool {
    forall|i: int, j: int| 0 <= i < j < s.len() ==> #[trigger] s[i].0 != #[trigger] s[j].0
}

/// Some entry has key `k`.
pub open spec fn lru_has(s: LruEntries, k: Seq<char>) -> bool {
    exists|i: int| 0 <= i < s.len() && #[trigger] s[i].0 == k
}

/// The position of key `k` (meaningful when `lru_has(s, k)`).
pub open spec fn lru_pos(s: LruEntries, k: Seq<char>) -> int {
    choose|i: int| 0 <= i < s.len() && #[trigger] s[i].0 == k
}

/// The contents after `k` is marked as most recently used.
pub open spec fn lru_touch(s: LruEntries, k: Seq<char>) -> LruEntries {
    if lru_has(s, k) {
        s.remove(lru_pos(s, k)).push(s[lru_pos(s, k)])
    } else {
        s
    }
}

/// The contents after inserting `k → v` into a cache of capacity `cap`: an
/// existing entry for `k` is replaced and becomes the most recently used; a
/// new one is added as most recently used, and when that makes the cache
/// hold more than `cap` entries the least recently used one is dropped.
pub open spec fn lru_insert(s: LruEntries, cap: nat, k: Seq<char>, v: EntryView) -> LruEntries {
    let t = if lru_has(s, k) {
        s.remove(lru_pos(s, k)).push((k, v))
    } else {
        s.push((k, v))
    };
    if t.len() > cap {
        t.drop_first()
    } else {
        t
    }
}

/// The contents after removing the entry for `k`.
pub open spec fn lru_remove(s: LruEntries, k: Seq<char>) -> LruEntries {
    if lru_has(s, k) {
        s.remove(lru_pos(s, k))
    } else {
        s
    }
}

/// `LruCache::with_hasher`: an empty cache of the given capacity.
#[verifier::external_body]
fn lru_new(capacity: usize) -> (r: LruCache<String, CacheEntry, RandomState>)
    ensures
        lru_entries(r) == Seq::<(Seq<char>, EntryView)>::empty(),
        lru_capacity(r) == capacity,
{
    LruCache::with_hasher(capacity, RandomState::new())
}

/// `LruCache::get`: the entry for `key`, which becomes the most recently
/// used one.
#[verifier::external_body]
fn lru_get(c: &mut LruCache<String, CacheEntry, RandomState>, key: &str) -> (r: Option<CacheEntry>)
    ensures
        lru_capacity(*final(c)) == lru_capacity(*old(c)),
        lru_entries(*final(c)) == lru_touch(lru_entries(*old(c)), key@),
        keys_distinct(lru_entries(*final(c))),
        match r {
            Some(e) => lru_has(lru_entries(*old(c)), key@) && e@ == lru_entries(*old(c))[lru_pos(
                lru_entries(*old(c)),
                key@,
            )].1,
            None => !lru_has(lru_entries(*old(c)), key@),
        },
{
    c.get(key).cloned()
}

/// `LruCache::insert`: stores `key → value` (see `lru_insert`).
#[verifier::external_body]
fn lru_put(c: &mut LruCache<String, CacheEntry, RandomState>, key: String, value: CacheEntry)
    ensures
        lru_capacity(*final(c)) == lru_capacity(*old(c)),
        lru_entries(*final(c)) == lru_insert(
            lru_entries(*old(c)),
            lru_capacity(*old(c)),
            key@,
            value@,
        ),
        keys_distinct(lru_entries(*final(c))),
{
    c.insert(key, value);
}

/// `LruCache::remove`: drops the entry for `key`.
#[verifier::external_body]
fn lru_delete(c: &mut LruCache<String, CacheEntry, RandomState>, key: &str)
    ensures
        lru_capacity(*final(c)) == lru_capacity(*old(c)),
        lru_entries(*final(c)) == lru_remove(lru_entries(*old(c)), key@),
        keys_distinct(lru_entries(*final(c))),
{
    c.remove(key);
}

/// `Instant::now`.
#[verifier::external_body]
fn instant_now() -> (r: Instant) {
    Instant::now()
}

/// `Instant::elapsed`: the time since `start`.
#[verifier::external_body]
fn instant_elapsed(start: &Instant) -> (r: Duration) {
    start.elapsed()
}

/// `Duration::as_nanos`.
#[verifier::external_body]
fn duration_as_nanos(d: &Duration) -> (r: u128) {
    d.as_nanos()
}


/// Cache state: the entries, least recently used first, and the capacity.
pub type CacheState = (LruEntries, nat);

/// A consistent cache state: a positive capacity that is respected,
/// distinct keys, and every lifetime within `[MIN_TTL, MAX_TTL]`.
pub open spec fn state_wf(c: CacheState) -> bool {
    &&& c.1 >= 1
    &&& c.0.len() <= c.1
    &&& keys_distinct(c.0)
    &&& forall|i: int| 0 <= i < c.0.len() ==> MIN_TTL <= #[trigger] c.0[i].1.2 <= MAX_TTL
}

/// `ttl` clamped to `[MIN_TTL, MAX_TTL]`.
pub open spec fn clamp_ttl(ttl: u32) -> u32 {
    if ttl < MIN_TTL {
        MIN_TTL
    } else if ttl > MAX_TTL {
        MAX_TTL
    } else {
        ttl
    }
}

/// The expiry of a mapping with lifetime `ttl` seconds made at `now`.
pub open spec fn expiry(now: u64, ttl: u32) -> u64 {
    (now + ttl * NANOS_PER_SEC) as u64
}

/// The state after `insert(target, original, ttl)` at time `now`: the
/// lowercased target maps to the lowercased original with the clamped
/// lifetime, as the most recently used entry.
pub open spec fn cache_insert(c: CacheState, target: Seq<char>, original: Seq<char>, ttl: u32, now: u64) -> CacheState {
    insert_lowered(c, spec_to_lowercase(target), spec_to_lowercase(original), ttl, now)
}

/// The state after mapping the (already lowercased) `target` to `original`
/// at time `now`, with the clamped lifetime, as the most recently used
/// entry.
pub open spec fn insert_lowered(c: CacheState, target: Seq<char>, original: Seq<char>, ttl: u32, now: u64) -> CacheState {
    let t = clamp_ttl(ttl);
    (lru_insert(c.0, c.1, target, (original, expiry(now, t), t)), c.1)
}

/// Following the mapping from `cur` at most `fuel` times: an expired
/// mapping is dropped and ends the walk; a live one is refreshed (its
/// expiry restarts at `now`, and it becomes the most recently used) and
/// the walk goes on from its original.
pub open spec fn resolve_steps(s: LruEntries, cur: Seq<char>, now: u64, fuel: nat) -> (Seq<char>, LruEntries)
    decreases fuel,
{
    if fuel == 0 || !lru_has(s, cur) {
        (cur, s)
    } else {
        let i = lru_pos(s, cur);
        let e = s[i].1;
        if e.1 < now {
            (cur, s.remove(i))
        } else {
            let s2 = s.remove(i).push((cur, (e.0, expiry(now, e.2), e.2)));
            resolve_steps(s2, e.0, now, (fuel - 1) as nat)
        }
    }
}

/// The name that `resolve(domain)` at time `now` gives, and the state after.
pub open spec fn cache_resolve(c: CacheState, domain: Seq<char>, now: u64) -> (Seq<char>, CacheState) {
    resolve_lowered(c, spec_to_lowercase(domain), now)
}

/// The name that resolving the (already lowercased) `name` at time `now`
/// gives, and the state after.
pub open spec fn resolve_lowered(c: CacheState, name: Seq<char>, now: u64) -> (Seq<char>, CacheState) {
    let r = resolve_steps(c.0, name, now, MAX_CNAME_DEPTH as nat);
    (r.0, (r.1, c.1))
}

proof fn lemma_pos_unique(s: LruEntries, k: Seq<char>, j: int)
    requires
        keys_distinct(s),
        0 <= j < s.len(),
        s[j].0 == k,
    ensures
        lru_has(s, k),
        lru_pos(s, k) == j,
{
    assert(lru_has(s, k));
    let i = lru_pos(s, k);
    if i < j {
        assert(s[i].0 != s[j].0);
    } else if i > j {
        assert(s[j].0 != s[i].0);
    }
}

/// Inserting after touching the same key is inserting.
proof fn lemma_insert_after_touch(s: LruEntries, cap: nat, k: Seq<char>, v: EntryView)
    requires
        state_wf((s, cap)),
        keys_distinct(lru_touch(s, k)),
    ensures
        lru_insert(lru_touch(s, k), cap, k, v) == lru_insert(s, cap, k, v),
        lru_remove(lru_touch(s, k), k) == lru_remove(s, k),
{
    if lru_has(s, k) {
        let i = lru_pos(s, k);
        let t = lru_touch(s, k);
        assert(t[t.len() - 1].0 == k);
        lemma_pos_unique(t, k, t.len() - 1);
        assert(t.remove(t.len() - 1) =~= s.remove(i));
    }
}

proof fn lemma_insert_wf(s: LruEntries, cap: nat, k: Seq<char>, v: EntryView)
    requires
        state_wf((s, cap)),
        MIN_TTL <= v.2 <= MAX_TTL,
        keys_distinct(lru_insert(s, cap, k, v)),
    ensures
        state_wf((lru_insert(s, cap, k, v), cap)),
{
    let r = lru_insert(s, cap, k, v);
    let t = if lru_has(s, k) {
        s.remove(lru_pos(s, k)).push((k, v))
    } else {
        s.push((k, v))
    };
    assert forall|i: int| 0 <= i < t.len() implies MIN_TTL <= #[trigger] t[i].1.2 <= MAX_TTL by {
        if lru_has(s, k) {
            let p = lru_pos(s, k);
            if i < t.len() - 1 {
                if i < p {
                    assert(t[i] == s[i]);
                } else {
                    assert(t[i] == s[i + 1]);
                }
            }
        } else if i < s.len() {
            assert(t[i] == s[i]);
        }
    }
    assert forall|i: int| 0 <= i < r.len() implies MIN_TTL <= #[trigger] r[i].1.2 <= MAX_TTL by {
        if t.len() > cap {
            assert(r[i] == t[i + 1]);
        } else {
            assert(r[i] == t[i]);
        }
    }
}

proof fn lemma_remove_wf(s: LruEntries, cap: nat, k: Seq<char>)
    requires
        state_wf((s, cap)),
        keys_distinct(lru_remove(s, k)),
    ensures
        state_wf((lru_remove(s, k), cap)),
{
    if lru_has(s, k) {
        let p = lru_pos(s, k);
        let r = s.remove(p);
        assert forall|i: int| 0 <= i < r.len() implies MIN_TTL <= #[trigger] r[i].1.2 <= MAX_TTL by {
            if i < p {
                assert(r[i] == s[i]);
            } else {
                assert(r[i] == s[i + 1]);
            }
        }
    }
}


/// Inserting keeps keys distinct, makes the inserted entry the most
/// recently used one (when the capacity is positive), and adds no key but
/// its own.
pub proof fn lemma_insert_keys_distinct(s: LruEntries, cap: nat, k: Seq<char>, v: EntryView)
    requires
        keys_distinct(s),
    ensures
        keys_distinct(lru_insert(s, cap, k, v)),
        cap >= 1 ==> lru_insert(s, cap, k, v).len() > 0 && lru_insert(s, cap, k, v).last() == (k, v),
        forall|x: Seq<char>| lru_has(lru_insert(s, cap, k, v), x) ==> x == k || lru_has(s, x),
{
    let t = if lru_has(s, k) {
        s.remove(lru_pos(s, k)).push((k, v))
    } else {
        s.push((k, v))
    };
    let p = lru_pos(s, k);
    assert forall|i: int| 0 <= i < t.len() - 1 implies #[trigger] t[i].0 != k by {
        if lru_has(s, k) {
            if i < p {
                assert(s[i].0 != s[p].0);
            } else {
                assert(t[i] == s[i + 1]);
                assert(s[p].0 != s[i + 1].0);
            }
        }
    }
    assert forall|i: int, j: int| 0 <= i < j < t.len() implies #[trigger] t[i].0 != #[trigger] t[j].0 by {
        if j < t.len() - 1 && lru_has(s, k) {
            let a = if i < p { i } else { i + 1 };
            let b = if j < p { j } else { j + 1 };
            assert(t[i] == s[a]);
            assert(t[j] == s[b]);
        }
    }
    assert forall|x: Seq<char>| lru_has(t, x) implies x == k || lru_has(s, x) by {
        let i = choose|i: int| 0 <= i < t.len() && #[trigger] t[i].0 == x;
        if i < t.len() - 1 {
            if lru_has(s, k) {
                let a = if i < p { i } else { i + 1 };
                assert(t[i] == s[a]);
            } else {
                assert(t[i] == s[i]);
            }
        }
    }
    let r = lru_insert(s, cap, k, v);
    if t.len() > cap {
        assert forall|i: int, j: int| 0 <= i < j < r.len() implies #[trigger] r[i].0 != #[trigger] r[j].0 by {
            assert(r[i] == t[i + 1]);
            assert(r[j] == t[j + 1]);
        }
        assert forall|x: Seq<char>| lru_has(r, x) implies x == k || lru_has(s, x) by {
            let i = choose|i: int| 0 <= i < r.len() && #[trigger] r[i].0 == x;
            assert(r[i] == t[i + 1]);
            assert(lru_has(t, x));
        }
    }
}

/// Every mapping that `insert` makes keeps a lifetime within
/// `[MIN_TTL, MAX_TTL]`: the target (lowercased) maps to the original
/// (lowercased) with lifetime `clamp_ttl(ttl)` from `now`, and the cache
/// stays consistent.
pub proof fn lemma_insert_clamps_ttl(c: CacheState, target: Seq<char>, original: Seq<char>, ttl: u32, now: u64)
    requires
        state_wf(c),
    ensures
        state_wf(cache_insert(c, target, original, ttl, now)),
        MIN_TTL <= clamp_ttl(ttl) <= MAX_TTL,
        lru_has(cache_insert(c, target, original, ttl, now).0, spec_to_lowercase(target)),
        ({
            let s = cache_insert(c, target, original, ttl, now).0;
            s[lru_pos(s, spec_to_lowercase(target))].1 == (
                spec_to_lowercase(original),
                expiry(now, clamp_ttl(ttl)),
                clamp_ttl(ttl),
            )
        }),
{
    let k = spec_to_lowercase(target);
    let v = (spec_to_lowercase(original), expiry(now, clamp_ttl(ttl)), clamp_ttl(ttl));
    lemma_insert_keys_distinct(c.0, c.1, k, v);
    lemma_insert_wf(c.0, c.1, k, v);
    let s = lru_insert(c.0, c.1, k, v);
    lemma_pos_unique(s, k, s.len() - 1);
}

/// A mapping just made is followed: after `insert(target, original, ..)`
/// at `now`, resolving `target` at any time up to the mapping's expiry
/// gives `original` (lowercased), when nothing maps that name further.
pub proof fn lemma_resolve_after_insert(
    c: CacheState,
    target: Seq<char>,
    original: Seq<char>,
    ttl: u32,
    now: u64,
    later: u64,
)
    requires
        state_wf(c),
        later <= expiry(now, clamp_ttl(ttl)),
        !lru_has(cache_insert(c, target, original, ttl, now).0, spec_to_lowercase(original)),
    ensures
        cache_resolve(cache_insert(c, target, original, ttl, now), target, later).0
            == spec_to_lowercase(original),
{
    let k = spec_to_lowercase(target);
    let o = spec_to_lowercase(original);
    let v = (o, expiry(now, clamp_ttl(ttl)), clamp_ttl(ttl));
    lemma_insert_keys_distinct(c.0, c.1, k, v);
    let s = lru_insert(c.0, c.1, k, v);
    lemma_pos_unique(s, k, s.len() - 1);
    let i = s.len() - 1;
    let s2 = s.remove(i).push((k, (o, expiry(later, v.2), v.2)));
    assert forall|x: Seq<char>| lru_has(s2, x) implies lru_has(s, x) by {
        let j = choose|j: int| 0 <= j < s2.len() && #[trigger] s2[j].0 == x;
        if j < s2.len() - 1 {
            assert(s2[j] == s[j]);
        }
    }
    assert(!lru_has(s2, o));
    assert(resolve_steps(s, k, later, MAX_CNAME_DEPTH as nat) == resolve_steps(
        s2,
        o,
        later,
        (MAX_CNAME_DEPTH - 1) as nat,
    ));
}

/// An expired mapping is dropped when it is met: resolving a name whose
/// mapping expired before `now` gives the name itself (lowercased) and
/// removes the mapping.
pub proof fn lemma_expired_mapping_dropped(c: CacheState, domain: Seq<char>, now: u64)
    requires
        state_wf(c),
        lru_has(c.0, spec_to_lowercase(domain)),
        c.0[lru_pos(c.0, spec_to_lowercase(domain))].1.1 < now,
    ensures
        cache_resolve(c, domain, now).0 == spec_to_lowercase(domain),
        cache_resolve(c, domain, now).1.0 == lru_remove(c.0, spec_to_lowercase(domain)),
{
}

/// Removing the entry at `i` keeps the other entries, in order.
proof fn lemma_remove_keeps(s: LruEntries, i: int, k: Seq<char>)
    requires
        keys_distinct(s),
        0 <= i < s.len(),
        lru_has(s, k),
        s[i].0 != k,
    ensures
        keys_distinct(s.remove(i)),
        lru_has(s.remove(i), k),
        s.remove(i)[lru_pos(s.remove(i), k)] == s[lru_pos(s, k)],
{
    let r = s.remove(i);
    assert forall|a: int, b: int| 0 <= a < b < r.len() implies #[trigger] r[a].0 != #[trigger] r[b].0 by {
        let a2 = if a < i { a } else { a + 1 };
        let b2 = if b < i { b } else { b + 1 };
        assert(r[a] == s[a2]);
        assert(r[b] == s[b2]);
    }
    let j = lru_pos(s, k);
    let j2 = if j < i { j } else { j - 1 };
    assert(r[j2] == s[j]);
    lemma_pos_unique(r, k, j2);
}

/// A resolution walk at `now` keeps an entry whose expiry is a fresh one
/// (`expiry(now, ttl)`): such an entry is never expired at `now`, and
/// refreshing it at `now` changes nothing.
proof fn lemma_steps_keep(s: LruEntries, cur: Seq<char>, now: u64, fuel: nat, k: Seq<char>, w: EntryView)
    requires
        keys_distinct(s),
        lru_has(s, k),
        s[lru_pos(s, k)].1 == w,
        w.1 == expiry(now, w.2),
        w.1 >= now,
    ensures
        keys_distinct(resolve_steps(s, cur, now, fuel).1),
        lru_has(resolve_steps(s, cur, now, fuel).1, k),
        resolve_steps(s, cur, now, fuel).1[lru_pos(resolve_steps(s, cur, now, fuel).1, k)].1 == w,
    decreases fuel,
{
    if fuel > 0 && lru_has(s, cur) {
        let i = lru_pos(s, cur);
        let e = s[i].1;
        if e.1 < now {
            lemma_remove_keeps(s, i, k);
        } else {
            let v = (e.0, expiry(now, e.2), e.2);
            let s2 = s.remove(i).push((cur, v));
            lemma_insert_keys_distinct(s, s.len(), cur, v);
            assert(lru_insert(s, s.len(), cur, v) == s2);
            if cur == k {
                lemma_pos_unique(s2, k, s2.len() - 1);
            } else {
                lemma_remove_keeps(s, i, k);
                let r = s.remove(i);
                let j = lru_pos(r, k);
                assert(s2[j] == r[j]);
                lemma_pos_unique(s2, k, j);
            }
            lemma_steps_keep(s2, e.0, now, (fuel - 1) as nat, k, w);
        }
    }
}

/// A live mapping is refreshed when it is met: after resolving a name
/// whose mapping has not expired at `now`, the mapping is still there,
/// with the same original and lifetime, and now expires a lifetime after
/// `now`.
pub proof fn lemma_live_mapping_refreshed(c: CacheState, domain: Seq<char>, now: u64)
    requires
        state_wf(c),
        now <= MAX_NOW,
        lru_has(c.0, spec_to_lowercase(domain)),
        c.0[lru_pos(c.0, spec_to_lowercase(domain))].1.1 >= now,
    ensures
        ({
            let e = c.0[lru_pos(c.0, spec_to_lowercase(domain))].1;
            let s = cache_resolve(c, domain, now).1.0;
            &&& lru_has(s, spec_to_lowercase(domain))
            &&& s[lru_pos(s, spec_to_lowercase(domain))].1 == (e.0, expiry(now, e.2), e.2)
        }),
{
    let k = spec_to_lowercase(domain);
    let i = lru_pos(c.0, k);
    let e = c.0[i].1;
    let w = (e.0, expiry(now, e.2), e.2);
    assert(MIN_TTL <= c.0[i].1.2 <= MAX_TTL);
    assert(e.2 * NANOS_PER_SEC <= 86400 * NANOS_PER_SEC);
    let s2 = c.0.remove(i).push((k, w));
    lemma_insert_keys_distinct(c.0, c.0.len(), k, w);
    assert(lru_insert(c.0, c.0.len(), k, w) == s2);
    lemma_pos_unique(s2, k, s2.len() - 1);
    lemma_steps_keep(s2, e.0, now, (MAX_CNAME_DEPTH - 1) as nat, k, w);
}

/// Inserting a key that is not there, into a cache with room, appends it
/// as the most recently used entry and keeps every other entry.
pub proof fn lemma_insert_new_key(s: LruEntries, cap: nat, k: Seq<char>, v: EntryView)
    requires
        keys_distinct(s),
        !lru_has(s, k),
        s.len() < cap,
    ensures
        lru_insert(s, cap, k, v) == s.push((k, v)),
        keys_distinct(s.push((k, v))),
        forall|x: Seq<char>| #[trigger] lru_has(s.push((k, v)), x) <==> (lru_has(s, x) || x == k),
        forall|x: Seq<char>|
            x != k && lru_has(s, x) ==> #[trigger] s.push((k, v))[lru_pos(s.push((k, v)), x)] == s[lru_pos(
                s,
                x,
            )],
        s.push((k, v))[lru_pos(s.push((k, v)), k)] == (k, v),
{
    let r = s.push((k, v));
    lemma_insert_keys_distinct(s, cap, k, v);
    assert(lru_insert(s, cap, k, v) == r);
    assert forall|x: Seq<char>| #[trigger] lru_has(r, x) <==> (lru_has(s, x) || x == k) by {
        if lru_has(s, x) {
            let j = lru_pos(s, x);
            assert(r[j] == s[j]);
        }
        if x == k {
            assert(r[r.len() - 1].0 == k);
        }
    }
    assert forall|x: Seq<char>|
        x != k && lru_has(s, x) implies #[trigger] r[lru_pos(r, x)] == s[lru_pos(s, x)] by {
        let j = lru_pos(s, x);
        assert(r[j] == s[j]);
        lemma_pos_unique(r, x, j);
    }
    lemma_pos_unique(r, k, r.len() - 1);
}

/// Following a live mapping: one step of a resolution from `k` refreshes
/// `k`'s mapping and goes on from its original; every other entry stays.
pub proof fn lemma_follow_live(s: LruEntries, k: Seq<char>, now: u64, fuel: nat)
    requires
        keys_distinct(s),
        lru_has(s, k),
        s[lru_pos(s, k)].1.1 >= now,
        fuel > 0,
    ensures
        ({
            let e = s[lru_pos(s, k)].1;
            let s2 = lru_insert(s, s.len(), k, (e.0, expiry(now, e.2), e.2));
            &&& resolve_steps(s, k, now, fuel) == resolve_steps(s2, e.0, now, (fuel - 1) as nat)
            &&& keys_distinct(s2)
            &&& s2.len() == s.len()
            &&& forall|x: Seq<char>| #[trigger] lru_has(s2, x) <==> lru_has(s, x)
            &&& forall|x: Seq<char>|
                x != k && lru_has(s, x) ==> #[trigger] s2[lru_pos(s2, x)] == s[lru_pos(s, x)]
            &&& s2[lru_pos(s2, k)] == (k, (e.0, expiry(now, e.2), e.2))
        }),
{
    let i = lru_pos(s, k);
    let e = s[i].1;
    let v = (e.0, expiry(now, e.2), e.2);
    let s2 = s.remove(i).push((k, v));
    lemma_insert_keys_distinct(s, s.len(), k, v);
    assert(lru_insert(s, s.len(), k, v) == s2);
    assert forall|x: Seq<char>| #[trigger] lru_has(s2, x) <==> lru_has(s, x) by {
        if lru_has(s, x) && x != k {
            lemma_remove_keeps(s, i, x);
            let j = lru_pos(s.remove(i), x);
            assert(s2[j] == s.remove(i)[j]);
        }
        if x == k {
            assert(s2[s2.len() - 1].0 == k);
        }
    }
    assert forall|x: Seq<char>| x != k && lru_has(s, x) implies #[trigger] s2[lru_pos(s2, x)] == s[lru_pos(s, x)] by {
        lemma_remove_keeps(s, i, x);
        let j = lru_pos(s.remove(i), x);
        assert(s2[j] == s.remove(i)[j]);
        lemma_pos_unique(s2, x, j);
    }
    lemma_pos_unique(s2, k, s2.len() - 1);
}

/// Every lifetime in `s` lies within `[MIN_TTL, MAX_TTL]`.
pub open spec fn ttls_in_range(s: LruEntries) -> bool {
    forall|i: int| 0 <= i < s.len() ==> MIN_TTL <= #[trigger] s[i].1.2 <= MAX_TTL
}

/// Removing the entry at `i` removes its key.
proof fn lemma_remove_drops_key(s: LruEntries, i: int)
    requires
        keys_distinct(s),
        0 <= i < s.len(),
    ensures
        !lru_has(s.remove(i), s[i].0),
        keys_distinct(s.remove(i)),
        ttls_in_range(s) ==> ttls_in_range(s.remove(i)),
{
    let r = s.remove(i);
    if lru_has(r, s[i].0) {
        let j = choose|j: int| 0 <= j < r.len() && #[trigger] r[j].0 == s[i].0;
        if j < i {
            assert(r[j] == s[j]);
        } else {
            assert(r[j] == s[j + 1]);
        }
    }
    assert forall|a: int, b: int| 0 <= a < b < r.len() implies #[trigger] r[a].0 != #[trigger] r[b].0 by {
        let a2 = if a < i { a } else { a + 1 };
        let b2 = if b < i { b } else { b + 1 };
        assert(r[a] == s[a2]);
        assert(r[b] == s[b2]);
    }
    if ttls_in_range(s) {
        assert forall|a: int| 0 <= a < r.len() implies MIN_TTL <= #[trigger] r[a].1.2 <= MAX_TTL by {
            let a2 = if a < i { a } else { a + 1 };
            assert(r[a] == s[a2]);
        }
    }
}

/// A resolution walk keeps keys distinct and lifetimes in range.
proof fn lemma_walk_keeps(s: LruEntries, cur: Seq<char>, now: u64, fuel: nat)
    requires
        keys_distinct(s),
        ttls_in_range(s),
    ensures
        keys_distinct(resolve_steps(s, cur, now, fuel).1),
        ttls_in_range(resolve_steps(s, cur, now, fuel).1),
    decreases fuel,
{
    if fuel > 0 && lru_has(s, cur) {
        let i = lru_pos(s, cur);
        let e = s[i].1;
        if e.1 < now {
            lemma_remove_drops_key(s, i);
        } else {
            lemma_follow_live(s, cur, now, fuel);
            let v = (e.0, expiry(now, e.2), e.2);
            lemma_insert_wf(s, s.len(), cur, v);
            lemma_walk_keeps(lru_insert(s, s.len(), cur, v), e.0, now, (fuel - 1) as nat);
        }
    }
}

/// The walk at `later` over `g` ends where the walk at `now` over `s`
/// ends, when `g` holds the keys that the walk at `now` leaves, with the
/// same originals, and keeps alive at `later` what that walk left alive at
/// `later`.
proof fn lemma_walk_stable(s: LruEntries, cur: Seq<char>, now: u64, fuel: nat, g: LruEntries, later: u64)
    requires
        keys_distinct(s),
        ttls_in_range(s),
        keys_distinct(g),
        forall|i: int| 0 <= i < g.len() ==> #[trigger] g[i].1.2 <= MAX_TTL,
        now <= later <= MAX_NOW,
        later <= now + MIN_TTL * NANOS_PER_SEC,
        forall|x: Seq<char>|
            #[trigger] lru_has(g, x) <==> lru_has(resolve_steps(s, cur, now, fuel).1, x),
        forall|x: Seq<char>|
            #[trigger] lru_has(g, x) ==> ({
                let f = resolve_steps(s, cur, now, fuel).1;
                &&& g[lru_pos(g, x)].1.0 == f[lru_pos(f, x)].1.0
                &&& f[lru_pos(f, x)].1.1 >= later ==> g[lru_pos(g, x)].1.1 >= later
            }),
    ensures
        resolve_steps(g, cur, later, fuel).0 == resolve_steps(s, cur, now, fuel).0,
    decreases fuel,
{
    if fuel > 0 && lru_has(s, cur) {
        let i = lru_pos(s, cur);
        let e = s[i].1;
        if e.1 < now {
            lemma_remove_drops_key(s, i);
            assert(!lru_has(g, cur));
        } else {
            assert(MIN_TTL <= s[i].1.2 <= MAX_TTL);
            assert(e.2 * NANOS_PER_SEC <= 86400 * NANOS_PER_SEC);
            assert(e.2 * NANOS_PER_SEC >= 60 * NANOS_PER_SEC);
            let w = (e.0, expiry(now, e.2), e.2);
            lemma_follow_live(s, cur, now, fuel);
            let s2 = lru_insert(s, s.len(), cur, w);
            lemma_insert_wf(s, s.len(), cur, w);
            lemma_steps_keep(s2, e.0, now, (fuel - 1) as nat, cur, w);
            let f = resolve_steps(s2, e.0, now, (fuel - 1) as nat).1;
            assert(f == resolve_steps(s, cur, now, fuel).1);
            assert(lru_has(f, cur));
            assert(lru_has(g, cur));
            let j = lru_pos(g, cur);
            let ge = g[j].1;
            assert(ge.0 == e.0);
            assert(ge.1 >= later);
            assert(ge.2 <= MAX_TTL);
            assert(ge.2 * NANOS_PER_SEC <= 86400 * NANOS_PER_SEC);
            lemma_follow_live(g, cur, later, fuel);
            let gw = (e.0, expiry(later, ge.2), ge.2);
            let g2 = lru_insert(g, g.len(), cur, gw);
            assert(g2 == g.remove(j).push((cur, gw)));
            assert forall|k: int| 0 <= k < g2.len() implies #[trigger] g2[k].1.2 <= MAX_TTL by {
                if k < g2.len() - 1 {
                    if k < j {
                        assert(g2[k] == g[k]);
                    } else {
                        assert(g2[k] == g[k + 1]);
                    }
                }
            }
            assert forall|x: Seq<char>| #[trigger] lru_has(g2, x) implies ({
                &&& g2[lru_pos(g2, x)].1.0 == f[lru_pos(f, x)].1.0
                &&& f[lru_pos(f, x)].1.1 >= later ==> g2[lru_pos(g2, x)].1.1 >= later
            }) by {
                assert(lru_has(g, x));
            }
            lemma_walk_stable(s2, e.0, now, (fuel - 1) as nat, g2, later);
        }
    }
}

/// A resolution stands for `MIN_TTL`: every live mapping followed is
/// refreshed, so resolving the same name again at any time up to
/// `MIN_TTL` seconds later gives the same name.
pub proof fn lemma_resolution_stable(c: CacheState, domain: Seq<char>, now: u64, later: u64)
    requires
        state_wf(c),
        now <= later <= MAX_NOW,
        later <= now + MIN_TTL * NANOS_PER_SEC,
    ensures
        cache_resolve(cache_resolve(c, domain, now).1, domain, later).0 == cache_resolve(c, domain, now).0,
{
    let d = spec_to_lowercase(domain);
    let f = resolve_steps(c.0, d, now, MAX_CNAME_DEPTH as nat).1;
    lemma_walk_keeps(c.0, d, now, MAX_CNAME_DEPTH as nat);
    assert forall|i: int| 0 <= i < f.len() implies #[trigger] f[i].1.2 <= MAX_TTL by {
        assert(MIN_TTL <= f[i].1.2 <= MAX_TTL);
    }
    lemma_walk_stable(c.0, d, now, MAX_CNAME_DEPTH as nat, f, later);
}

/// A bounded map from CNAME targets to the names that pointed at them,
/// with least-recently-used eviction and per-mapping expiry.
pub struct CnameCache {
    cache: LruCache<String, CacheEntry, RandomState>,
    epoch: Instant,
    /// The latest clock reading handed out by `now`.
    last: u64,
}

impl View for CnameCache {
    type V = CacheState;

    closed spec fn view(&self) -> CacheState {
        (lru_entries(self.cache), lru_capacity(self.cache))
    }
}

impl CnameCache {
    /// A consistent state, with a clock reading that is a valid time.
    pub open spec fn wf(&self) -> bool {
        &&& state_wf(self@)
        &&& self.last_reading() <= MAX_NOW
    }

    /// The latest clock reading that `now` handed out (0 before any).
    pub closed spec fn last_reading(&self) -> u64 {
        self.last
    }

    /// An empty cache holding at most `capacity` mappings (at least one).
    pub fn new(capacity: usize) -> (r: Self)
        ensures
            r.wf(),
            r@.0 == Seq::<(Seq<char>, EntryView)>::empty(),
            r@.1 == if capacity == 0 {
                1
            } else {
                capacity
            },
            r.last_reading() == 0,
    {
        let cap = if capacity == 0 {
            1
        } else {
            capacity
        };
        CnameCache { cache: lru_new(cap), epoch: instant_now(), last: 0 }
    }

    /// Maps `target` to `original` (both lowercased) at time `now`, with the
    /// lifetime `ttl` clamped to `[MIN_TTL, MAX_TTL]`. A mapping of `target`
    /// to the same original only has its lifetime renewed.
    pub fn insert_at(&mut self, target: String, original: String, ttl: u32, now: u64)
        requires
            old(self).wf(),
            now <= MAX_NOW,
        ensures
            final(self).wf(),
            final(self)@ == cache_insert(old(self)@, target@, original@, ttl, now),
            final(self).last_reading() == old(self).last_reading(),
    {
        let target_lower = str_to_lowercase(target.as_str());
        let original_lower = str_to_lowercase(original.as_str());
        self.insert_lowered_at(target_lower, original_lower, ttl, now);
    }

    /// Maps `target_lower` to `original_lower` (names already lowercased)
    /// at time `now` (see `insert_lowered`).
    pub fn insert_lowered_at(&mut self, target_lower: String, original_lower: String, ttl: u32, now: u64)
        requires
            old(self).wf(),
            now <= MAX_NOW,
        ensures
            final(self).wf(),
            final(self)@ == insert_lowered(old(self)@, target_lower@, original_lower@, ttl, now),
            final(self).last_reading() == old(self).last_reading(),
    {
        let clamped: u32 = if ttl < MIN_TTL {
            MIN_TTL
        } else if ttl > MAX_TTL {
            MAX_TTL
        } else {
            ttl
        };
        let expire_at = now + (clamped as u64) * NANOS_PER_SEC;
        let ghost s0 = self@.0;
        let ghost cap = self@.1;
        let existing = lru_get(&mut self.cache, target_lower.as_str());
        proof {
            lemma_insert_after_touch(s0, cap, target_lower@, (original_lower@, expire_at, clamped));
        }
        if let Some(e) = existing {
            if e.original == original_lower {
                lru_put(
                    &mut self.cache,
                    target_lower,
                    CacheEntry { original: e.original, expire_at, ttl_secs: clamped },
                );
                proof {
                    lemma_insert_wf(s0, cap, target_lower@, (original_lower@, expire_at, clamped));
                }
                return ;
            }
        }
        lru_put(
            &mut self.cache,
            target_lower,
            CacheEntry { original: original_lower, expire_at, ttl_secs: clamped },
        );
        proof {
            lemma_insert_wf(s0, cap, target_lower@, (original_lower@, expire_at, clamped));
        }
    }

    /// Follows the CNAME mappings back from `domain` (lowercased) at time
    /// `now`, at most `MAX_CNAME_DEPTH` links: expired mappings met on the
    /// way are dropped, live ones are refreshed. Gives the last name reached.
    pub fn resolve_at(&mut self, domain: &str, now: u64) -> (r: String)
        requires
            old(self).wf(),
            now <= MAX_NOW,
        ensures
            final(self).wf(),
            (r@, final(self)@) == cache_resolve(old(self)@, domain@, now),
            final(self).last_reading() == old(self).last_reading(),
    {
        let lowered = str_to_lowercase(domain);
        self.resolve_lowered_at(lowered, now)
    }

    /// Follows the CNAME mappings back from `name` (already lowercased) at
    /// time `now` (see `resolve_lowered`).
    pub fn resolve_lowered_at(&mut self, name: String, now: u64) -> (r: String)
        requires
            old(self).wf(),
            now <= MAX_NOW,
        ensures
            final(self).wf(),
            (r@, final(self)@) == resolve_lowered(old(self)@, name@, now),
            final(self).last_reading() == old(self).last_reading(),
    {
        let mut current = name;
        let mut depth: usize = 0;
        let ghost target = resolve_lowered(old(self)@, name@, now);
        loop
            invariant
                self.wf(),
                self@.1 == old(self)@.1,
                depth < MAX_CNAME_DEPTH,
                now <= MAX_NOW,
                target == resolve_lowered(old(self)@, name@, now),
                self.last_reading() == old(self).last_reading(),
                resolve_steps(self@.0, current@, now, (MAX_CNAME_DEPTH - depth) as nat) == (
                    target.0,
                    target.1.0,
                ),
            decreases MAX_CNAME_DEPTH - depth,
        {
            let ghost s = self@.0;
            let ghost cap = self@.1;
            let got = lru_get(&mut self.cache, current.as_str());
            match got {
                None => {
                    return current;
                },
                Some(entry) => {
                    let ghost i = lru_pos(s, current@);
                    proof {
                        lemma_insert_after_touch(
                            s,
                            cap,
                            current@,
                            (entry.original@, expiry(now, entry.ttl_secs), entry.ttl_secs),
                        );
                        assert(MIN_TTL <= s[i].1.2 <= MAX_TTL);
                    }
                    if entry.expire_at < now {
                        lru_delete(&mut self.cache, current.as_str());
                        proof {
                            lemma_remove_wf(s, cap, current@);
                        }
                        return current;
                    }
                    let refreshed = CacheEntry {
                        original: entry.original.clone(),
                        expire_at: now + (entry.ttl_secs as u64) * NANOS_PER_SEC,
                        ttl_secs: entry.ttl_secs,
                    };
                    let ghost prev = current@;
                    let ghost fuel = (MAX_CNAME_DEPTH - depth) as nat;
                    lru_put(&mut self.cache, current.clone(), refreshed);
                    proof {
                        assert(s[i].1 == entry@);
                        assert(resolve_steps(s, prev, now, fuel) == resolve_steps(
                            self@.0,
                            entry.original@,
                            now,
                            (fuel - 1) as nat,
                        ));
                        lemma_insert_wf(
                            s,
                            cap,
                            current@,
                            (entry.original@, expiry(now, entry.ttl_secs), entry.ttl_secs),
                        );
                    }
                    current = entry.original;
                    depth += 1;
                    if depth >= MAX_CNAME_DEPTH {
                        return current;
                    }
                },
            }
        }
    }

    /// The time since the cache was created, in nanoseconds. Readings
    /// never go back (the clock is monotonic, and a reading below the last
    /// one handed out gives that one again), and the clock stops at
    /// `MAX_NOW` (some 584 years after creation). See `advance_clock`.
    pub fn now(&mut self) -> (r: u64)
        requires
            old(self).wf(),
        ensures
            final(self).wf(),
            final(self)@ == old(self)@,
            old(self).last_reading() <= r <= MAX_NOW,
            final(self).last_reading() == r,
    {
        let elapsed = instant_elapsed(&self.epoch);
        let nanos = duration_as_nanos(&elapsed);
        self.advance_clock(nanos)
    }

    /// Takes `elapsed_nanos`, a reading of the time since the cache was
    /// created, as the current time: the result is that reading (held at
    /// `MAX_NOW`), or the last time handed out if that is later, and
    /// becomes the last time handed out. The cache's contents are untouched.
    pub fn advance_clock(&mut self, elapsed_nanos: u128) -> (r: u64)
        requires
            old(self).wf(),
        ensures
            final(self).wf(),
            final(self)@ == old(self)@,
            r == if elapsed_nanos <= old(self).last_reading() {
                old(self).last_reading()
            } else if elapsed_nanos <= MAX_NOW {
                elapsed_nanos as u64
            } else {
                MAX_NOW
            },
            r >= old(self).last_reading(),
            r >= elapsed_nanos || r == MAX_NOW,
            final(self).last_reading() == r,
    {
        let reading = if elapsed_nanos <= MAX_NOW as u128 {
            elapsed_nanos as u64
        } else {
            MAX_NOW
        };
        if reading > self.last {
            self.last = reading;
        }
        self.last
    }

    /// Maps `target` to `original` now (see `insert_at`).
    pub fn insert(&mut self, target: String, original: String, ttl: u32)
        requires
            old(self).wf(),
        ensures
            final(self).wf(),
            exists|now: u64|
                old(self).last_reading() <= now <= MAX_NOW && final(self).last_reading() == now
                    && final(self)@ == cache_insert(old(self)@, target@, original@, ttl, now),
    {
        let now = self.now();
        self.insert_at(target, original, ttl, now);
    }

    /// Resolves `domain` now (see `resolve_at`).
    pub fn resolve(&mut self, domain: &str) -> (r: String)
        requires
            old(self).wf(),
        ensures
            final(self).wf(),
            exists|now: u64|
                old(self).last_reading() <= now <= MAX_NOW && final(self).last_reading() == now
                    && (r@, final(self)@) == cache_resolve(old(self)@, domain@, now),
    {
        let now = self.now();
        self.resolve_at(domain, now)
    }
}

} // verus!
