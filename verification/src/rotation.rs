//! The proxy rotation engine: one binding per tab, ten scheduling policies,
//! and a tick entry point whose decision and commit form a single atomic
//! step on the binding.

use vstd::prelude::*;
use vstd::string::StringExecFns;
use vstd::string::StrSliceExecFns;

use crate::errors::CoreError;
use crate::generator::str_eq;
use crate::proxy::{sat_inc, FreeProxy, PoolEntry, ProxyManager};
use crate::rng::Lcg;

verus! {

/// When and how the proxy bound to a tab is swapped. Durations are in
/// milliseconds; the random probability is in thousandths.
pub enum RotationStrategy {
    PerRequest(u64),
    PerDuration(i64),
    PerSession,
    Random { permille: u32 },
    Sticky { duration_ms: i64 },
    Geographic { country_codes: Vec<String> },
    PerformanceBased,
    RoundRobin,
    DomainBased,
    Manual,
}

/// What one tick reported back: whether a rotation was committed and the
/// proxy now bound.
pub struct TickOutcome {
    pub rotated: bool,
    pub current: Option<FreeProxy>,
}

/// The live association between one tab and its proxy.
pub struct RotationBinding {
    pub tab_id: u64,
    pub strategy: RotationStrategy,
    pub current: Option<FreeProxy>,
    pub requests_since_rotation: u64,
    pub bound_since: i64,
    pub rotation_count: u64,
    pub cursor: usize,
    pub domain_map: Vec<(String, FreeProxy)>,
}

/// A read-only snapshot of one binding for observability.
pub struct ProxySessionStats {
    pub current_proxy: Option<FreeProxy>,
    pub requests_since_rotation: u64,
    pub bound_since: i64,
    pub rotation_count: u64,
}

/// The working proxies of a pool snapshot, in stable pool order.
pub open spec fn working_view(s: Seq<PoolEntry>) -> Seq<FreeProxy>
    decreases s.len(),
{
    if s.len() == 0 {
        Seq::empty()
    } else {
        let prefix = working_view(s.drop_last());
        if s.last().proxy.is_working {
            prefix.push(s.last().proxy)
        } else {
            prefix
        }
    }
}

/// The working pool entries (proxy together with metrics), in stable order.
pub open spec fn working_entries(s: Seq<PoolEntry>) -> Seq<PoolEntry>
    decreases s.len(),
{
    if s.len() == 0 {
        Seq::empty()
    } else {
        let prefix = working_entries(s.drop_last());
        if s.last().proxy.is_working {
            prefix.push(s.last())
        } else {
            prefix
        }
    }
}

/// The candidates left after excluding the currently bound proxy's key.
pub open spec fn exclude_key(s: Seq<FreeProxy>, cur: Option<FreeProxy>) -> Seq<FreeProxy>
    decreases s.len(),
{
    if s.len() == 0 {
        s
    } else {
        let prefix = exclude_key(s.drop_last(), cur);
        if cur is Some && s.last().same_key(cur->0) {
            prefix
        } else {
            prefix.push(s.last())
        }
    }
}

/// Whether some listed country code matches `cc`.
pub open spec fn code_listed(codes: Seq<String>, cc: Seq<char>) -> bool {
    exists|k: int| 0 <= k < codes.len() && (#[trigger] codes[k])@ == cc
}

/// The working proxies whose country is in the listed set.
pub open spec fn geo_filter(s: Seq<FreeProxy>, codes: Seq<String>) -> Seq<FreeProxy>
    decreases s.len(),
{
    if s.len() == 0 {
        s
    } else {
        let prefix = geo_filter(s.drop_last(), codes);
        if code_listed(codes, s.last().country_code@) {
            prefix.push(s.last())
        } else {
            prefix
        }
    }
}

/// Whether the key of `p` still appears among the proxies of `s`.
pub open spec fn key_in(s: Seq<FreeProxy>, p: FreeProxy) -> bool {
    exists|j: int| 0 <= j < s.len() && (#[trigger] s[j]).same_key(p)
}

/// The performance score of one pool entry: higher success rate and lower
/// latency score higher.
pub open spec fn score(e: PoolEntry) -> int {
    e.metrics.success_rate * 1000 + 1000000int / (e.metrics.response_time_ms + 1)
}

/// The best score among the entries (`-1` for an empty sequence).
pub open spec fn max_score(s: Seq<PoolEntry>) -> int
    decreases s.len(),
{
    if s.len() == 0 {
        -1
    } else {
        let m = max_score(s.drop_last());
        if score(s.last()) > m {
            score(s.last())
        } else {
            m
        }
    }
}

/// The score of the currently bound proxy, looked up among the working
/// entries; a missing or dead current proxy scores `-1`, forcing a rotation.
pub open spec fn current_score(cur: Option<FreeProxy>, wev: Seq<PoolEntry>) -> int {
    if cur is Some && (exists|j: int|
        0 <= j < wev.len() && (#[trigger] wev[j]).proxy.same_key(cur->0)) {
        let j = choose|j: int| 0 <= j < wev.len() && (#[trigger] wev[j]).proxy.same_key(cur->0);
        score(wev[j])
    } else {
        -1
    }
}

/// First-match lookup in a binding's domain cache.
pub open spec fn dmap_lookup(m: Seq<(String, FreeProxy)>, d: Seq<char>) -> Option<FreeProxy>
    decreases m.len(),
{
    if m.len() == 0 {
        None
    } else if m[0].0@ == d {
        Some(m[0].1)
    } else {
        dmap_lookup(m.drop_first(), d)
    }
}

/// The hash that pins a domain to a pool slot: deterministic over the
/// domain's characters, so the same domain always lands on the same slot
/// while the pool is unchanged.
pub open spec fn domain_hash_spec(d: Seq<char>, n: int) -> u64
    decreases n,
{
    if n <= 0 {
        0xcbf29ce484222325u64
    } else {
        vstd::wrapping::u64_specs::wrapping_mul(
            domain_hash_spec(d, n - 1) ^ (d[n - 1] as u64),
            0x100000001b3u64,
        )
    }
}

/// The binding after a tick that did not rotate: only the request counter
/// moved.
pub open spec fn bumped(b0: RotationBinding, b1: RotationBinding) -> bool {
    b1 == RotationBinding { requests_since_rotation: sat_inc(b0.requests_since_rotation), ..b0 }
}

/// The binding bookkeeping common to every committed rotation.
pub open spec fn rotated_step(b0: RotationBinding, b1: RotationBinding, now_ms: i64) -> bool {
    &&& b1.tab_id == b0.tab_id
    &&& b1.strategy == b0.strategy
    &&& b1.current is Some
    &&& b1.requests_since_rotation == 0
    &&& b1.bound_since == now_ms
    &&& b1.rotation_count == sat_inc(b0.rotation_count)
}

/// The tick outcome that reports no rotation and the unchanged proxy.
pub open spec fn kept(b0: RotationBinding, r: Result<TickOutcome, CoreError>) -> bool {
    match r {
        Ok(o) => !o.rotated && o.current == b0.current,
        Err(_) => false,
    }
}

/// What one tick of the engine does to a binding, for every strategy.
///
/// `entries` is the pool snapshot consulted, `now_ms` the tick's time and
/// `domain` the request's domain tag. The decision and the new binding are
/// related exactly for the deterministic policies; for the randomized ones
/// the relation states what holds of every draw.
pub open spec fn tick_rel(
    b0: RotationBinding,
    b1: RotationBinding,
    entries: Seq<PoolEntry>,
    now_ms: i64,
    domain: Option<Seq<char>>,
    r: Result<TickOutcome, CoreError>,
) -> bool {
    let wv = working_view(entries);
    match b0.strategy {
        RotationStrategy::PerRequest(n) => {
            let trigger = b0.requests_since_rotation + 1 >= n;
            if !trigger {
                kept(b0, r) && bumped(b0, b1)
            } else if exclude_key(wv, b0.current).len() == 0 {
                r == Err::<TickOutcome, CoreError>(CoreError::NoAvailableProxy) && b1 == b0
            } else {
                match r {
                    Ok(o) => {
                        &&& o.rotated
                        &&& o.current == b1.current
                        &&& rotated_step(b0, b1, now_ms)
                        &&& exclude_key(wv, b0.current).contains(b1.current->0)
                        &&& b1.cursor == b0.cursor
                        &&& b1.domain_map == b0.domain_map
                    },
                    Err(_) => false,
                }
            }
        },
        RotationStrategy::PerDuration(d) => {
            let trigger = now_ms - b0.bound_since >= d;
            if !trigger {
                kept(b0, r) && bumped(b0, b1)
            } else if exclude_key(wv, b0.current).len() == 0 {
                r == Err::<TickOutcome, CoreError>(CoreError::NoAvailableProxy) && b1 == b0
            } else {
                match r {
                    Ok(o) => {
                        &&& o.rotated
                        &&& o.current == b1.current
                        &&& rotated_step(b0, b1, now_ms)
                        &&& exclude_key(wv, b0.current).contains(b1.current->0)
                        &&& b1.cursor == b0.cursor
                        &&& b1.domain_map == b0.domain_map
                    },
                    Err(_) => false,
                }
            }
        },
        RotationStrategy::PerSession => kept(b0, r) && bumped(b0, b1),
        RotationStrategy::Manual => kept(b0, r) && bumped(b0, b1),
        RotationStrategy::Random { permille } => {
            match r {
                Ok(o) => {
                    if o.rotated {
                        &&& o.current == b1.current
                        &&& rotated_step(b0, b1, now_ms)
                        &&& exclude_key(wv, b0.current).contains(b1.current->0)
                        &&& b1.cursor == b0.cursor
                        &&& b1.domain_map == b0.domain_map
                    } else {
                        o.current == b0.current && bumped(b0, b1)
                    }
                },
                Err(e) => e == CoreError::NoAvailableProxy && exclude_key(wv, b0.current).len()
                    == 0 && b1 == b0,
            }
        },
        RotationStrategy::Sticky { duration_ms } => {
            let trigger = now_ms - b0.bound_since >= duration_ms;
            if !trigger {
                kept(b0, r) && bumped(b0, b1)
            } else if b0.current is Some && key_in(wv, b0.current->0) {
                // the bound proxy still looks healthy: keep it, restart the clock
                kept(b0, r) && b1 == RotationBinding {
                    requests_since_rotation: 0u64,
                    bound_since: now_ms,
                    ..b0
                }
            } else if exclude_key(wv, b0.current).len() == 0 {
                r == Err::<TickOutcome, CoreError>(CoreError::NoAvailableProxy) && b1 == b0
            } else {
                match r {
                    Ok(o) => {
                        &&& o.rotated
                        &&& o.current == b1.current
                        &&& rotated_step(b0, b1, now_ms)
                        &&& exclude_key(wv, b0.current).contains(b1.current->0)
                        &&& b1.cursor == b0.cursor
                        &&& b1.domain_map == b0.domain_map
                    },
                    Err(_) => false,
                }
            }
        },
        // Geographic rotates when the bound proxy's country leaves the
        // listed set (the membership trigger); no request cadence is layered
        // on top, since its period is a free choice — a caller wanting one
        // switches between Geographic and PerRequest via
        // update_rotation_strategy.
        RotationStrategy::Geographic { country_codes } => {
            let trigger = !(b0.current is Some && code_listed(
                country_codes@,
                (b0.current->0).country_code@,
            ));
            if !trigger {
                kept(b0, r) && bumped(b0, b1)
            } else if geo_filter(wv, country_codes@).len() == 0 {
                r == Err::<TickOutcome, CoreError>(CoreError::NoAvailableProxy) && b1 == b0
            } else {
                match r {
                    Ok(o) => {
                        &&& o.rotated
                        &&& o.current == b1.current
                        &&& rotated_step(b0, b1, now_ms)
                        &&& geo_filter(wv, country_codes@).contains(b1.current->0)
                        &&& b1.cursor == b0.cursor
                        &&& b1.domain_map == b0.domain_map
                    },
                    Err(_) => false,
                }
            }
        },
        RotationStrategy::PerformanceBased => {
            let wev = working_entries(entries);
            if wev.len() == 0 {
                r == Err::<TickOutcome, CoreError>(CoreError::NoAvailableProxy) && b1 == b0
            } else {
                let trigger = current_score(b0.current, wev) * 10 < max_score(wev) * 8;
                if !trigger {
                    kept(b0, r) && bumped(b0, b1)
                } else {
                    match r {
                        Ok(o) => {
                            &&& o.rotated
                            &&& o.current == b1.current
                            &&& rotated_step(b0, b1, now_ms)
                            &&& exists|j: int|
                                0 <= j < wev.len() && (#[trigger] wev[j]).proxy == b1.current->0
                                    && score(wev[j]) == max_score(wev)
                            &&& b1.cursor == b0.cursor
                            &&& b1.domain_map == b0.domain_map
                        },
                        Err(_) => false,
                    }
                }
            }
        },
        RotationStrategy::RoundRobin => {
            if wv.len() == 0 {
                r == Err::<TickOutcome, CoreError>(CoreError::NoAvailableProxy) && b1 == b0
            } else {
                let idx = (b0.cursor as int) % (wv.len() as int);
                match r {
                    Ok(o) => {
                        &&& o.rotated
                        &&& o.current == b1.current
                        &&& b1.current == Some(wv[idx])
                        &&& rotated_step(b0, b1, now_ms)
                        &&& b1.cursor == idx + 1
                        &&& b1.domain_map == b0.domain_map
                    },
                    Err(_) => false,
                }
            }
        },
        RotationStrategy::DomainBased => {
            match domain {
                None => kept(b0, r) && bumped(b0, b1),
                Some(d) => {
                    let cached = dmap_lookup(b0.domain_map@, d);
                    if cached is Some && key_in(wv, cached->0) {
                        // the stable mapping: same domain, same proxy
                        match r {
                            Ok(o) => {
                                &&& !o.rotated
                                &&& o.current == Some(cached->0)
                                &&& b1 == RotationBinding {
                                    current: Some(cached->0),
                                    requests_since_rotation: sat_inc(b0.requests_since_rotation),
                                    ..b0
                                }
                            },
                            Err(_) => false,
                        }
                    } else if wv.len() == 0 {
                        r == Err::<TickOutcome, CoreError>(CoreError::NoAvailableProxy) && b1 == b0
                    } else {
                        let idx = (domain_hash_spec(d, d.len() as int) as int) % (wv.len() as int);
                        match r {
                            Ok(o) => {
                                &&& o.rotated
                                &&& o.current == b1.current
                                &&& b1.current == Some(wv[idx])
                                &&& rotated_step(b0, b1, now_ms)
                                &&& b1.cursor == b0.cursor
                                &&& dmap_lookup(b1.domain_map@, d) == Some(wv[idx])
                            },
                            Err(_) => false,
                        }
                    }
                },
            }
        },
    }
}

/// Whether some binding carries the tab id.
pub open spec fn bindings_contain(s: Seq<RotationBinding>, id: u64) -> bool {
    exists|i: int| 0 <= i < s.len() && (#[trigger] s[i]).tab_id == id
}

/// The state a binding starts in when a tab is first seen.
pub open spec fn is_default_binding(b: RotationBinding, tab_id: u64, now_ms: i64) -> bool {
    &&& b.tab_id == tab_id
    &&& b.strategy == RotationStrategy::PerRequest(100)
    &&& b.current is None
    &&& b.requests_since_rotation == 0
    &&& b.bound_since == now_ms
    &&& b.rotation_count == 0
    &&& b.cursor == 0
    &&& b.domain_map@.len() == 0
}


fn dup_opt(x: &Option<FreeProxy>) -> (r: Option<FreeProxy>)
    ensures
        r == *x,
{
    match x {
        Some(p) => Some(p.duplicate()),
        None => None,
    }
}

/// The working proxies of the pool, in stable pool order.
fn working_proxies(pool: &ProxyManager) -> (r: Vec<FreeProxy>)
    ensures
        r@ == working_view(pool.entries@),
{
    let mut out: Vec<FreeProxy> = Vec::new();
    let mut i: usize = 0;
    let n = pool.entries.len();
    while i < n
        invariant
            n == pool.entries@.len(),
            i <= n,
            out@ == working_view(pool.entries@.subrange(0, i as int)),
        decreases n - i,
    {
        let e = &pool.entries[i];
        if e.proxy.is_working {
            out.push(e.proxy.duplicate());
        }
        proof {
            let s1 = pool.entries@.subrange(0, i as int + 1);
            assert(s1.drop_last() =~= pool.entries@.subrange(0, i as int));
            assert(s1.last() == pool.entries@[i as int]);
            reveal_with_fuel(working_view, 2);
            if pool.entries@[i as int].proxy.is_working {
                assert(working_view(s1) == working_view(s1.drop_last()).push(s1.last().proxy));
            } else {
                assert(working_view(s1) == working_view(s1.drop_last()));
            }
        }
        i = i + 1;
    }
    proof {
        assert(pool.entries@.subrange(0, n as int) =~= pool.entries@);
    }
    out
}

/// The working pool entries, metrics included, in stable pool order.
fn working_pool_entries(pool: &ProxyManager) -> (r: Vec<PoolEntry>)
    ensures
        r@ == working_entries(pool.entries@),
{
    let mut out: Vec<PoolEntry> = Vec::new();
    let mut i: usize = 0;
    let n = pool.entries.len();
    while i < n
        invariant
            n == pool.entries@.len(),
            i <= n,
            out@ == working_entries(pool.entries@.subrange(0, i as int)),
        decreases n - i,
    {
        let e = &pool.entries[i];
        if e.proxy.is_working {
            out.push(e.duplicate());
        }
        proof {
            let s1 = pool.entries@.subrange(0, i as int + 1);
            assert(s1.drop_last() =~= pool.entries@.subrange(0, i as int));
            assert(s1.last() == pool.entries@[i as int]);
            reveal_with_fuel(working_entries, 2);
            if pool.entries@[i as int].proxy.is_working {
                assert(working_entries(s1) == working_entries(s1.drop_last()).push(s1.last()));
            } else {
                assert(working_entries(s1) == working_entries(s1.drop_last()));
            }
        }
        i = i + 1;
    }
    proof {
        assert(pool.entries@.subrange(0, n as int) =~= pool.entries@);
    }
    out
}

/// The candidates left after the currently bound key is excluded.
fn exclude_current(wv: &Vec<FreeProxy>, cur: &Option<FreeProxy>) -> (r: Vec<FreeProxy>)
    ensures
        r@ == exclude_key(wv@, *cur),
{
    let mut out: Vec<FreeProxy> = Vec::new();
    let mut i: usize = 0;
    let n = wv.len();
    while i < n
        invariant
            n == wv@.len(),
            i <= n,
            out@ == exclude_key(wv@.subrange(0, i as int), *cur),
        decreases n - i,
    {
        let p = &wv[i];
        let skip = match cur {
            Some(c) => str_eq(p.ip.as_str(), c.ip.as_str()) && p.port == c.port,
            None => false,
        };
        if !skip {
            out.push(p.duplicate());
        }
        proof {
            let s1 = wv@.subrange(0, i as int + 1);
            assert(s1.drop_last() =~= wv@.subrange(0, i as int));
            assert(s1.last() == wv@[i as int]);
            reveal_with_fuel(exclude_key, 2);
            if skip {
                assert(exclude_key(s1, *cur) == exclude_key(s1.drop_last(), *cur));
            } else {
                assert(exclude_key(s1, *cur) == exclude_key(s1.drop_last(), *cur).push(s1.last()));
            }
        }
        i = i + 1;
    }
    proof {
        assert(wv@.subrange(0, n as int) =~= wv@);
    }
    out
}

/// Whether one of the listed codes matches `cc`.
fn code_listed_exec(codes: &Vec<String>, cc: &str) -> (r: bool)
    ensures
        r == code_listed(codes@, cc@),
{
    let mut k: usize = 0;
    let n = codes.len();
    while k < n
        invariant
            n == codes@.len(),
            k <= n,
            forall|m: int| 0 <= m < k ==> (#[trigger] codes@[m])@ != cc@,
        decreases n - k,
    {
        if str_eq(codes[k].as_str(), cc) {
            return true;
        }
        k = k + 1;
    }
    false
}

/// The working proxies whose country is in the listed set.
fn geo_candidates(wv: &Vec<FreeProxy>, codes: &Vec<String>) -> (r: Vec<FreeProxy>)
    ensures
        r@ == geo_filter(wv@, codes@),
{
    let mut out: Vec<FreeProxy> = Vec::new();
    let mut i: usize = 0;
    let n = wv.len();
    while i < n
        invariant
            n == wv@.len(),
            i <= n,
            out@ == geo_filter(wv@.subrange(0, i as int), codes@),
        decreases n - i,
    {
        let p = &wv[i];
        let listed = code_listed_exec(codes, p.country_code.as_str());
        if listed {
            out.push(p.duplicate());
        }
        proof {
            let s1 = wv@.subrange(0, i as int + 1);
            assert(s1.drop_last() =~= wv@.subrange(0, i as int));
            assert(s1.last() == wv@[i as int]);
            reveal_with_fuel(geo_filter, 2);
            if listed {
                assert(geo_filter(s1, codes@) == geo_filter(s1.drop_last(), codes@).push(s1.last()));
            } else {
                assert(geo_filter(s1, codes@) == geo_filter(s1.drop_last(), codes@));
            }
        }
        i = i + 1;
    }
    proof {
        assert(wv@.subrange(0, n as int) =~= wv@);
    }
    out
}

/// Whether the key of `p` appears among the proxies of `wv`.
fn key_in_exec(wv: &Vec<FreeProxy>, p: &FreeProxy) -> (r: bool)
    ensures
        r == key_in(wv@, *p),
{
    let mut i: usize = 0;
    let n = wv.len();
    while i < n
        invariant
            n == wv@.len(),
            i <= n,
            forall|j: int| 0 <= j < i ==> !(#[trigger] wv@[j]).same_key(*p),
        decreases n - i,
    {
        let q = &wv[i];
        if str_eq(q.ip.as_str(), p.ip.as_str()) && q.port == p.port {
            return true;
        }
        i = i + 1;
    }
    false
}

/// The deterministic hash of a domain tag.
pub fn domain_hash(d: &str) -> (r: u64)
    ensures
        r == domain_hash_spec(d@, d@.len() as int),
{
    let n = d.unicode_len();
    let mut h: u64 = 0xcbf29ce484222325u64;
    let mut i: usize = 0;
    while i < n
        invariant
            n == d@.len(),
            i <= n,
            h == domain_hash_spec(d@, i as int),
        decreases n - i,
    {
        let c = d.get_char(i);
        h = (h ^ (c as u64)).wrapping_mul(0x100000001b3u64);
        i = i + 1;
    }
    h
}

/// First-match search of the domain cache.
fn dmap_find(m: &Vec<(String, FreeProxy)>, d: &str) -> (r: Option<usize>)
    ensures
        match r {
            Some(j) => {
                &&& j < m@.len()
                &&& m@[j as int].0@ == d@
                &&& forall|k: int| 0 <= k < j ==> (#[trigger] m@[k]).0@ != d@
                &&& dmap_lookup(m@, d@) == Some(m@[j as int].1)
            },
            None => dmap_lookup(m@, d@) is None && forall|k: int|
                0 <= k < m@.len() ==> (#[trigger] m@[k]).0@ != d@,
        },
{
    let mut j: usize = 0;
    let n = m.len();
    while j < n
        invariant
            n == m@.len(),
            j <= n,
            forall|k: int| 0 <= k < j ==> (#[trigger] m@[k]).0@ != d@,
        decreases n - j,
    {
        if str_eq(m[j].0.as_str(), d) {
            proof {
                lemma_dmap_skip(m@, d@, j as int);
                assert(m@.skip(j as int)[0] == m@[j as int]);
            }
            return Some(j);
        }
        j = j + 1;
    }
    proof {
        lemma_dmap_skip(m@, d@, n as int);
        assert(m@.skip(n as int) =~= Seq::<(String, FreeProxy)>::empty());
    }
    None
}

/// Looking a domain up skips a prefix with no match.
proof fn lemma_dmap_skip(m: Seq<(String, FreeProxy)>, d: Seq<char>, j: int)
    requires
        0 <= j <= m.len(),
        forall|k: int| 0 <= k < j ==> (#[trigger] m[k]).0@ != d,
    ensures
        dmap_lookup(m, d) == dmap_lookup(m.skip(j), d),
    decreases j,
{
    if j > 0 {
        assert(m[0].0@ != d);
        lemma_dmap_skip(m.drop_first(), d, j - 1);
        assert(m.skip(j) =~= m.drop_first().skip(j - 1));
    } else {
        assert(m.skip(0) =~= m);
    }
}

/// The exact performance score of one entry.
fn score_exec(e: &PoolEntry) -> (r: u128)
    ensures
        r == score(*e),
{
    (e.metrics.success_rate as u128) * 1000 + 1000000u128 / ((e.metrics.response_time_ms as u128)
        + 1)
}

/// Every score is non-negative, and the best of a non-empty set is achieved.
proof fn lemma_max_score(s: Seq<PoolEntry>)
    requires
        s.len() > 0,
    ensures
        max_score(s) >= 0,
        exists|j: int| 0 <= j < s.len() && score(#[trigger] s[j]) == max_score(s),
        forall|j: int| 0 <= j < s.len() ==> score(#[trigger] s[j]) <= max_score(s),
    decreases s.len(),
{
    if s.len() == 1 {
        assert(score(s[0]) >= 0);
        assert(s.drop_last().len() == 0);
    } else {
        lemma_max_score(s.drop_last());
        assert(forall|j: int|
            0 <= j < s.len() - 1 ==> s.drop_last()[j] == (#[trigger] s[j]));
        if score(s.last()) > max_score(s.drop_last()) {
            assert(score(s[s.len() - 1]) == max_score(s));
        } else {
            let j0 = choose|j0: int|
                0 <= j0 < s.drop_last().len() && score(#[trigger] s.drop_last()[j0]) == max_score(
                    s.drop_last(),
                );
            assert(score(s[j0]) == max_score(s));
        }
    }
}

/// Working entries keep the pool's key uniqueness and metric health.
proof fn lemma_working_entries_wf(s: Seq<PoolEntry>)
    requires
        crate::proxy::snapshot_wf(s),
    ensures
        forall|j: int| 0 <= j < working_entries(s).len() ==> exists|k: int|
            0 <= k < s.len() && #[trigger] working_entries(s)[j] == s[k],
        forall|a: int, b: int|
            0 <= a < b < working_entries(s).len() ==> !(#[trigger] working_entries(
                s,
            )[a]).proxy.same_key((#[trigger] working_entries(s)[b]).proxy),
    decreases s.len(),
{
    if s.len() > 0 {
        assert(crate::proxy::snapshot_wf(s.drop_last()));
        lemma_working_entries_wf(s.drop_last());
        let we = working_entries(s);
        let wp = working_entries(s.drop_last());
        assert forall|j: int| 0 <= j < we.len() implies exists|k: int|
            0 <= k < s.len() && #[trigger] we[j] == s[k] by {
            if s.last().proxy.is_working && j == we.len() - 1 {
                assert(we[j] == s[s.len() - 1]);
            } else {
                assert(we[j] == wp[j]);
                let k0 = choose|k0: int| 0 <= k0 < s.drop_last().len() && wp[j] == #[trigger] s.drop_last()[k0];
                assert(we[j] == s[k0]);
            }
        }
        assert forall|a: int, b: int|
            0 <= a < b < we.len() implies !(#[trigger] we[a]).proxy.same_key(
            (#[trigger] we[b]).proxy,
        ) by {
            if s.last().proxy.is_working && b == we.len() - 1 {
                assert(we[a] == wp[a]);
                let ka = choose|ka: int| 0 <= ka < s.drop_last().len() && wp[a] == #[trigger] s.drop_last()[ka];
                assert(we[a] == s[ka]);
                assert(we[b] == s[s.len() - 1]);
                assert(!s[ka].proxy.same_key(s[s.len() - 1].proxy));
            } else {
                assert(we[a] == wp[a] && we[b] == wp[b]);
            }
        }
    }
}


/// The domain tag as the specification sees it.
pub open spec fn spec_dom(domain: Option<&str>) -> Option<Seq<char>> {
    match domain {
        Some(d) => Some(d@),
        None => None,
    }
}

fn bump_commit(b: RotationBinding) -> (res: (RotationBinding, Result<TickOutcome, CoreError>))
    ensures
        bumped(b, res.0),
        kept(b, res.1),
{
    let cur = dup_opt(&b.current);
    let b1 = RotationBinding {
        requests_since_rotation: crate::proxy::sat_inc_exec(b.requests_since_rotation),
        ..b
    };
    (b1, Ok(TickOutcome { rotated: false, current: cur }))
}

fn commit_uniform(
    b: RotationBinding,
    elig: &Vec<FreeProxy>,
    now_ms: i64,
    rng: &mut Lcg,
) -> (res: (RotationBinding, Result<TickOutcome, CoreError>))
    requires
        elig@.len() > 0,
    ensures
        rotated_step(b, res.0, now_ms),
        elig@.contains(res.0.current->0),
        res.0.cursor == b.cursor,
        res.0.domain_map == b.domain_map,
        res.1 == Ok::<TickOutcome, CoreError>(
            TickOutcome { rotated: true, current: res.0.current },
        ),
{
    let idx = rng.below(elig.len() as u64) as usize;
    let p = elig[idx].duplicate();
    proof {
        assert(elig@.contains(elig@[idx as int]));
    }
    let b1 = RotationBinding {
        current: Some(p.duplicate()),
        requests_since_rotation: 0,
        bound_since: now_ms,
        rotation_count: crate::proxy::sat_inc_exec(b.rotation_count),
        ..b
    };
    let cur = dup_opt(&b1.current);
    (b1, Ok(TickOutcome { rotated: true, current: cur }))
}

/// Evaluate one tick against a single binding: the decision and the new
/// binding state are produced together, so a caller that holds the binding
/// exclusively commits at most one rotation per tick.
fn tick_binding(
    b: RotationBinding,
    pool: &ProxyManager,
    now_ms: i64,
    domain: Option<&str>,
    rng: &mut Lcg,
) -> (res: (RotationBinding, Result<TickOutcome, CoreError>))
    requires
        pool.wf(),
        now_ms >= 0,
        b.bound_since >= 0,
    ensures
        tick_rel(b, res.0, pool.entries@, now_ms, spec_dom(domain), res.1),
        res.0.tab_id == b.tab_id,
        res.0.bound_since >= 0,
{
    let ghost b0 = b;
    let wv = working_proxies(pool);
    match &b.strategy {
        RotationStrategy::PerRequest(n) => {
            let n = *n;
            let trigger = crate::proxy::sat_inc_exec(b.requests_since_rotation) >= n;
            proof {
                assert(trigger == (b0.requests_since_rotation + 1 >= n));
            }
            if !trigger {
                bump_commit(b)
            } else {
                let elig = exclude_current(&wv, &b.current);
                if elig.len() == 0 {
                    (b, Err(CoreError::NoAvailableProxy))
                } else {
                    commit_uniform(b, &elig, now_ms, rng)
                }
            }
        },
        RotationStrategy::PerDuration(d) => {
            let d = *d;
            let trigger = now_ms - b.bound_since >= d;
            if !trigger {
                bump_commit(b)
            } else {
                let elig = exclude_current(&wv, &b.current);
                if elig.len() == 0 {
                    (b, Err(CoreError::NoAvailableProxy))
                } else {
                    commit_uniform(b, &elig, now_ms, rng)
                }
            }
        },
        RotationStrategy::PerSession => bump_commit(b),
        RotationStrategy::Manual => bump_commit(b),
        RotationStrategy::Random { permille } => {
            let permille = *permille;
            let draw = rng.below(1000);
            let trigger = (draw as u32) < permille;
            if !trigger {
                bump_commit(b)
            } else {
                let elig = exclude_current(&wv, &b.current);
                if elig.len() == 0 {
                    (b, Err(CoreError::NoAvailableProxy))
                } else {
                    commit_uniform(b, &elig, now_ms, rng)
                }
            }
        },
        RotationStrategy::Sticky { duration_ms } => {
            let d = *duration_ms;
            let trigger = now_ms - b.bound_since >= d;
            if !trigger {
                bump_commit(b)
            } else {
                let keep = match &b.current {
                    Some(c) => key_in_exec(&wv, c),
                    None => false,
                };
                if keep {
                    let cur = dup_opt(&b.current);
                    let b1 = RotationBinding {
                        requests_since_rotation: 0,
                        bound_since: now_ms,
                        ..b
                    };
                    (b1, Ok(TickOutcome { rotated: false, current: cur }))
                } else {
                    let elig = exclude_current(&wv, &b.current);
                    if elig.len() == 0 {
                        (b, Err(CoreError::NoAvailableProxy))
                    } else {
                        commit_uniform(b, &elig, now_ms, rng)
                    }
                }
            }
        },
        RotationStrategy::Geographic { country_codes } => {
            let in_set = match &b.current {
                Some(c) => code_listed_exec(country_codes, c.country_code.as_str()),
                None => false,
            };
            let cands = geo_candidates(&wv, country_codes);
            if in_set {
                bump_commit(b)
            } else if cands.len() == 0 {
                (b, Err(CoreError::NoAvailableProxy))
            } else {
                commit_uniform(b, &cands, now_ms, rng)
            }
        },
        RotationStrategy::PerformanceBased => {
            let wev = working_pool_entries(pool);
            if wev.len() == 0 {
                return (b, Err(CoreError::NoAvailableProxy));
            }
            proof {
                lemma_working_entries_wf(pool.entries@);
            }
            let picked = perf_pick(&wev, &b.current);
            let trigger = picked.0;
            let besti = picked.1;
            if !trigger {
                bump_commit(b)
            } else {
                let p = wev[besti].proxy.duplicate();
                let b1 = RotationBinding {
                    current: Some(p.duplicate()),
                    requests_since_rotation: 0,
                    bound_since: now_ms,
                    rotation_count: crate::proxy::sat_inc_exec(b.rotation_count),
                    ..b
                };
                let cur = dup_opt(&b1.current);
                proof {
                    assert(wev@[besti as int].proxy == b1.current->0);
                }
                (b1, Ok(TickOutcome { rotated: true, current: cur }))
            }
        },
        RotationStrategy::RoundRobin => {
            if wv.len() == 0 {
                (b, Err(CoreError::NoAvailableProxy))
            } else {
                let idx = b.cursor % wv.len();
                let p = wv[idx].duplicate();
                let b1 = RotationBinding {
                    current: Some(p.duplicate()),
                    requests_since_rotation: 0,
                    bound_since: now_ms,
                    rotation_count: crate::proxy::sat_inc_exec(b.rotation_count),
                    cursor: idx + 1,
                    ..b
                };
                let cur = dup_opt(&b1.current);
                (b1, Ok(TickOutcome { rotated: true, current: cur }))
            }
        },
        RotationStrategy::DomainBased => {
            match domain {
                None => bump_commit(b),
                Some(d) => {
                    let found = dmap_find(&b.domain_map, d);
                    let cached_alive = match found {
                        Some(j) => key_in_exec(&wv, &b.domain_map[j].1),
                        None => false,
                    };
                    if cached_alive {
                        let j = match found {
                            Some(j) => j,
                            None => 0,
                        };
                        let cached = b.domain_map[j].1.duplicate();
                        let b1 = RotationBinding {
                            current: Some(cached.duplicate()),
                            requests_since_rotation: crate::proxy::sat_inc_exec(
                                b.requests_since_rotation,
                            ),
                            ..b
                        };
                        (b1, Ok(TickOutcome { rotated: false, current: Some(cached) }))
                    } else if wv.len() == 0 {
                        (b, Err(CoreError::NoAvailableProxy))
                    } else {
                        let h = domain_hash(d);
                        let idx = (h % (wv.len() as u64)) as usize;
                        let p = wv[idx].duplicate();
                        let mut b = b;
                        let ghost map0 = b.domain_map@;
                        match found {
                            Some(j) => {
                                let _ = b.domain_map.remove(j);
                                proof {
                                    map0.remove_ensures(j as int);
                                }
                                b.domain_map.insert(j, (d.to_owned(), p.duplicate()));
                                proof {
                                    let entry = (b.domain_map@[j as int].0, b.domain_map@[j as int].1);
                                    assert(b.domain_map@ =~= map0.update(j as int, b.domain_map@[j as int]));
                                    assert(b.domain_map@[j as int].0@ == d@);
                                    assert(b.domain_map@[j as int].1 == p);
                                    assert forall|k: int| 0 <= k < j implies (#[trigger] b.domain_map@[k]).0@
                                        != d@ by {
                                        assert(b.domain_map@[k] == map0[k]);
                                    }
                                    lemma_dmap_skip(b.domain_map@, d@, j as int);
                                    assert(b.domain_map@.skip(j as int)[0] == b.domain_map@[j as int]);
                                    assert(dmap_lookup(b.domain_map@, d@) == Some(p));
                                }
                            },
                            None => {
                                let len0 = b.domain_map.len();
                                b.domain_map.push((d.to_owned(), p.duplicate()));
                                proof {
                                    assert forall|k: int| 0 <= k < len0 implies (#[trigger] b.domain_map@[k]).0@
                                        != d@ by {
                                        assert(b.domain_map@[k] == map0[k]);
                                    }
                                    lemma_dmap_skip(b.domain_map@, d@, len0 as int);
                                    assert(b.domain_map@.skip(len0 as int)[0] == b.domain_map@[len0 as int]);
                                    assert(b.domain_map@[len0 as int].0@ == d@);
                                    assert(b.domain_map@[len0 as int].1 == p);
                                    assert(dmap_lookup(b.domain_map@, d@) == Some(p));
                                }
                            },
                        }
                        let b1 = RotationBinding {
                            current: Some(p.duplicate()),
                            requests_since_rotation: 0,
                            bound_since: now_ms,
                            rotation_count: crate::proxy::sat_inc_exec(b.rotation_count),
                            ..b
                        };
                        let cur = dup_opt(&b1.current);
                        (b1, Ok(TickOutcome { rotated: true, current: cur }))
                    }
                },
            }
        },
    }
}


/// Find the best-scoring working entry and decide whether the current
/// binding falls far enough behind it to force a rotation.
fn perf_pick(wev: &Vec<PoolEntry>, cur: &Option<FreeProxy>) -> (r: (bool, usize))
    requires
        wev@.len() > 0,
        forall|a: int, b: int|
            0 <= a < b < wev@.len() ==> !(#[trigger] wev@[a]).proxy.same_key(
                (#[trigger] wev@[b]).proxy,
            ),
    ensures
        r.1 < wev@.len(),
        score(wev@[r.1 as int]) == max_score(wev@),
        r.0 == (current_score(*cur, wev@) * 10 < max_score(wev@) * 8),
{
    let n = wev.len();
    let mut best: u128 = score_exec(&wev[0]);
    let mut besti: usize = 0;
    let mut i: usize = 1;
    proof {
        assert(wev@.subrange(0, 1).drop_last() =~= wev@.subrange(0, 0));
        assert(wev@.subrange(0, 1).last() == wev@[0]);
        reveal_with_fuel(max_score, 2);
        assert(max_score(wev@.subrange(0, 1)) == score(wev@[0]));
    }
    while i < n
        invariant
            n == wev@.len(),
            1 <= i <= n,
            besti < i,
            best == max_score(wev@.subrange(0, i as int)),
            best == score(wev@[besti as int]),
        decreases n - i,
    {
        let sc = score_exec(&wev[i]);
        proof {
            let s1 = wev@.subrange(0, i as int + 1);
            assert(s1.drop_last() =~= wev@.subrange(0, i as int));
            assert(s1.last() == wev@[i as int]);
            reveal_with_fuel(max_score, 2);
        }
        if sc > best {
            best = sc;
            besti = i;
        }
        i = i + 1;
    }
    proof {
        assert(wev@.subrange(0, n as int) =~= wev@);
        lemma_max_score(wev@);
    }
    let mut cur_found: bool = false;
    let mut cur_sc: u128 = 0;
    match cur {
        Some(c) => {
            let mut j: usize = 0;
            while j < n && !cur_found
                invariant
                    n == wev@.len(),
                    j <= n,
                    forall|a: int, b: int|
                        0 <= a < b < wev@.len() ==> !(#[trigger] wev@[a]).proxy.same_key(
                            (#[trigger] wev@[b]).proxy,
                        ),
                    !cur_found ==> forall|k: int|
                        0 <= k < j ==> !(#[trigger] wev@[k]).proxy.same_key(*c),
                    cur_found ==> cur_sc == current_score(Some(*c), wev@),
                decreases n - j,
            {
                let e = &wev[j];
                if str_eq(e.proxy.ip.as_str(), c.ip.as_str()) && e.proxy.port == c.port {
                    cur_sc = score_exec(e);
                    cur_found = true;
                    proof {
                        assert(wev@[j as int].proxy.same_key(*c));
                        let j0 = choose|j0: int|
                            0 <= j0 < wev@.len() && (#[trigger] wev@[j0]).proxy.same_key(*c);
                        assert(wev@[j0].proxy.same_key(*c));
                        if j0 < j as int {
                            assert(!wev@[j0].proxy.same_key(wev@[j as int].proxy));
                            assert(false);
                        } else if j0 > j as int {
                            assert(!wev@[j as int].proxy.same_key(wev@[j0].proxy));
                            assert(false);
                        }
                        assert(current_score(Some(*c), wev@) == score(wev@[j as int]));
                    }
                }
                j = j + 1;
            }
            proof {
                if !cur_found {
                    assert(current_score(Some(*c), wev@) == -1);
                }
            }
        },
        None => {
            proof {
                assert(current_score(*cur, wev@) == -1);
            }
        },
    }
    let trigger = if cur_found {
        cur_sc * 10 < best * 8
    } else {
        true
    };
    proof {
        if !cur_found {
            assert(max_score(wev@) >= 0);
            assert(current_score(*cur, wev@) * 10 < max_score(wev@) * 8);
        }
    }
    (trigger, besti)
}


fn new_binding(tab_id: u64, now_ms: i64) -> (r: RotationBinding)
    ensures
        is_default_binding(r, tab_id, now_ms),
{
    RotationBinding {
        tab_id,
        strategy: RotationStrategy::PerRequest(100),
        current: None,
        requests_since_rotation: 0,
        bound_since: now_ms,
        rotation_count: 0,
        cursor: 0,
        domain_map: Vec::new(),
    }
}

/// The per-tab rotation state machine. Every mutating entry point takes the
/// manager exclusively, so a decision and its commit are one atomic step:
/// two ticks for the same binding can never interleave.
pub struct ProxyRotationManager {
    pub bindings: Vec<RotationBinding>,
    pub rng: Lcg,
}

impl ProxyRotationManager {
    /// Binding tab ids are unique and every clock base is a real time.
    pub open spec fn wf(self) -> bool {
        &&& forall|i: int, j: int|
            0 <= i < j < self.bindings@.len() ==> (#[trigger] self.bindings@[i]).tab_id != (
            #[trigger] self.bindings@[j]).tab_id
        &&& forall|i: int| 0 <= i < self.bindings@.len() ==> (#[trigger] self.bindings@[i]).bound_since >= 0
    }

    /// An empty manager.
    pub fn new() -> (r: ProxyRotationManager)
        ensures
            r.wf(),
            r.bindings@.len() == 0,
    {
        let seed_wide = crate::runtime::unix_timestamp_ms();
        let seed: u64 = (seed_wide % 0x10000000000000000u128) as u64;
        ProxyRotationManager { bindings: Vec::new(), rng: Lcg::new(seed) }
    }

    fn find_binding(&self, tab_id: u64) -> (r: Option<usize>)
        ensures
            match r {
                Some(i) => i < self.bindings@.len() && self.bindings@[i as int].tab_id == tab_id
                    && forall|k: int|
                    0 <= k < i ==> (#[trigger] self.bindings@[k]).tab_id != tab_id,
                None => !bindings_contain(self.bindings@, tab_id),
            },
    {
        let mut i: usize = 0;
        let n = self.bindings.len();
        while i < n
            invariant
                n == self.bindings@.len(),
                i <= n,
                forall|k: int| 0 <= k < i ==> (#[trigger] self.bindings@[k]).tab_id != tab_id,
            decreases n - i,
        {
            if self.bindings[i].tab_id == tab_id {
                return Some(i);
            }
            i = i + 1;
        }
        None
    }

    /// One request attributed to a tab: evaluate the binding's strategy and
    /// possibly commit a rotation, in one atomic step.
    ///
    /// A tab seen for the first time gets a fresh binding first. On
    /// `NoAvailableProxy` the binding is left exactly as it was: the caller
    /// keeps its current proxy (or a direct connection) and is never
    /// blocked.
    pub fn tick(
        &mut self,
        tab_id: u64,
        pool: &ProxyManager,
        now_ms: i64,
        domain: Option<&str>,
    ) -> (r: Result<TickOutcome, CoreError>)
        requires
            old(self).wf(),
            pool.wf(),
            now_ms >= 0,
        ensures
            final(self).wf(),
            bindings_contain(old(self).bindings@, tab_id) ==> exists|i: int|
                {
                    &&& 0 <= i < old(self).bindings@.len()
                    &&& (#[trigger] old(self).bindings@[i]).tab_id == tab_id
                    &&& final(self).bindings@.len() == old(self).bindings@.len()
                    &&& (forall|j: int|
                        0 <= j < old(self).bindings@.len() && j != i ==> final(self).bindings@[j]
                            == (#[trigger] old(self).bindings@[j]))
                    &&& tick_rel(
                        old(self).bindings@[i],
                        final(self).bindings@[i],
                        pool.entries@,
                        now_ms,
                        spec_dom(domain),
                        r,
                    )
                },
            !bindings_contain(old(self).bindings@, tab_id) ==> {
                &&& final(self).bindings@.len() == old(self).bindings@.len() + 1
                &&& (forall|j: int|
                    0 <= j < old(self).bindings@.len() ==> final(self).bindings@[j] == (
                    #[trigger] old(self).bindings@[j]))
                &&& final(self).bindings@.last().tab_id == tab_id
                &&& exists|b0: RotationBinding|
                    #[trigger] is_default_binding(b0, tab_id, now_ms) && tick_rel(
                        b0,
                        final(self).bindings@.last(),
                        pool.entries@,
                        now_ms,
                        spec_dom(domain),
                        r,
                    )
            },
    {
        let ghost pre = self.bindings@;
        let bi = match self.find_binding(tab_id) {
            Some(i) => i,
            None => {
                self.bindings.push(new_binding(tab_id, now_ms));
                self.bindings.len() - 1
            },
        };
        let ghost mid = self.bindings@;
        let b0 = self.bindings.remove(bi);
        let ghost gb0 = b0;
        proof {
            mid.remove_ensures(bi as int);
        }
        let picked = tick_binding(b0, pool, now_ms, domain, &mut self.rng);
        let b1 = picked.0;
        let out = picked.1;
        self.bindings.insert(bi, b1);
        proof {
            assert(self.bindings@ =~= mid.update(bi as int, b1));
            assert forall|a: int, b: int|
                0 <= a < b < self.bindings@.len() implies (#[trigger] self.bindings@[a]).tab_id
                != (#[trigger] self.bindings@[b]).tab_id by {
                assert(self.bindings@[a].tab_id == mid[a].tab_id);
                assert(self.bindings@[b].tab_id == mid[b].tab_id);
                if bindings_contain(pre, tab_id) {
                } else {
                    assert(mid =~= pre.push(gb0));
                }
            }
            if !bindings_contain(pre, tab_id) {
                assert(mid =~= pre.push(gb0));
                assert(is_default_binding(gb0, tab_id, now_ms));
                assert(final(self).bindings@.last() == b1);
            }
        }
        out
    }

    /// Atomically replace a binding's strategy and reset its counters; a tab
    /// without a binding gets a fresh one carrying the strategy.
    pub fn update_rotation_strategy(
        &mut self,
        tab_id: u64,
        strategy: RotationStrategy,
        now_ms: i64,
    )
        requires
            old(self).wf(),
            now_ms >= 0,
        ensures
            final(self).wf(),
            bindings_contain(old(self).bindings@, tab_id) ==> exists|i: int|
                {
                    &&& 0 <= i < old(self).bindings@.len()
                    &&& (#[trigger] old(self).bindings@[i]).tab_id == tab_id
                    &&& final(self).bindings@ == old(self).bindings@.update(
                        i,
                        RotationBinding {
                            strategy: strategy,
                            requests_since_rotation: 0u64,
                            bound_since: now_ms,
                            cursor: 0usize,
                            ..old(self).bindings@[i]
                        },
                    )
                },
            !bindings_contain(old(self).bindings@, tab_id) ==> {
                &&& final(self).bindings@.len() == old(self).bindings@.len() + 1
                &&& (forall|j: int|
                    0 <= j < old(self).bindings@.len() ==> final(self).bindings@[j] == (
                    #[trigger] old(self).bindings@[j]))
                &&& final(self).bindings@.last() == RotationBinding {
                    tab_id,
                    strategy,
                    current: None,
                    requests_since_rotation: 0u64,
                    bound_since: now_ms,
                    rotation_count: 0u64,
                    cursor: 0usize,
                    domain_map: final(self).bindings@.last().domain_map,
                }
                &&& final(self).bindings@.last().domain_map@.len() == 0
            },
    {
        let ghost pre = self.bindings@;
        match self.find_binding(tab_id) {
            Some(i) => {
                let b0 = self.bindings.remove(i);
                proof {
                    pre.remove_ensures(i as int);
                }
                let b1 = RotationBinding {
                    strategy,
                    requests_since_rotation: 0,
                    bound_since: now_ms,
                    cursor: 0,
                    ..b0
                };
                self.bindings.insert(i, b1);
                proof {
                    assert(self.bindings@ =~= pre.update(i as int, b1));
                    assert forall|a: int, b: int|
                        0 <= a < b < self.bindings@.len() implies (#[trigger] self.bindings@[a]).tab_id != (
                    #[trigger] self.bindings@[b]).tab_id by {
                        assert(self.bindings@[a].tab_id == pre[a].tab_id);
                        assert(self.bindings@[b].tab_id == pre[b].tab_id);
                    }
                }
            },
            None => {
                let b1 = RotationBinding {
                    tab_id,
                    strategy,
                    current: None,
                    requests_since_rotation: 0,
                    bound_since: now_ms,
                    rotation_count: 0,
                    cursor: 0,
                    domain_map: Vec::new(),
                };
                self.bindings.push(b1);
            },
        }
    }

    /// A read-only snapshot of one binding; never mutates any state.
    pub fn get_session_stats(&self, tab_id: u64) -> (r: Option<ProxySessionStats>)
        ensures
            match r {
                Some(st) => exists|i: int|
                    {
                        &&& 0 <= i < self.bindings@.len()
                        &&& (#[trigger] self.bindings@[i]).tab_id == tab_id
                        &&& st.current_proxy == self.bindings@[i].current
                        &&& st.requests_since_rotation == self.bindings@[
                            i].requests_since_rotation
                        &&& st.bound_since == self.bindings@[i].bound_since
                        &&& st.rotation_count == self.bindings@[i].rotation_count
                    },
                None => !bindings_contain(self.bindings@, tab_id),
            },
    {
        match self.find_binding(tab_id) {
            Some(i) => {
                let b = &self.bindings[i];
                Some(
                    ProxySessionStats {
                        current_proxy: dup_opt(&b.current),
                        requests_since_rotation: b.requests_since_rotation,
                        bound_since: b.bound_since,
                        rotation_count: b.rotation_count,
                    },
                )
            },
            None => None,
        }
    }

    /// Explicit manual rotation for a tab: draw a working proxy other than
    /// the current one, commit it, and hand it back.
    pub fn rotate_now(&mut self, tab_id: u64, pool: &ProxyManager, now_ms: i64) -> (r: Result<
        FreeProxy,
        CoreError,
    >)
        requires
            old(self).wf(),
            pool.wf(),
            now_ms >= 0,
        ensures
            final(self).wf(),
            !bindings_contain(old(self).bindings@, tab_id) ==> r
                == Err::<FreeProxy, CoreError>(CoreError::TabNotFound) && final(self).bindings@
                == old(self).bindings@,
            bindings_contain(old(self).bindings@, tab_id) ==> exists|i: int|
                {
                    &&& 0 <= i < old(self).bindings@.len()
                    &&& (#[trigger] old(self).bindings@[i]).tab_id == tab_id
                    &&& {
                        let elig = exclude_key(
                            working_view(pool.entries@),
                            old(self).bindings@[i].current,
                        );
                        if elig.len() == 0 {
                            r == Err::<FreeProxy, CoreError>(CoreError::NoAvailableProxy) && final(self).bindings@ == old(self).bindings@
                        } else {
                            match r {
                                Ok(p) => {
                                    &&& elig.contains(p)
                                    &&& final(self).bindings@.len() == old(self).bindings@.len()
                                    &&& (forall|j: int|
                                        0 <= j < old(self).bindings@.len() && j != i ==> final(self).bindings@[j] == (#[trigger] old(self).bindings@[j]))
                                    &&& rotated_step(
                                        old(self).bindings@[i],
                                        final(self).bindings@[i],
                                        now_ms,
                                    )
                                    &&& final(self).bindings@[i].current == Some(p)
                                    &&& final(self).bindings@[i].cursor == old(self).bindings@[i].cursor
                                    &&& final(self).bindings@[i].domain_map == old(self).bindings@[i].domain_map
                                },
                                Err(_) => false,
                            }
                        }
                    }
                },
    {
        let ghost pre = self.bindings@;
        match self.find_binding(tab_id) {
            Some(i) => {
                let wv = working_proxies(pool);
                let b0 = self.bindings.remove(i);
                proof {
                    pre.remove_ensures(i as int);
                }
                let elig = exclude_current(&wv, &b0.current);
                if elig.len() == 0 {
                    self.bindings.insert(i, b0);
                    proof {
                        assert(self.bindings@ =~= pre);
                    }
                    Err(CoreError::NoAvailableProxy)
                } else {
                    let picked = commit_uniform(b0, &elig, now_ms, &mut self.rng);
                    let b1 = picked.0;
                    let p = match picked.1 {
                        Ok(o) => match o.current {
                            Some(p) => p,
                            None => {
                                proof {
                                    assert(false);
                                }
                                return Err(CoreError::NoAvailableProxy);
                            },
                        },
                        Err(_) => {
                            proof {
                                assert(false);
                            }
                            return Err(CoreError::NoAvailableProxy);
                        },
                    };
                    self.bindings.insert(i, b1);
                    proof {
                        assert(self.bindings@ =~= pre.update(i as int, b1));
                        assert forall|a: int, b: int|
                            0 <= a < b < self.bindings@.len() implies (#[trigger] self.bindings@[a]).tab_id != (
                        #[trigger] self.bindings@[b]).tab_id by {
                            assert(self.bindings@[a].tab_id == pre[a].tab_id);
                            assert(self.bindings@[b].tab_id == pre[b].tab_id);
                        }
                    }
                    Ok(p)
                }
            },
            None => Err(CoreError::TabNotFound),
        }
    }

    /// Drop the binding of a closed tab. Idempotent.
    pub fn remove_binding(&mut self, tab_id: u64)
        requires
            old(self).wf(),
        ensures
            final(self).wf(),
            !bindings_contain(final(self).bindings@, tab_id),
            !bindings_contain(old(self).bindings@, tab_id) ==> final(self).bindings@ == old(self).bindings@,
            bindings_contain(old(self).bindings@, tab_id) ==> exists|i: int|
                {
                    &&& 0 <= i < old(self).bindings@.len()
                    &&& (#[trigger] old(self).bindings@[i]).tab_id == tab_id
                    &&& final(self).bindings@ == old(self).bindings@.remove(i)
                },
    {
        let ghost pre = self.bindings@;
        match self.find_binding(tab_id) {
            Some(i) => {
                self.bindings.remove(i);
                proof {
                    pre.remove_ensures(i as int);
                    assert forall|j: int|
                        0 <= j < self.bindings@.len() implies (#[trigger] self.bindings@[j]).tab_id
                        != tab_id by {
                        let j0 = if j < i { j } else { j + 1 };
                        assert(self.bindings@[j] == pre[j0]);
                        if j0 != i {
                            assert(pre[j0].tab_id != pre[i as int].tab_id);
                        }
                    }
                    assert forall|a: int, b: int|
                        0 <= a < b < self.bindings@.len() implies (#[trigger] self.bindings@[a]).tab_id != (
                    #[trigger] self.bindings@[b]).tab_id by {
                        let a0 = if a < i { a } else { a + 1 };
                        let b0 = if b < i { b } else { b + 1 };
                        assert(self.bindings@[a] == pre[a0]);
                        assert(self.bindings@[b] == pre[b0]);
                    }
                    assert forall|j: int|
                        0 <= j < self.bindings@.len() implies (#[trigger] self.bindings@[j]).bound_since
                        >= 0 by {
                        let j0 = if j < i { j } else { j + 1 };
                        assert(self.bindings@[j] == pre[j0]);
                    }
                }
            },
            None => {},
        }
    }
}


/// Under `PerRequest(n)` with a candidate available, a tick rotates exactly
/// when it is the `n`-th request since the last rotation, and a rotation
/// resets the counter so the next one takes `n` requests again.
pub proof fn lemma_per_request_cadence(
    b0: RotationBinding,
    b1: RotationBinding,
    entries: Seq<PoolEntry>,
    now_ms: i64,
    domain: Option<Seq<char>>,
    r: Result<TickOutcome, CoreError>,
    n: u64,
)
    requires
        b0.strategy == RotationStrategy::PerRequest(n),
        exclude_key(working_view(entries), b0.current).len() > 0,
        tick_rel(b0, b1, entries, now_ms, domain, r),
    ensures
        r is Ok,
        (match r {
            Ok(o) => o.rotated,
            Err(_) => false,
        }) <==> b0.requests_since_rotation + 1 >= n,
        b0.requests_since_rotation + 1 >= n ==> b1.requests_since_rotation == 0,
        b0.requests_since_rotation + 1 < n ==> b1.requests_since_rotation
            == sat_inc(b0.requests_since_rotation),
{
}

/// Under `RoundRobin` with a non-empty working pool, a tick binds the proxy
/// at the cursor in stable pool order and advances the cursor by one, so
/// successive rotations visit the pool in order, wrapping around.
pub proof fn lemma_round_robin_order(
    b0: RotationBinding,
    b1: RotationBinding,
    entries: Seq<PoolEntry>,
    now_ms: i64,
    domain: Option<Seq<char>>,
    r: Result<TickOutcome, CoreError>,
)
    requires
        b0.strategy == RotationStrategy::RoundRobin,
        working_view(entries).len() > 0,
        tick_rel(b0, b1, entries, now_ms, domain, r),
    ensures
        r is Ok,
        b1.current == Some(
            working_view(entries)[(b0.cursor as int) % (working_view(entries).len() as int)],
        ),
        b1.cursor == (b0.cursor as int) % (working_view(entries).len() as int) + 1,
{
}

/// Under `DomainBased`, two consecutive ticks tagged with the same domain
/// against the same pool resolve to the same proxy: the mapping is stable
/// until the pool changes.
pub proof fn lemma_domain_mapping_stable(
    b0: RotationBinding,
    b1: RotationBinding,
    b2: RotationBinding,
    entries: Seq<PoolEntry>,
    t1: i64,
    t2: i64,
    d: Seq<char>,
    o1: TickOutcome,
    o2: TickOutcome,
)
    requires
        b0.strategy == RotationStrategy::DomainBased,
        tick_rel(b0, b1, entries, t1, Some(d), Ok(o1)),
        tick_rel(b1, b2, entries, t2, Some(d), Ok(o2)),
    ensures
        o2.current == o1.current,
{
    let wv = working_view(entries);
    let cached = dmap_lookup(b0.domain_map@, d);
    if cached is Some && key_in(wv, cached->0) {
        assert(b1.domain_map == b0.domain_map);
    } else {
        assert(wv.len() > 0);
        let idx = (domain_hash_spec(d, d.len() as int) as int) % (wv.len() as int);
        assert(dmap_lookup(b1.domain_map@, d) == Some(wv[idx]));
        assert(wv[idx].same_key(wv[idx]));
        assert(key_in(wv, wv[idx]));
    }
}

/// One tick commits at most one rotation, and a failed tick commits
/// nothing: the decision and the write are a single atomic step, so a
/// burst of ticks against one binding can never double-rotate.
pub proof fn lemma_tick_single_commit(
    b0: RotationBinding,
    b1: RotationBinding,
    entries: Seq<PoolEntry>,
    now_ms: i64,
    domain: Option<Seq<char>>,
    r: Result<TickOutcome, CoreError>,
)
    requires
        tick_rel(b0, b1, entries, now_ms, domain, r),
    ensures
        b1.rotation_count <= sat_inc(b0.rotation_count),
        b1.rotation_count >= b0.rotation_count,
        (match r {
            Ok(o) => !o.rotated,
            Err(_) => true,
        }) ==> b1.rotation_count == b0.rotation_count,
        r is Err ==> b1 == b0,
{
}

} // verus!
