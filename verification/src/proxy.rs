//! The proxy pool: known upstream proxies, their health metrics, and the
//! globally selected fallback proxy.

use vstd::prelude::*;
use vstd::string::StringExecFns;

use crate::generator::str_eq;

verus! {

/// Transport protocol of a proxy, or no proxy at all.
#[derive(Clone, Copy, Debug, PartialEq, Eq, Structural)]
pub enum ProxyType {
    Http,
    Https,
    Socks4,
    Socks5,
    Direct,
}

/// One known upstream proxy as advertised by a provider.
///
/// `speed` is the provider's advertised speed rank and `uptime_permille` its
/// advertised availability in tenths of a percent; `last_checked` is an epoch
/// second.
pub struct FreeProxy {
    pub ip: String,
    pub port: u16,
    pub proxy_type: ProxyType,
    pub country: String,
    pub country_code: String,
    pub anonymity: String,
    pub speed: u32,
    pub uptime_permille: u32,
    pub last_checked: u64,
    pub provider: String,
    pub is_working: bool,
}

impl FreeProxy {
    /// A field-for-field copy.
    pub fn duplicate(&self) -> (r: FreeProxy)
        ensures
            r == *self,
    {
        FreeProxy {
            ip: self.ip.clone(),
            port: self.port,
            proxy_type: self.proxy_type,
            country: self.country.clone(),
            country_code: self.country_code.clone(),
            anonymity: self.anonymity.clone(),
            speed: self.speed,
            uptime_permille: self.uptime_permille,
            last_checked: self.last_checked,
            provider: self.provider.clone(),
            is_working: self.is_working,
        }
    }

    /// Pool identity: two records with the same address and port are the
    /// same proxy.
    pub open spec fn same_key(self, other: FreeProxy) -> bool {
        self.ip@ == other.ip@ && self.port == other.port
    }
}

/// Health bookkeeping of one proxy, updated after every use or probe.
#[derive(Clone, Copy, Debug, PartialEq, Eq, Structural)]
pub struct ProxyMetrics {
    pub response_time_ms: u64,
    pub success_rate: u64,
    pub last_success: Option<u64>,
    pub consecutive_failures: u64,
    pub total_requests: u64,
    pub failed_requests: u64,
}

/// The success rate owed after `total` requests of which `failed` failed:
/// whole percent, rounded down; an untested proxy counts as fully healthy.
pub open spec fn rate_of(total: int, failed: int) -> int {
    if total == 0 {
        100
    } else {
        (total - failed) * 100 / total
    }
}

impl ProxyMetrics {
    /// Failures never outnumber requests and the rate is the one owed.
    pub open spec fn wf(self) -> bool {
        &&& self.failed_requests <= self.total_requests
        &&& self.success_rate == rate_of(
            self.total_requests as int,
            self.failed_requests as int,
        )
    }

    /// Fresh bookkeeping for a proxy that was never used.
    pub fn fresh() -> (r: ProxyMetrics)
        ensures
            r.wf(),
            r.total_requests == 0,
            r.failed_requests == 0,
            r.consecutive_failures == 0,
            r.success_rate == 100,
            r.last_success is None,
            r.response_time_ms == 0,
    {
        ProxyMetrics {
            response_time_ms: 0,
            success_rate: 100,
            last_success: None,
            consecutive_failures: 0,
            total_requests: 0,
            failed_requests: 0,
        }
    }
}

/// One pool entry: the proxy and its accumulated metrics.
pub struct PoolEntry {
    pub proxy: FreeProxy,
    pub metrics: ProxyMetrics,
}

impl PoolEntry {
    /// A field-for-field copy.
    pub fn duplicate(&self) -> (r: PoolEntry)
        ensures
            r == *self,
    {
        PoolEntry { proxy: self.proxy.duplicate(), metrics: self.metrics }
    }
}

/// Whether `s` still has an entry with `e`'s key carrying `e`'s metrics.
pub open spec fn entry_kept(e: PoolEntry, s: Seq<PoolEntry>) -> bool {
    exists|j: int|
        0 <= j < s.len() && (#[trigger] s[j]).proxy.same_key(e.proxy) && s[j].metrics == e.metrics
}

/// Whether some entry stores exactly the record `p`.
pub open spec fn proxy_stored(p: FreeProxy, s: Seq<PoolEntry>) -> bool {
    exists|i: int| 0 <= i < s.len() && (#[trigger] s[i]).proxy == p
}

/// Whether no later record in the batch shares the key of record `m`.
pub open spec fn no_later_proxy_key(items: Seq<FreeProxy>, m: int, k: int) -> bool {
    forall|j: int| m < j < k ==> !(#[trigger] items[j]).same_key(items[m])
}

/// Whether some entry carries the (address, port) key of `p`.
pub open spec fn pool_has_key(s: Seq<PoolEntry>, p: FreeProxy) -> bool {
    exists|i: int| 0 <= i < s.len() && (#[trigger] s[i]).proxy.same_key(p)
}

/// An entry survives dead-proxy sweeps while it is marked working and has
/// not failed too many times in a row.
pub open spec fn entry_alive(e: PoolEntry, threshold: int) -> bool {
    e.proxy.is_working && e.metrics.consecutive_failures <= threshold
}

/// How many consecutive failures a proxy may accumulate before a sweep
/// evicts it.
pub const DEAD_FAILURE_THRESHOLD: u64 = 3;

/// The outcome of one bounded probe through a candidate proxy, as the
/// collaborator that performed it reports it.
pub struct ProxyTestResult {
    pub is_working: bool,
    pub latency_ms: Option<u64>,
    pub detected_ip: Option<String>,
    pub error: Option<crate::errors::CoreError>,
}

/// Owner of the set of known proxies and of the globally selected fallback.
pub struct ProxyManager {
    pub entries: Vec<PoolEntry>,
    pub active: Option<FreeProxy>,
}

/// A pool snapshot is well formed when keys are unique and every entry's
/// metrics are well formed.
pub open spec fn snapshot_wf(s: Seq<PoolEntry>) -> bool {
    &&& forall|i: int, j: int|
        0 <= i < j < s.len() ==> !(#[trigger] s[i]).proxy.same_key((#[trigger] s[j]).proxy)
    &&& forall|i: int| 0 <= i < s.len() ==> (#[trigger] s[i]).metrics.wf()
}

impl ProxyManager {
    /// Keys are unique and every entry's metrics are well formed.
    pub open spec fn wf(self) -> bool {
        snapshot_wf(self.entries@)
    }

    /// An empty pool with no active proxy.
    pub fn new() -> (r: ProxyManager)
        ensures
            r.wf(),
            r.entries@.len() == 0,
            r.active is None,
    {
        ProxyManager { entries: Vec::new(), active: None }
    }

    /// Find the entry carrying the key of `p`.
    fn find_key(&self, p: &FreeProxy) -> (r: Option<usize>)
        ensures
            match r {
                Some(i) => i < self.entries@.len() && self.entries@[i as int].proxy.same_key(*p),
                None => !pool_has_key(self.entries@, *p),
            },
    {
        let mut i: usize = 0;
        let n = self.entries.len();
        while i < n
            invariant
                n == self.entries@.len(),
                i <= n,
                forall|j: int| 0 <= j < i ==> !(#[trigger] self.entries@[j]).proxy.same_key(*p),
            decreases n - i,
        {
            let e = &self.entries[i];
            if str_eq(e.proxy.ip.as_str(), p.ip.as_str()) && e.proxy.port == p.port {
                return Some(i);
            }
            i = i + 1;
        }
        None
    }

    /// Merge fetched records into the pool, de-duplicated by (address, port).
    ///
    /// A record whose key is already present refreshes the stored record but
    /// keeps the accumulated metrics; a new key is appended with fresh
    /// metrics. No entry is ever dropped by a merge.
    pub fn add_proxies(&mut self, records: Vec<FreeProxy>)
        requires
            old(self).wf(),
        ensures
            final(self).wf(),
            final(self).active == old(self).active,
            final(self).entries@.len() >= old(self).entries@.len(),
            // every previously known key is still known, with its metrics kept
            forall|i: int|
                0 <= i < old(self).entries@.len() ==> entry_kept(
                    #[trigger] old(self).entries@[i],
                    final(self).entries@,
                ),
            // every merged record's key is present afterwards
            forall|k: int|
                0 <= k < records@.len() ==> pool_has_key(
                    final(self).entries@,
                    #[trigger] records@[k],
                ),
            // the last record merged under each key is stored verbatim
            forall|k: int|
                0 <= k < records@.len() && no_later_proxy_key(records@, k, records@.len() as int)
                    ==> proxy_stored(#[trigger] records@[k], final(self).entries@),
    {
        let n = records.len();
        let mut k: usize = 0;
        let mut records = records;
        proof {
            assert forall|i: int| 0 <= i < self.entries@.len() implies entry_kept(
                #[trigger] old(self).entries@[i],
                self.entries@,
            ) by {
                assert(self.entries@[i].proxy.same_key(old(self).entries@[i].proxy));
            }
        }
        while k < n
            invariant
                old(self).wf(),
                self.wf(),
                self.active == old(self).active,
                n == records@.len(),
                k <= n,
                self.entries@.len() >= old(self).entries@.len(),
                forall|i: int|
                    0 <= i < old(self).entries@.len() ==> entry_kept(
                        #[trigger] old(self).entries@[i],
                        self.entries@,
                    ),
                forall|m: int|
                    0 <= m < k ==> pool_has_key(self.entries@, #[trigger] records@[m]),
                forall|m: int|
                    0 <= m < k && no_later_proxy_key(records@, m, k as int) ==> proxy_stored(
                        #[trigger] records@[m],
                        self.entries@,
                    ),
            decreases n - k,
        {
            let ghost pre = self.entries@;
            let rec = records[k].duplicate();
            match self.find_key(&rec) {
                Some(i) => {
                    // refresh the record, keep the metrics
                    let kept = self.entries[i].metrics;
                    let old_e = self.entries.remove(i);
                    proof {
                        pre.remove_ensures(i as int);
                    }
                    let new_e = PoolEntry { proxy: rec, metrics: kept };
                    self.entries.insert(i, new_e);
                    proof {
                        assert(self.entries@ =~= pre.update(i as int, new_e));
                        assert(self.entries@[i as int].proxy.same_key(records@[k as int]));
                        assert forall|a: int, b: int|
                            0 <= a < b < self.entries@.len() implies !(#[trigger] self.entries@[a]).proxy.same_key(
                                (#[trigger] self.entries@[b]).proxy,
                            ) by {
                            assert(pre[a].proxy.same_key(self.entries@[a].proxy));
                            assert(pre[b].proxy.same_key(self.entries@[b].proxy));
                            assert(!pre[a].proxy.same_key(pre[b].proxy));
                        }
                        assert forall|i0: int| 0 <= i0 < old(self).entries@.len() implies entry_kept(
                            #[trigger] old(self).entries@[i0],
                            self.entries@,
                        ) by {
                            assert(entry_kept(old(self).entries@[i0], pre));
                            let j0 = choose|j0: int|
                                0 <= j0 < pre.len() && (#[trigger] pre[j0]).proxy.same_key(
                                    old(self).entries@[i0].proxy,
                                ) && pre[j0].metrics == old(self).entries@[i0].metrics;
                            assert(self.entries@[j0].proxy.same_key(
                                old(self).entries@[i0].proxy,
                            ));
                            assert(self.entries@[j0].metrics == old(self).entries@[i0].metrics);
                        }
                        assert forall|m: int| 0 <= m < k + 1 implies pool_has_key(
                            self.entries@,
                            #[trigger] records@[m],
                        ) by {
                            if m < k {
                                let j0 = choose|j0: int|
                                    0 <= j0 < pre.len() && (#[trigger] pre[j0]).proxy.same_key(
                                        records@[m],
                                    );
                                assert(self.entries@[j0].proxy.same_key(records@[m]));
                            }
                        }
                        assert(self.entries@[i as int].proxy == records@[k as int]);
                        assert forall|m: int|
                            0 <= m < k + 1 && no_later_proxy_key(records@, m, k as int + 1)
                                implies proxy_stored(#[trigger] records@[m], self.entries@) by {
                            if m == k {
                                assert(proxy_stored(records@[k as int], self.entries@));
                            } else {
                                assert(!records@[k as int].same_key(records@[m]));
                                assert(no_later_proxy_key(records@, m, k as int));
                                assert(proxy_stored(records@[m], pre));
                                let j0 = choose|j0: int|
                                    0 <= j0 < pre.len() && (#[trigger] pre[j0]).proxy
                                        == records@[m];
                                assert(!pre[j0].proxy.same_key(rec));
                                assert(j0 != i);
                                assert(self.entries@[j0] == pre[j0]);
                                assert(proxy_stored(records@[m], self.entries@));
                            }
                        }
                    }
                },
                None => {
                    let new_e = PoolEntry { proxy: rec, metrics: ProxyMetrics::fresh() };
                    self.entries.push(new_e);
                    proof {
                        assert(self.entries@ =~= pre.push(new_e));
                        assert(self.entries@[pre.len() as int].proxy.same_key(records@[k as int]));
                        assert forall|i0: int| 0 <= i0 < old(self).entries@.len() implies entry_kept(
                            #[trigger] old(self).entries@[i0],
                            self.entries@,
                        ) by {
                            assert(entry_kept(old(self).entries@[i0], pre));
                            let j0 = choose|j0: int|
                                0 <= j0 < pre.len() && (#[trigger] pre[j0]).proxy.same_key(
                                    old(self).entries@[i0].proxy,
                                ) && pre[j0].metrics == old(self).entries@[i0].metrics;
                            assert(self.entries@[j0].proxy.same_key(
                                old(self).entries@[i0].proxy,
                            ));
                            assert(self.entries@[j0].metrics == old(self).entries@[i0].metrics);
                        }
                        assert forall|m: int| 0 <= m < k + 1 implies pool_has_key(
                            self.entries@,
                            #[trigger] records@[m],
                        ) by {
                            if m < k {
                                let j0 = choose|j0: int|
                                    0 <= j0 < pre.len() && (#[trigger] pre[j0]).proxy.same_key(
                                        records@[m],
                                    );
                                assert(self.entries@[j0].proxy.same_key(records@[m]));
                            }
                        }
                        assert(self.entries@[pre.len() as int].proxy == records@[k as int]);
                        assert forall|m: int|
                            0 <= m < k + 1 && no_later_proxy_key(records@, m, k as int + 1)
                                implies proxy_stored(#[trigger] records@[m], self.entries@) by {
                            if m == k {
                                assert(proxy_stored(records@[k as int], self.entries@));
                            } else {
                                assert(no_later_proxy_key(records@, m, k as int));
                                assert(proxy_stored(records@[m], pre));
                                let j0 = choose|j0: int|
                                    0 <= j0 < pre.len() && (#[trigger] pre[j0]).proxy
                                        == records@[m];
                                assert(self.entries@[j0] == pre[j0]);
                                assert(proxy_stored(records@[m], self.entries@));
                            }
                        }
                    }
                },
            }
            k = k + 1;
        }
    }

    /// A snapshot of every known proxy, in pool order.
    pub fn get_free_proxies(&self) -> (r: Vec<FreeProxy>)
        ensures
            r@.len() == self.entries@.len(),
            forall|i: int| 0 <= i < r@.len() ==> #[trigger] r@[i] == self.entries@[i].proxy,
    {
        let mut out: Vec<FreeProxy> = Vec::new();
        let mut i: usize = 0;
        let n = self.entries.len();
        while i < n
            invariant
                n == self.entries@.len(),
                i <= n,
                out@.len() == i,
                forall|j: int| 0 <= j < i ==> #[trigger] out@[j] == self.entries@[j].proxy,
            decreases n - i,
        {
            out.push(self.entries[i].proxy.duplicate());
            i = i + 1;
        }
        out
    }

    /// The globally selected fallback proxy, if any.
    pub fn get_active_proxy(&self) -> (r: Option<FreeProxy>)
        ensures
            match r {
                Some(p) => self.active == Some(p),
                None => self.active is None,
            },
    {
        match &self.active {
            Some(p) => Some(p.duplicate()),
            None => None,
        }
    }

    /// Select (or clear) the global fallback proxy.
    pub fn set_active_proxy(&mut self, proxy: Option<FreeProxy>)
        requires
            old(self).wf(),
        ensures
            final(self).wf(),
            final(self).active == proxy,
            final(self).entries@ == old(self).entries@,
    {
        self.active = proxy;
    }

    /// Drop every known proxy; the fallback selection stays.
    pub fn clear_proxies(&mut self)
        ensures
            final(self).wf(),
            final(self).entries@.len() == 0,
            final(self).active == old(self).active,
    {
        self.entries.clear();
    }

    /// Evict every entry that is marked not working or has failed more than
    /// the threshold in a row; keep everything else in order.
    pub fn remove_dead_proxies(&mut self)
        requires
            old(self).wf(),
        ensures
            final(self).wf(),
            final(self).active == old(self).active,
            final(self).entries@ == old(self).entries@.filter(
                |e: PoolEntry| entry_alive(e, DEAD_FAILURE_THRESHOLD as int),
            ),
    {
        let ghost pre = self.entries@;
        let mut out: Vec<PoolEntry> = Vec::new();
        let mut i: usize = 0;
        let n = self.entries.len();
        while i < n
            invariant
                old(self).wf(),
                pre == old(self).entries@,
                self.entries@ == pre,
                n == pre.len(),
                i <= n,
                out@ == pre.subrange(0, i as int).filter(
                    |e: PoolEntry| entry_alive(e, DEAD_FAILURE_THRESHOLD as int),
                ),
                forall|a: int|
                    0 <= a < out@.len() ==> exists|b: int|
                        0 <= b < i && #[trigger] out@[a] == pre[b],
                forall|a: int, b: int|
                    0 <= a < b < out@.len() ==> !(#[trigger] out@[a]).proxy.same_key(
                        (#[trigger] out@[b]).proxy,
                    ),
            decreases n - i,
        {
            let e = &self.entries[i];
            let alive = e.proxy.is_working && e.metrics.consecutive_failures
                <= DEAD_FAILURE_THRESHOLD;
            if alive {
                out.push(e.duplicate());
            }
            proof {
                let f = |e: PoolEntry| entry_alive(e, DEAD_FAILURE_THRESHOLD as int);
                let s1 = pre.subrange(0, i as int + 1);
                assert(s1.drop_last() =~= pre.subrange(0, i as int));
                assert(s1.last() == pre[i as int]);
                reveal_with_fuel(Seq::filter, 2);
                if f(pre[i as int]) {
                    assert(s1.filter(f) == pre.subrange(0, i as int).filter(f).push(
                        pre[i as int],
                    ));
                } else {
                    assert(s1.filter(f) == pre.subrange(0, i as int).filter(f));
                }
            }
            i = i + 1;
        }
        proof {
            assert(pre.subrange(0, n as int) =~= pre);
        }
        self.entries = out;
    }

    /// Record the outcome of one probe through the proxy with `p`'s key.
    ///
    /// On success the latency is stored, the failure streak resets and the
    /// proxy is marked working; on failure the streak grows and the proxy is
    /// marked not working. The request counters and the success rate follow
    /// [`metrics_after`] exactly. Returns whether the key was known.
    pub fn apply_test_result(
        &mut self,
        p: &FreeProxy,
        success: bool,
        latency_ms: u64,
        now: u64,
    ) -> (r: bool)
        requires
            old(self).wf(),
        ensures
            final(self).wf(),
            final(self).active == old(self).active,
            r == pool_has_key(old(self).entries@, *p),
            !r ==> final(self).entries@ == old(self).entries@,
            r ==> exists|i: int|
                {
                    &&& 0 <= i < old(self).entries@.len()
                    &&& (#[trigger] old(self).entries@[i]).proxy.same_key(*p)
                    &&& final(self).entries@ == old(self).entries@.update(
                        i,
                        PoolEntry {
                            proxy: FreeProxy {
                                is_working: success,
                                last_checked: now,
                                ..old(self).entries@[i].proxy
                            },
                            metrics: metrics_after(
                                old(self).entries@[i].metrics,
                                success,
                                latency_ms,
                                now,
                            ),
                        },
                    )
                },
    {
        let ghost pre = self.entries@;
        match self.find_key(p) {
            Some(i) => {
                let old_e = self.entries.remove(i);
                proof {
                    pre.remove_ensures(i as int);
                }
                let m = old_e.metrics;
                let total = sat_inc_exec(m.total_requests);
                let failed = if success {
                    m.failed_requests
                } else {
                    sat_inc_exec(m.failed_requests)
                };
                let rate_wide: u128 = ((total - failed) as u128) * 100 / (total as u128);
                proof {
                    assert((total - failed) * 100 / (total as int) <= 100) by (nonlinear_arith)
                        requires
                            0 < total <= 0xFFFFFFFFFFFFFFFFu64,
                            0 <= failed <= total,
                    ;
                }
                let new_metrics = ProxyMetrics {
                    response_time_ms: if success {
                        latency_ms
                    } else {
                        m.response_time_ms
                    },
                    success_rate: rate_wide as u64,
                    last_success: if success {
                        Some(now)
                    } else {
                        m.last_success
                    },
                    consecutive_failures: if success {
                        0
                    } else {
                        sat_inc_exec(m.consecutive_failures)
                    },
                    total_requests: total,
                    failed_requests: failed,
                };
                let new_e = PoolEntry {
                    proxy: FreeProxy {
                        is_working: success,
                        last_checked: now,
                        ..old_e.proxy
                    },
                    metrics: new_metrics,
                };
                self.entries.insert(i, new_e);
                proof {
                    assert(new_metrics == metrics_after(m, success, latency_ms, now));
                    assert(self.entries@ =~= pre.update(i as int, new_e));
                    assert(pre[i as int].proxy.same_key(*p));
                    assert forall|a: int, b: int|
                        0 <= a < b < self.entries@.len() implies !(#[trigger] self.entries@[a]).proxy.same_key(
                            (#[trigger] self.entries@[b]).proxy,
                        ) by {
                        assert(pre[a].proxy.same_key(self.entries@[a].proxy));
                        assert(pre[b].proxy.same_key(self.entries@[b].proxy));
                        assert(!pre[a].proxy.same_key(pre[b].proxy));
                    }
                }
                true
            },
            None => false,
        }
    }

    /// A snapshot of the whole pool: every proxy with its accumulated
    /// metrics, in pool order.
    pub fn export_pool(&self) -> (r: Vec<PoolEntry>)
        ensures
            r@ == self.entries@,
    {
        let mut out: Vec<PoolEntry> = Vec::new();
        let mut i: usize = 0;
        let n = self.entries.len();
        while i < n
            invariant
                n == self.entries@.len(),
                i <= n,
                out@ == self.entries@.subrange(0, i as int),
            decreases n - i,
        {
            out.push(self.entries[i].duplicate());
            proof {
                assert(out@ =~= self.entries@.subrange(0, i as int + 1));
            }
            i = i + 1;
        }
        proof {
            assert(out@ =~= self.entries@);
        }
        out
    }

    /// Replace the pool with an imported snapshot.
    ///
    /// Entries with malformed metrics and entries whose key was already seen
    /// are dropped, exactly as [`import_spec`] describes; a snapshot that
    /// came out of [`ProxyManager::export_pool`] on a well-formed pool is
    /// taken over unchanged (see [`lemma_pool_round_trip`]).
    pub fn import_pool(&mut self, snapshot: Vec<PoolEntry>)
        ensures
            final(self).wf(),
            final(self).active == old(self).active,
            final(self).entries@ == import_spec(snapshot@),
    {
        let ghost input = snapshot@;
        let mut out: Vec<PoolEntry> = Vec::new();
        let mut i: usize = 0;
        let n = snapshot.len();
        while i < n
            invariant
                n == input.len(),
                input == snapshot@,
                i <= n,
                out@ == import_spec(input.subrange(0, i as int)),
                snapshot_wf(out@),
            decreases n - i,
        {
            let e = &snapshot[i];
            let total = e.metrics.total_requests;
            let failed = e.metrics.failed_requests;
            let rate_ok = if failed <= total {
                let rate_wide: u128 = if total == 0 {
                    100
                } else {
                    ((total - failed) as u128) * 100 / (total as u128)
                };
                e.metrics.success_rate as u128 == rate_wide
            } else {
                false
            };
            let keep = rate_ok && !vec_has_key(&out, &e.proxy);
            if keep {
                out.push(e.duplicate());
            }
            proof {
                let s1 = input.subrange(0, i as int + 1);
                assert(s1.drop_last() =~= input.subrange(0, i as int));
                assert(s1.last() == input[i as int]);
                let prefix = import_spec(input.subrange(0, i as int));
                if keep {
                    assert(import_spec(s1) == prefix.push(input[i as int]));
                    assert forall|a: int, b: int|
                        0 <= a < b < out@.len() implies !(#[trigger] out@[a]).proxy.same_key(
                            (#[trigger] out@[b]).proxy,
                        ) by {
                        if b < out@.len() - 1 {
                        } else {
                            assert(!pool_has_key(prefix, input[i as int].proxy));
                            assert(!prefix[a].proxy.same_key(input[i as int].proxy));
                        }
                    }
                } else {
                    assert(import_spec(s1) == prefix);
                }
            }
            i = i + 1;
        }
        proof {
            assert(input.subrange(0, n as int) =~= input);
        }
        self.entries = out;
    }
}

/// Saturating increment.
pub open spec fn sat_inc(x: u64) -> u64 {
    if x == 0xFFFFFFFFFFFFFFFFu64 {
        x
    } else {
        (x + 1) as u64
    }
}

pub(crate) fn sat_inc_exec(x: u64) -> (r: u64)
    ensures
        r == sat_inc(x),
        r >= x,
{
    if x == 0xFFFFFFFFFFFFFFFFu64 {
        x
    } else {
        x + 1
    }
}

/// The metrics owed after one more probe or use: counters grow (saturating),
/// the success rate is recomputed, the latency and the failure streak follow
/// the outcome.
pub open spec fn metrics_after(m: ProxyMetrics, success: bool, latency_ms: u64, now: u64) -> ProxyMetrics {
    let total = sat_inc(m.total_requests);
    let failed = if success {
        m.failed_requests
    } else {
        sat_inc(m.failed_requests)
    };
    ProxyMetrics {
        response_time_ms: if success {
            latency_ms
        } else {
            m.response_time_ms
        },
        success_rate: (rate_of(total as int, failed as int)) as u64,
        last_success: if success {
            Some(now)
        } else {
            m.last_success
        },
        consecutive_failures: if success {
            0
        } else {
            sat_inc(m.consecutive_failures)
        },
        total_requests: total,
        failed_requests: failed,
    }
}

/// What importing a snapshot keeps: entries in order, dropping one whose
/// metrics are malformed or whose key was already kept.
pub open spec fn import_spec(s: Seq<PoolEntry>) -> Seq<PoolEntry>
    decreases s.len(),
{
    if s.len() == 0 {
        s
    } else {
        let prefix = import_spec(s.drop_last());
        let e = s.last();
        if e.metrics.wf() && !pool_has_key(prefix, e.proxy) {
            prefix.push(e)
        } else {
            prefix
        }
    }
}

/// Whether `v` holds an entry with `p`'s key.
fn vec_has_key(v: &Vec<PoolEntry>, p: &FreeProxy) -> (r: bool)
    ensures
        r == pool_has_key(v@, *p),
{
    let mut i: usize = 0;
    let n = v.len();
    while i < n
        invariant
            n == v@.len(),
            i <= n,
            forall|j: int| 0 <= j < i ==> !(#[trigger] v@[j]).proxy.same_key(*p),
        decreases n - i,
    {
        let e = &v[i];
        if crate::generator::str_eq(e.proxy.ip.as_str(), p.ip.as_str()) && e.proxy.port == p.port {
            return true;
        }
        i = i + 1;
    }
    false
}

/// Round trip: a snapshot of a well-formed pool — unique keys, well-formed
/// metrics, as every export of a well-formed pool is — re-imports to exactly
/// the same entries, every proxy record and its accumulated metrics included.
pub proof fn lemma_pool_round_trip(s: Seq<PoolEntry>)
    requires
        snapshot_wf(s),
    ensures
        import_spec(s) == s,
    decreases s.len(),
{
    if s.len() > 0 {
        assert(snapshot_wf(s.drop_last()));
        lemma_pool_round_trip(s.drop_last());
        assert(!pool_has_key(s.drop_last(), s.last().proxy)) by {
            if pool_has_key(s.drop_last(), s.last().proxy) {
                let j = choose|j: int|
                    0 <= j < s.drop_last().len() && (#[trigger] s.drop_last()[j]).proxy.same_key(
                        s.last().proxy,
                    );
                assert(s[j].proxy.same_key(s[s.len() - 1].proxy));
                assert(false);
            }
        }
        assert(s.last().metrics.wf());
        assert(import_spec(s) == s.drop_last().push(s.last()));
        assert(s.drop_last().push(s.last()) =~= s);
    }
}

} // verus!
