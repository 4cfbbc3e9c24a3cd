//! Efficiency utilities: buffer pooling, CPU sizing, performance counters,
//! an LRU cache and a batch collector.

use vstd::prelude::*;
use vstd::string::StringExecFns;

use crate::generator::str_eq;

verus! {

/// Saturating increment of a usize counter.
pub open spec fn sat_usize(x: usize) -> usize {
    if x == usize::MAX {
        x
    } else {
        (x + 1) as usize
    }
}

fn sat_usize_exec(x: usize) -> (r: usize)
    ensures
        r == sat_usize(x),
{
    if x == usize::MAX {
        x
    } else {
        x + 1
    }
}

/// Counters of pool traffic: fresh allocations, reuses out of the pool, and
/// buffers taken back.
pub struct PoolStats {
    pub allocations: usize,
    pub reuses: usize,
    pub deallocations: usize,
}

impl PoolStats {
    pub fn new() -> (r: PoolStats)
        ensures
            r.allocations == 0,
            r.reuses == 0,
            r.deallocations == 0,
    {
        PoolStats { allocations: 0, reuses: 0, deallocations: 0 }
    }
}

/// A pool of reusable byte buffers in a few fixed size classes.
pub struct MemoryPool {
    pub pools: Vec<Vec<Vec<u8>>>,
    pub pool_sizes: Vec<usize>,
    pub stats: PoolStats,
}

/// The fixed size classes: 1 KiB up to 1 MiB.
pub open spec fn standard_sizes() -> Seq<usize> {
    seq![1024usize, 4096usize, 16384usize, 65536usize, 262144usize, 1048576usize]
}

/// The index of the smallest size class that fits `min_size`, or -1 when
/// the request is larger than every class.
pub open spec fn class_index(min_size: int) -> int {
    if min_size <= 1024 {
        0
    } else if min_size <= 4096 {
        1
    } else if min_size <= 16384 {
        2
    } else if min_size <= 65536 {
        3
    } else if min_size <= 262144 {
        4
    } else if min_size <= 1048576 {
        5
    } else {
        -1
    }
}

/// The length a pool hands out for `min_size`: its size class, or the
/// request itself above the largest class.
pub open spec fn acquired_len(min_size: int) -> int {
    if class_index(min_size) >= 0 {
        standard_sizes()[class_index(min_size)] as int
    } else {
        min_size
    }
}

impl MemoryPool {
    /// One bucket per size class, and every pooled buffer has exactly its
    /// bucket's size, so a reused buffer is never shorter than a fresh one.
    pub open spec fn wf(self) -> bool {
        &&& self.pool_sizes@ == standard_sizes()
        &&& self.pools@.len() == self.pool_sizes@.len()
        &&& forall|i: int, j: int|
            0 <= i < self.pools@.len() && 0 <= j < self.pools@[i].len()
                ==> (#[trigger] self.pools@[i][j])@.len() == self.pool_sizes@[i]
    }

    /// An empty pool over the standard size classes.
    pub fn new() -> (r: MemoryPool)
        ensures
            r.wf(),
            forall|i: int| 0 <= i < r.pools@.len() ==> (#[trigger] r.pools@[i])@.len() == 0,
            r.stats.allocations == 0,
            r.stats.reuses == 0,
            r.stats.deallocations == 0,
    {
        let mut pool_sizes: Vec<usize> = Vec::new();
        pool_sizes.push(1024);
        pool_sizes.push(4096);
        pool_sizes.push(16384);
        pool_sizes.push(65536);
        pool_sizes.push(262144);
        pool_sizes.push(1048576);
        let mut pools: Vec<Vec<Vec<u8>>> = Vec::new();
        let mut i: usize = 0;
        while i < 6
            invariant
                i <= 6,
                pools@.len() == i,
                forall|a: int| 0 <= a < i ==> (#[trigger] pools@[a]).len() == 0,
            decreases 6 - i,
        {
            pools.push(Vec::new());
            i = i + 1;
        }
        proof {
            assert(pool_sizes@ =~= standard_sizes());
        }
        MemoryPool { pools, pool_sizes, stats: PoolStats::new() }
    }

    fn find_pool_index(&self, size: usize) -> (r: Option<usize>)
        requires
            self.wf(),
        ensures
            match r {
                Some(i) => i < self.pool_sizes@.len() && self.pool_sizes@[i as int] >= size
                    && forall|j: int| 0 <= j < i ==> (#[trigger] self.pool_sizes@[j]) < size,
                None => forall|j: int|
                    0 <= j < self.pool_sizes@.len() ==> (#[trigger] self.pool_sizes@[j]) < size,
            },
    {
        let mut i: usize = 0;
        let n = self.pool_sizes.len();
        while i < n
            invariant
                self.wf(),
                n == self.pool_sizes@.len(),
                i <= n,
                forall|j: int| 0 <= j < i ==> (#[trigger] self.pool_sizes@[j]) < size,
            decreases n - i,
        {
            if self.pool_sizes[i] >= size {
                return Some(i);
            }
            i = i + 1;
        }
        None
    }

    /// Hand out a buffer of exactly the matching size class (or `min_size`
    /// itself above the largest class), reusing a pooled one when its size
    /// class has any and allocating a zeroed one otherwise.
    pub fn acquire(&mut self, min_size: usize) -> (r: Vec<u8>)
        requires
            old(self).wf(),
        ensures
            final(self).wf(),
            r@.len() >= min_size,
            r@.len() == acquired_len(min_size as int),
            // a freshly allocated buffer is zeroed
            (class_index(min_size as int) < 0 || old(self).pools@[class_index(
                min_size as int,
            )]@.len() == 0) ==> forall|k: int| 0 <= k < r@.len() ==> r@[k] == 0,
            // a reused buffer is the most recently pooled one of its class
            (class_index(min_size as int) >= 0 && old(self).pools@[class_index(
                min_size as int,
            )]@.len() > 0) ==> r == old(self).pools@[class_index(min_size as int)]@.last(),
    {
        proof {
            assert(old(self).pool_sizes@ == standard_sizes());
        }
        let idx = self.find_pool_index(min_size);
        match idx {
            Some(i) => {
                if self.pools[i].len() > 0 {
                    let bucket_len = self.pools[i].len();
                    let ghost pools0 = self.pools@;
                    let mut bucket = self.pools.remove(i);
                    let buf = match bucket.pop() {
                        Some(b) => b,
                        None => Vec::new(),
                    };
                    self.pools.insert(i, bucket);
                    self.stats.reuses = sat_usize_exec(self.stats.reuses);
                    proof {
                        assert(self.pools@ =~= pools0.update(i as int, self.pools@[i as int]));
                        assert(buf == pools0[i as int][bucket_len - 1]);
                        assert forall|a: int, j: int|
                            0 <= a < self.pools@.len() && 0 <= j < self.pools@[a].len() implies (
                        #[trigger] self.pools@[a][j])@.len() == self.pool_sizes@[a] by {
                            if a == i {
                                assert(self.pools@[a][j] == pools0[a][j]);
                            }
                        }
                    }
                    return buf;
                }
                self.stats.allocations = sat_usize_exec(self.stats.allocations);
                zero_buffer(self.pool_sizes[i])
            },
            None => {
                self.stats.allocations = sat_usize_exec(self.stats.allocations);
                zero_buffer(min_size)
            },
        }
    }

    /// Take a buffer back. Only a buffer whose length is exactly one of the
    /// size classes is pooled (anything else is dropped), and a bucket keeps
    /// at most 100 buffers so the pool cannot grow without bound.
    pub fn release(&mut self, buffer: Vec<u8>)
        requires
            old(self).wf(),
        ensures
            final(self).wf(),
            final(self).pool_sizes@ == old(self).pool_sizes@,
            (exists|i: int|
                0 <= i < old(self).pool_sizes@.len() && (#[trigger] old(self).pool_sizes@[i])
                    == buffer@.len() && old(self).pools@[i]@.len() < 100) ==> exists|i: int|
                {
                    &&& 0 <= i < old(self).pool_sizes@.len()
                    &&& (#[trigger] old(self).pool_sizes@[i]) == buffer@.len()
                    &&& final(self).pools@[i]@ == old(self).pools@[i]@.push(buffer)
                    &&& (forall|j: int|
                        0 <= j < old(self).pools@.len() && j != i ==> final(self).pools@[j] == (
                        #[trigger] old(self).pools@[j]))
                },
            !(exists|i: int|
                0 <= i < old(self).pool_sizes@.len() && (#[trigger] old(self).pool_sizes@[i])
                    == buffer@.len() && old(self).pools@[i]@.len() < 100) ==> final(self).pools@
                == old(self).pools@,
    {
        proof {
            assert(old(self).pool_sizes@ == standard_sizes());
        }
        let size = buffer.len();
        let idx = self.find_pool_index(size);
        match idx {
            Some(i) => {
                if self.pool_sizes[i] == size && self.pools[i].len() < 100 {
                    let ghost pools0 = self.pools@;
                    let mut bucket = self.pools.remove(i);
                    bucket.push(buffer);
                    self.pools.insert(i, bucket);
                    self.stats.deallocations = sat_usize_exec(self.stats.deallocations);
                    proof {
                        assert(self.pools@ =~= pools0.update(i as int, self.pools@[i as int]));
                        assert forall|a: int, j: int|
                            0 <= a < self.pools@.len() && 0 <= j < self.pools@[a].len() implies (
                        #[trigger] self.pools@[a][j])@.len() == self.pool_sizes@[a] by {
                            if a == i {
                                if j < self.pools@[a].len() - 1 {
                                    assert(self.pools@[a][j] == pools0[a][j]);
                                }
                            }
                        }
                    }
                }
            },
            None => {},
        }
    }

    /// The traffic counters: allocations, reuses, returns.
    pub fn get_stats(&self) -> (r: (usize, usize, usize))
        ensures
            r.0 == self.stats.allocations,
            r.1 == self.stats.reuses,
            r.2 == self.stats.deallocations,
    {
        (self.stats.allocations, self.stats.reuses, self.stats.deallocations)
    }
}

fn zero_buffer(size: usize) -> (r: Vec<u8>)
    ensures
        r@.len() == size,
        forall|k: int| 0 <= k < size ==> r@[k] == 0,
{
    let mut out: Vec<u8> = Vec::new();
    let mut i: usize = 0;
    while i < size
        invariant
            i <= size,
            out@.len() == i,
            forall|k: int| 0 <= k < i ==> out@[k] == 0,
        decreases size - i,
    {
        out.push(0);
        i = i + 1;
    }
    out
}

/// Buffer handling for network reads and writes, capped at a maximum size.
pub struct BufferManager {
    pub pool: MemoryPool,
    pub max_buffer_size: usize,
}

impl BufferManager {
    pub open spec fn wf(self) -> bool {
        self.pool.wf()
    }

    pub fn new(max_buffer_size: usize) -> (r: BufferManager)
        ensures
            r.wf(),
            r.max_buffer_size == max_buffer_size,
            forall|i: int| 0 <= i < r.pool.pools@.len() ==> (#[trigger] r.pool.pools@[i])@.len()
                == 0,
    {
        BufferManager { pool: MemoryPool::new(), max_buffer_size }
    }

    /// A buffer for reading: at least the expected size, capped at the
    /// configured maximum.
    pub fn get_read_buffer(&mut self, expected_size: usize) -> (r: Vec<u8>)
        requires
            old(self).wf(),
        ensures
            final(self).wf(),
            r@.len() >= (if expected_size <= old(self).max_buffer_size {
                expected_size
            } else {
                old(self).max_buffer_size
            }),
    {
        let size = if expected_size <= self.max_buffer_size {
            expected_size
        } else {
            self.max_buffer_size
        };
        self.pool.acquire(size)
    }

    /// A buffer for writing, sized like a read buffer.
    pub fn get_write_buffer(&mut self, data_size: usize) -> (r: Vec<u8>)
        requires
            old(self).wf(),
        ensures
            final(self).wf(),
            r@.len() >= (if data_size <= old(self).max_buffer_size {
                data_size
            } else {
                old(self).max_buffer_size
            }),
    {
        let size = if data_size <= self.max_buffer_size {
            data_size
        } else {
            self.max_buffer_size
        };
        self.pool.acquire(size)
    }

    /// Return a buffer to the pool.
    pub fn return_buffer(&mut self, buffer: Vec<u8>)
        requires
            old(self).wf(),
        ensures
            final(self).wf(),
    {
        self.pool.release(buffer);
    }
}

impl Default for BufferManager {
    /// A manager with a 1 MiB cap.
    fn default() -> (r: BufferManager)
        ensures
            r.wf(),
            r.max_buffer_size == 1048576,
    {
        BufferManager::new(1048576)
    }
}

/// Worker sizing derived from the number of logical CPUs.
pub struct CpuOptimizer {
    pub worker_count: usize,
}

/// The batch size owed for `total_items` split over `workers`: at least 1,
/// at most 1000.
pub open spec fn batch_size_spec(total_items: int, workers: int) -> int {
    let b = total_items / workers;
    if b < 1 {
        1
    } else if b > 1000 {
        1000
    } else {
        b
    }
}

impl CpuOptimizer {
    /// Size the worker count from the machine's logical CPUs, never below 1.
    pub fn new() -> (r: CpuOptimizer)
        ensures
            r.worker_count >= 1,
    {
        let n = crate::runtime::logical_cpus();
        let worker_count = if n >= 1 {
            n
        } else {
            1
        };
        CpuOptimizer { worker_count }
    }

    /// The number of worker threads to run.
    pub fn optimal_workers(&self) -> (r: usize)
        ensures
            r == self.worker_count,
    {
        self.worker_count
    }

    /// The batch size for processing `total_items` in parallel.
    pub fn optimal_batch_size(&self, total_items: usize) -> (r: usize)
        requires
            self.worker_count >= 1,
        ensures
            r == batch_size_spec(total_items as int, self.worker_count as int),
            1 <= r <= 1000,
    {
        let batch = total_items / self.worker_count;
        if batch < 1 {
            1
        } else if batch > 1000 {
            1000
        } else {
            batch
        }
    }
}

/// Request counters for observability.
pub struct PerformanceMonitor {
    pub request_count: u64,
    pub total_latency_ms: u64,
    pub error_count: u64,
}

/// A derived snapshot of the counters.
pub struct PerformanceMetrics {
    pub request_count: u64,
    pub avg_latency_ms: u64,
    pub error_count: u64,
}

/// Saturating addition of two u64 values.
pub open spec fn sat_add(x: u64, y: u64) -> u64 {
    if x + y > 0xFFFFFFFFFFFFFFFFu64 {
        0xFFFFFFFFFFFFFFFFu64
    } else {
        (x + y) as u64
    }
}

fn sat_add_exec(x: u64, y: u64) -> (r: u64)
    ensures
        r == sat_add(x, y),
{
    if x <= 0xFFFFFFFFFFFFFFFFu64 - y {
        x + y
    } else {
        0xFFFFFFFFFFFFFFFFu64
    }
}

impl PerformanceMonitor {
    pub fn new() -> (r: PerformanceMonitor)
        ensures
            r.request_count == 0,
            r.total_latency_ms == 0,
            r.error_count == 0,
    {
        PerformanceMonitor { request_count: 0, total_latency_ms: 0, error_count: 0 }
    }

    /// Record one request: its latency and whether it failed.
    pub fn record_request(&mut self, latency_ms: u64, is_error: bool)
        ensures
            final(self).request_count == sat_add(old(self).request_count, 1),
            final(self).total_latency_ms == sat_add(old(self).total_latency_ms, latency_ms),
            final(self).error_count == (if is_error {
                sat_add(old(self).error_count, 1)
            } else {
                old(self).error_count
            }),
    {
        self.request_count = sat_add_exec(self.request_count, 1);
        self.total_latency_ms = sat_add_exec(self.total_latency_ms, latency_ms);
        if is_error {
            self.error_count = sat_add_exec(self.error_count, 1);
        }
    }

    /// The derived averages; an idle monitor reports zero latency.
    pub fn get_metrics(&self) -> (r: PerformanceMetrics)
        ensures
            r.request_count == self.request_count,
            r.error_count == self.error_count,
            r.avg_latency_ms == (if self.request_count > 0 {
                self.total_latency_ms as int / self.request_count as int
            } else {
                0int
            }),
    {
        PerformanceMetrics {
            request_count: self.request_count,
            avg_latency_ms: if self.request_count > 0 {
                self.total_latency_ms / self.request_count
            } else {
                0
            },
            error_count: self.error_count,
        }
    }
}

/// First-match lookup among the cache's entries.
pub open spec fn cache_lookup<V>(s: Seq<(String, V, u64)>, k: Seq<char>) -> Option<V>
    decreases s.len(),
{
    if s.len() == 0 {
        None
    } else if s[0].0@ == k {
        Some(s[0].1)
    } else {
        cache_lookup(s.drop_first(), k)
    }
}

/// A least-recently-used cache over string keys.
///
/// Values must be `Copy` so that a hit can hand the value out while the
/// entry stays in place.
pub struct LruCache<V> {
    pub capacity: usize,
    pub entries: Vec<(String, V, u64)>,
    pub access_counter: u64,
}

impl<V: Copy> LruCache<V> {
    /// Keys are unique, the cache never exceeds its capacity, and every
    /// access stamp is below the recency counter, so a freshly stamped entry
    /// is strictly the most recent.
    pub open spec fn wf(self) -> bool {
        &&& forall|i: int, j: int|
            0 <= i < j < self.entries@.len() ==> (#[trigger] self.entries@[i]).0@ != (
            #[trigger] self.entries@[j]).0@
        &&& self.entries@.len() <= self.capacity
        &&& forall|i: int|
            0 <= i < self.entries@.len() ==> (#[trigger] self.entries@[i]).2
                < self.access_counter
    }

    /// An empty cache bounded by `capacity`.
    pub fn new(capacity: usize) -> (r: LruCache<V>)
        ensures
            r.wf(),
            r.capacity == capacity,
            r.entries@.len() == 0,
    {
        LruCache { capacity, entries: Vec::new(), access_counter: 1 }
    }

    fn find_index(&self, key: &str) -> (r: Option<usize>)
        ensures
            match r {
                Some(i) => i < self.entries@.len() && self.entries@[i as int].0@ == key@
                    && cache_lookup(self.entries@, key@) == Some(self.entries@[i as int].1),
                None => cache_lookup(self.entries@, key@) is None,
            },
    {
        let mut i: usize = 0;
        let n = self.entries.len();
        while i < n
            invariant
                n == self.entries@.len(),
                i <= n,
                forall|k: int| 0 <= k < i ==> (#[trigger] self.entries@[k]).0@ != key@,
            decreases n - i,
        {
            if str_eq(self.entries[i].0.as_str(), key) {
                proof {
                    lemma_cache_skip(self.entries@, key@, i as int);
                    assert(self.entries@.skip(i as int)[0] == self.entries@[i as int]);
                }
                return Some(i);
            }
            i = i + 1;
        }
        proof {
            lemma_cache_skip(self.entries@, key@, n as int);
            assert(self.entries@.skip(n as int) =~= Seq::<(String, V, u64)>::empty());
        }
        None
    }

    /// Look a key up; a hit restamps the entry as the most recently used.
    ///
    /// The recency clock is practically inexhaustible; in the unreachable
    /// state where it has no larger stamp left, the cache starts afresh.
    pub fn get(&mut self, key: &str) -> (r: Option<V>)
        requires
            old(self).wf(),
        ensures
            final(self).wf(),
            final(self).capacity == old(self).capacity,
            old(self).access_counter != 0xFFFFFFFFFFFFFFFFu64 ==> {
                &&& r == cache_lookup(old(self).entries@, key@)
                &&& (r is None ==> final(self).entries@ == old(self).entries@ && final(self).access_counter == old(self).access_counter)
                &&& (r is Some ==> exists|i: int|
                    {
                        &&& 0 <= i < old(self).entries@.len()
                        &&& (#[trigger] old(self).entries@[i]).0@ == key@
                        &&& final(self).entries@ == old(self).entries@.update(
                            i,
                            (
                                old(self).entries@[i].0,
                                old(self).entries@[i].1,
                                old(self).access_counter,
                            ),
                        )
                        &&& final(self).access_counter == old(self).access_counter + 1
                        &&& (forall|j: int|
                            0 <= j < final(self).entries@.len() && j != i ==> (#[trigger] final(self).entries@[j]).2 < final(self).entries@[i].2)
                    })
            },
            old(self).access_counter == 0xFFFFFFFFFFFFFFFFu64 ==> r is None && final(self).entries@.len() == 0,
    {
        if self.access_counter == 0xFFFFFFFFFFFFFFFFu64 {
            self.entries.clear();
            self.access_counter = 1;
            return None;
        }
        let ghost pre = self.entries@;
        match self.find_index(key) {
            Some(i) => {
                let e = self.entries.remove(i);
                proof {
                    pre.remove_ensures(i as int);
                }
                let v = e.1;
                let stamp = self.access_counter;
                self.access_counter = self.access_counter + 1;
                self.entries.insert(i, (e.0, e.1, stamp));
                proof {
                    assert(self.entries@ =~= pre.update(i as int, self.entries@[i as int]));
                    assert forall|a: int, b: int|
                        0 <= a < b < self.entries@.len() implies (#[trigger] self.entries@[a]).0@
                        != (#[trigger] self.entries@[b]).0@ by {
                        assert(self.entries@[a].0 == pre[a].0);
                        assert(self.entries@[b].0 == pre[b].0);
                    }
                    assert forall|j: int|
                        0 <= j < self.entries@.len() && j != i implies (
                    #[trigger] self.entries@[j]).2 < self.entries@[i as int].2 by {
                        assert(self.entries@[j] == pre[j]);
                    }
                }
                Some(v)
            },
            None => None,
        }
    }

    /// Insert or refresh a key: the entry is restamped as the most recently
    /// used, and when the cache is full and the key is new, the least
    /// recently used entry is evicted first.
    ///
    /// The recency clock is practically inexhaustible; in the unreachable
    /// state where it has no larger stamp left, the cache starts afresh.
    pub fn insert(&mut self, key: &str, value: V)
        requires
            old(self).wf(),
            old(self).capacity >= 1,
        ensures
            final(self).wf(),
            final(self).capacity == old(self).capacity,
            cache_lookup(final(self).entries@, key@) == Some(value),
            final(self).entries@.len() <= old(self).capacity,
            old(self).access_counter != 0xFFFFFFFFFFFFFFFFu64 ==> {
                &&& final(self).access_counter == old(self).access_counter + 1
                // the touched entry carries the fresh stamp: strictly the
                // most recently used
                &&& exists|i: int|
                    {
                        &&& 0 <= i < final(self).entries@.len()
                        &&& (#[trigger] final(self).entries@[i]).0@ == key@
                        &&& final(self).entries@[i].1 == value
                        &&& final(self).entries@[i].2 == old(self).access_counter
                        &&& (forall|j: int|
                            0 <= j < final(self).entries@.len() && j != i ==> (#[trigger] final(self).entries@[j]).2 < final(self).entries@[i].2)
                    }
                // a known key is refreshed in place
                &&& (cache_lookup(old(self).entries@, key@) is Some ==> exists|i: int|
                    {
                        &&& 0 <= i < old(self).entries@.len()
                        &&& (#[trigger] old(self).entries@[i]).0@ == key@
                        &&& final(self).entries@ == old(self).entries@.update(
                            i,
                            (old(self).entries@[i].0, value, old(self).access_counter),
                        )
                    })
                // a new key with room is appended
                &&& (cache_lookup(old(self).entries@, key@) is None && old(self).entries@.len()
                    < old(self).capacity ==> final(self).entries@ == old(self).entries@.push(
                    final(self).entries@.last(),
                ) && final(self).entries@.len() == old(self).entries@.len() + 1)
                // a full cache evicts exactly one least recently used entry
                &&& (cache_lookup(old(self).entries@, key@) is None && old(self).entries@.len()
                    >= old(self).capacity ==> exists|i: int|
                    {
                        &&& 0 <= i < old(self).entries@.len()
                        &&& (forall|j: int|
                            0 <= j < old(self).entries@.len() ==> old(self).entries@[i].2 <= (
                            #[trigger] old(self).entries@[j]).2)
                        &&& final(self).entries@ == old(self).entries@.remove(i).push(
                            final(self).entries@.last(),
                        )
                    })
            },
            old(self).access_counter == 0xFFFFFFFFFFFFFFFFu64 ==> final(self).entries@.len()
                == 1,
    {
        if self.access_counter == 0xFFFFFFFFFFFFFFFFu64 {
            self.entries.clear();
            self.access_counter = 1;
        }
        let ghost pre = self.entries@;
        let ghost ctr = self.access_counter;
        match self.find_index(key) {
            Some(i) => {
                let e = self.entries.remove(i);
                proof {
                    pre.remove_ensures(i as int);
                }
                let stamp = self.access_counter;
                self.access_counter = self.access_counter + 1;
                self.entries.insert(i, (e.0, value, stamp));
                proof {
                    assert(self.entries@ =~= pre.update(i as int, self.entries@[i as int]));
                    assert forall|a: int, b: int|
                        0 <= a < b < self.entries@.len() implies (#[trigger] self.entries@[a]).0@
                        != (#[trigger] self.entries@[b]).0@ by {
                        assert(self.entries@[a].0 == pre[a].0);
                        assert(self.entries@[b].0 == pre[b].0);
                    }
                    assert forall|k: int| 0 <= k < i implies (#[trigger] self.entries@[k]).0@
                        != key@ by {
                        assert(self.entries@[k].0 == pre[k].0);
                    }
                    lemma_cache_skip(self.entries@, key@, i as int);
                    assert(self.entries@.skip(i as int)[0] == self.entries@[i as int]);
                    assert forall|j: int|
                        0 <= j < self.entries@.len() && j != i implies (
                    #[trigger] self.entries@[j]).2 < self.entries@[i as int].2 by {
                        assert(self.entries@[j] == pre[j]);
                    }
                }
            },
            None => {
                if self.entries.len() >= self.capacity {
                    let li = self.lru_index();
                    let ghost mid = self.entries@;
                    self.entries.remove(li);
                    proof {
                        mid.remove_ensures(li as int);
                        lemma_cache_remove_none(mid, key@, li as int);
                        assert forall|a: int, b: int|
                            0 <= a < b < self.entries@.len() implies (#[trigger] self.entries@[a]).0@
                            != (#[trigger] self.entries@[b]).0@ by {
                            let a0 = if a < li {
                                a
                            } else {
                                a + 1
                            };
                            let b0 = if b < li {
                                b
                            } else {
                                b + 1
                            };
                            assert(self.entries@[a] == mid[a0]);
                            assert(self.entries@[b] == mid[b0]);
                        }
                        assert forall|a: int|
                            0 <= a < self.entries@.len() implies (#[trigger] self.entries@[a]).2
                            < self.access_counter by {
                            let a0 = if a < li {
                                a
                            } else {
                                a + 1
                            };
                            assert(self.entries@[a] == mid[a0]);
                        }
                    }
                }
                let stamp = self.access_counter;
                self.access_counter = self.access_counter + 1;
                let ghost mid2 = self.entries@;
                self.entries.push((key.to_owned(), value, stamp));
                proof {
                    let m = self.entries@;
                    assert(m.last().0@ == key@);
                    assert forall|a: int, b: int|
                        0 <= a < b < m.len() implies (#[trigger] m[a]).0@ != (#[trigger] m[b]).0@
                        by {
                        if b < m.len() - 1 {
                            assert(m[a] == mid2[a] && m[b] == mid2[b]);
                        } else {
                            assert(m[a] == mid2[a]);
                            if m[a].0@ == key@ {
                                lemma_cache_has_match(mid2, key@, a);
                                assert(false);
                            }
                        }
                    }
                    assert forall|k: int| 0 <= k < m.len() - 1 implies (#[trigger] m[k]).0@
                        != key@ by {
                        assert(m[k] == mid2[k]);
                        if m[k].0@ == key@ {
                            lemma_cache_has_match(mid2, key@, k);
                            assert(false);
                        }
                    }
                    lemma_cache_skip(m, key@, m.len() - 1);
                    assert(m.skip(m.len() - 1)[0] == m[m.len() - 1]);
                    assert forall|j: int|
                        0 <= j < m.len() && j != m.len() - 1 implies (#[trigger] m[j]).2 < m[m.len()
                        - 1].2 by {
                        assert(m[j] == mid2[j]);
                    }
                }
            },
        }
    }

    /// The index of the least recently used entry.
    fn lru_index(&self) -> (r: usize)
        requires
            self.entries@.len() > 0,
        ensures
            r < self.entries@.len(),
            forall|k: int|
                0 <= k < self.entries@.len() ==> self.entries@[r as int].2 <= (
                #[trigger] self.entries@[k]).2,
    {
        let mut best: usize = 0;
        let mut i: usize = 1;
        let n = self.entries.len();
        while i < n
            invariant
                n == self.entries@.len(),
                1 <= i <= n,
                best < i,
                forall|k: int|
                    0 <= k < i ==> self.entries@[best as int].2 <= (#[trigger] self.entries@[k]).2,
            decreases n - i,
        {
            if self.entries[i].2 < self.entries[best].2 {
                best = i;
            }
            i = i + 1;
        }
        best
    }

    /// How many entries the cache holds.
    pub fn len(&self) -> (r: usize)
        ensures
            r == self.entries@.len(),
    {
        self.entries.len()
    }

    /// Whether the cache is empty.
    pub fn is_empty(&self) -> (r: bool)
        ensures
            r == (self.entries@.len() == 0),
    {
        self.entries.len() == 0
    }
}

/// Looking a key up skips a prefix with no match.
proof fn lemma_cache_skip<V>(m: Seq<(String, V, u64)>, k: Seq<char>, j: int)
    requires
        0 <= j <= m.len(),
        forall|i: int| 0 <= i < j ==> (#[trigger] m[i]).0@ != k,
    ensures
        cache_lookup(m, k) == cache_lookup(m.skip(j), k),
    decreases j,
{
    if j > 0 {
        assert(m[0].0@ != k);
        lemma_cache_skip(m.drop_first(), k, j - 1);
        assert(m.skip(j) =~= m.drop_first().skip(j - 1));
    } else {
        assert(m.skip(0) =~= m);
    }
}

/// A matching entry anywhere means the lookup is a hit.
proof fn lemma_cache_has_match<V>(m: Seq<(String, V, u64)>, k: Seq<char>, j: int)
    requires
        0 <= j < m.len(),
        m[j].0@ == k,
    ensures
        cache_lookup(m, k) is Some,
    decreases m.len(),
{
    if m.len() > 0 {
        if m[0].0@ == k {
        } else {
            lemma_cache_has_match(m.drop_first(), k, j - 1);
        }
    }
}

/// Removing an entry of a missing key keeps the key missing.
proof fn lemma_cache_remove_none<V>(m: Seq<(String, V, u64)>, k: Seq<char>, j: int)
    requires
        0 <= j < m.len(),
        cache_lookup(m, k) is None,
    ensures
        cache_lookup(m.remove(j), k) is None,
{
    m.remove_ensures(j);
    if cache_lookup(m.remove(j), k) is Some {
        let m2 = m.remove(j);
        assert(exists|i: int| 0 <= i < m2.len() && (#[trigger] m2[i]).0@ == k) by {
            lemma_cache_some_has_match(m2, k);
        }
        let i = choose|i: int| 0 <= i < m2.len() && (#[trigger] m2[i]).0@ == k;
        let i0 = if i < j {
            i
        } else {
            i + 1
        };
        assert(m2[i] == m[i0]);
        lemma_cache_has_match(m, k, i0);
        assert(false);
    }
}

/// A hit means some entry matches.
proof fn lemma_cache_some_has_match<V>(m: Seq<(String, V, u64)>, k: Seq<char>)
    requires
        cache_lookup(m, k) is Some,
    ensures
        exists|i: int| 0 <= i < m.len() && (#[trigger] m[i]).0@ == k,
    decreases m.len(),
{
    if m.len() > 0 {
        if m[0].0@ == k {
            assert(m[0].0@ == k);
        } else {
            lemma_cache_some_has_match(m.drop_first(), k);
            let i = choose|i: int|
                0 <= i < m.drop_first().len() && (#[trigger] m.drop_first()[i]).0@ == k;
            assert(m[i + 1].0@ == k);
        }
    }
}

/// Collects items and hands them out in batches of a fixed size.
pub struct BatchProcessor<T> {
    pub batch_size: usize,
    pub items: Vec<T>,
}

impl<T> BatchProcessor<T> {
    /// An empty collector with the given batch size.
    pub fn new(batch_size: usize) -> (r: BatchProcessor<T>)
        ensures
            r.batch_size == batch_size,
            r.items@.len() == 0,
    {
        BatchProcessor { batch_size, items: Vec::new() }
    }

    /// Add one item; when the batch is full, hand the whole batch out and
    /// start collecting afresh.
    pub fn add(&mut self, item: T) -> (r: Option<Vec<T>>)
        ensures
            match r {
                Some(batch) => {
                    &&& batch@ == old(self).items@.push(item)
                    &&& batch@.len() >= old(self).batch_size
                    &&& final(self).items@.len() == 0
                },
                None => {
                    &&& final(self).items@ == old(self).items@.push(item)
                    &&& final(self).items@.len() < old(self).batch_size
                },
            },
            final(self).batch_size == old(self).batch_size,
    {
        self.items.push(item);
        if self.items.len() >= self.batch_size {
            let mut taken: Vec<T> = Vec::new();
            core::mem::swap(&mut taken, &mut self.items);
            Some(taken)
        } else {
            None
        }
    }

    /// Hand out whatever was collected so far.
    pub fn flush(&mut self) -> (r: Vec<T>)
        ensures
            r@ == old(self).items@,
            final(self).items@.len() == 0,
            final(self).batch_size == old(self).batch_size,
    {
        let mut taken: Vec<T> = Vec::new();
        core::mem::swap(&mut taken, &mut self.items);
        taken
    }
}

/// A pool of reusable connections, bounded in size.
pub struct ConnectionPool<T> {
    pub connections: Vec<T>,
    pub max_size: usize,
}

impl<T> ConnectionPool<T> {
    /// An empty pool bounded by `max_size`.
    pub fn new(max_size: usize) -> (r: ConnectionPool<T>)
        ensures
            r.max_size == max_size,
            r.connections@.len() == 0,
    {
        ConnectionPool { connections: Vec::new(), max_size }
    }

    /// Take the oldest pooled connection, if any.
    pub fn acquire(&mut self) -> (r: Option<T>)
        ensures
            match r {
                Some(c) => old(self).connections@.len() > 0 && c == old(self).connections@[0]
                    && final(self).connections@ == old(self).connections@.drop_first(),
                None => old(self).connections@.len() == 0 && final(self).connections@ == old(self).connections@,
            },
            final(self).max_size == old(self).max_size,
    {
        if self.connections.len() > 0 {
            let c = self.connections.remove(0);
            proof {
                assert(self.connections@ =~= old(self).connections@.drop_first());
            }
            Some(c)
        } else {
            None
        }
    }

    /// Return a connection; it is dropped when the pool is full.
    pub fn release(&mut self, conn: T)
        ensures
            old(self).connections@.len() < old(self).max_size ==> final(self).connections@
                == old(self).connections@.push(conn),
            old(self).connections@.len() >= old(self).max_size ==> final(self).connections@
                == old(self).connections@,
            final(self).max_size == old(self).max_size,
    {
        if self.connections.len() < self.max_size {
            self.connections.push(conn);
        }
    }

    /// How many connections are pooled.
    pub fn size(&self) -> (r: usize)
        ensures
            r == self.connections@.len(),
    {
        self.connections.len()
    }
}

} // verus!
