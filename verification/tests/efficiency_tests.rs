use browser_core::efficiency::{
    BatchProcessor, BufferManager, CpuOptimizer, LruCache, MemoryPool, PerformanceMonitor,
};

#[test]
fn test_memory_pool() {
    let mut pool = MemoryPool::new();

    let buf1 = pool.acquire(1000);
    assert!(buf1.len() >= 1000);

    pool.release(buf1);

    let buf2 = pool.acquire(1000);
    assert!(buf2.len() >= 1000);
}

#[test]
fn test_buffer_manager() {
    let mut manager = BufferManager::default();

    let buf = manager.get_read_buffer(4096);
    assert!(buf.len() >= 4096);

    manager.return_buffer(buf);
}

#[test]
fn test_cpu_optimizer() {
    let optimizer = CpuOptimizer::new();
    assert!(optimizer.optimal_workers() >= 1);
    assert!(optimizer.optimal_batch_size(1000) >= 1);
}

#[test]
fn test_lru_cache() {
    let mut cache = LruCache::new(2);

    cache.insert("a", 1);
    cache.insert("b", 2);

    assert_eq!(cache.get(&"a"), Some(1));

    cache.insert("c", 3);

    // "b" should be evicted as LRU
    assert_eq!(cache.get(&"b"), None);
    assert_eq!(cache.get(&"c"), Some(3));
}

#[test]
fn test_batch_processor() {
    let mut processor = BatchProcessor::new(3);

    assert!(processor.add(1).is_none());
    assert!(processor.add(2).is_none());

    let batch = processor.add(3);
    assert_eq!(batch, Some(vec![1, 2, 3]));
}

#[test]
fn test_performance_monitor() {
    let mut monitor = PerformanceMonitor::new();

    monitor.record_request(100, false);
    monitor.record_request(200, false);
    monitor.record_request(150, true);

    let metrics = monitor.get_metrics();
    assert_eq!(metrics.request_count, 3);
    assert_eq!(metrics.avg_latency_ms, 150);
}

#[test]
fn memory_pool_reuses_released_buffers() {
    let mut pool = MemoryPool::new();
    let buf = pool.acquire(1024);
    assert_eq!(buf.len(), 1024);
    pool.release(buf);
    let _again = pool.acquire(1024);
    let (allocations, reuses, deallocations) = pool.get_stats();
    assert_eq!(allocations, 1);
    assert_eq!(reuses, 1);
    assert_eq!(deallocations, 1);
}

#[test]
fn batch_flush_returns_partial_batch() {
    let mut processor = BatchProcessor::new(10);
    processor.add("x");
    processor.add("y");
    let rest = processor.flush();
    assert_eq!(rest, vec!["x", "y"]);
    assert_eq!(processor.flush(), Vec::<&str>::new());
}

#[test]
fn lru_len_and_empty() {
    let mut cache: LruCache<u32> = LruCache::new(4);
    assert!(cache.is_empty());
    cache.insert("k", 9);
    assert_eq!(cache.len(), 1);
    assert!(!cache.is_empty());
    assert_eq!(cache.get(&"k"), Some(9));
}

#[test]
fn connection_pool_bounds_its_size() {
    let mut pool = browser_core::efficiency::ConnectionPool::new(2);
    assert!(pool.acquire().is_none());
    pool.release(1u32);
    pool.release(2u32);
    pool.release(3u32);
    assert_eq!(pool.size(), 2);
    assert_eq!(pool.acquire(), Some(1));
    assert_eq!(pool.acquire(), Some(2));
    assert!(pool.acquire().is_none());
}

#[test]
fn acquire_rounds_up_to_the_size_class() {
    let mut pool = MemoryPool::new();
    assert_eq!(pool.acquire(1).len(), 1024);
    assert_eq!(pool.acquire(1000).len(), 1024);
    assert_eq!(pool.acquire(1025).len(), 4096);
    assert_eq!(pool.acquire(65536).len(), 65536);
    assert_eq!(pool.acquire(1048576).len(), 1048576);
    // above the largest class the request is allocated as asked
    assert_eq!(pool.acquire(2_000_000).len(), 2_000_000);
}

#[test]
fn fresh_buffers_are_zeroed() {
    let mut pool = MemoryPool::new();
    let buf = pool.acquire(1000);
    assert!(buf.iter().all(|b| *b == 0));
}
