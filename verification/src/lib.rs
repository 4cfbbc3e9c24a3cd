//! Core engine of a privacy browser: country-scoped virtual IP generation,
//! per-tab identity bindings with write-through persistence, a proxy pool
//! with health metrics, and a policy-driven proxy rotation state machine.

pub mod country;
pub mod demo;
pub mod efficiency;
pub mod errors;
pub mod generator;
pub mod ipfmt;
pub mod proxy;
pub mod rng;
pub mod rotation;
pub mod runtime;
pub mod storage;
pub mod tabs;

pub use country::{AddressRange, Country};
pub use demo::{demo_generator, CountryDatabase};
pub use efficiency::{
    BatchProcessor, BufferManager, ConnectionPool, CpuOptimizer, LruCache, MemoryPool,
    PerformanceMetrics, PerformanceMonitor, PoolStats,
};
pub use errors::CoreError;
pub use generator::{IPGenerator, VirtualIP};
pub use proxy::{FreeProxy, PoolEntry, ProxyManager, ProxyMetrics, ProxyTestResult, ProxyType};
pub use rotation::{
    ProxyRotationManager, ProxySessionStats, RotationBinding, RotationStrategy, TickOutcome,
};
pub use runtime::{unix_timestamp, unix_timestamp_ms};
pub use storage::{
    Bookmark, Cookie, ExportOptions, HistoryEntry, ImportExportStats, ImportOptions,
    StorageEngine, StorageExport,
};
pub use tabs::{Tab, TabIPManager, TabRow, TabStatus};
