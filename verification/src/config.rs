//! Database configuration.
use vstd::prelude::*;

verus! {

/// The configuration of a database.
#[derive(Debug, Clone)]
pub struct Config {
    pub storage: StorageConfig,
    pub wal: WalConfig,
    pub network: NetworkConfig,
}

/// Where and how pages are kept.
#[derive(Debug, Clone)]
pub struct StorageConfig {
    /// The directory holding the data and log files.
    pub path: String,
    pub cache_size_mb: usize,
    /// Number of dirty writes between automatic syncs of the store. 0 = never.
    pub sync_interval: u32,
}

/// Whether the write-ahead log is kept, and synced on every write.
#[derive(Debug, Clone)]
pub struct WalConfig {
    pub enabled: bool,
    pub sync_on_write: bool,
}

/// The address the server listens on and its connection limits.
#[derive(Debug, Clone)]
pub struct NetworkConfig {
    pub host: String,
    pub port: u16,
    /// Maximum number of concurrent client connections.
    pub max_connections: usize,
    /// Idle timeout in seconds before a connection is dropped. 0 = no timeout.
    pub idle_timeout_secs: u64,
}

/// The connection limit when the configuration names none.
pub fn default_max_connections() -> (n: usize)
    ensures
        n == 128,
{
    128
}

/// The idle timeout when the configuration names none.
pub fn default_idle_timeout() -> (n: u64)
    ensures
        n == 30,
{
    30
}

impl Default for Config {
    fn default() -> (c: Config)
        ensures
            c.storage.path@ == "./data"@,
            c.storage.cache_size_mb == 256,
            c.storage.sync_interval == 1000,
            c.wal.enabled,
            !c.wal.sync_on_write,
            c.network.host@ == "127.0.0.1"@,
            c.network.port == 5432,
            c.network.max_connections == 128,
            c.network.idle_timeout_secs == 30,
    {
        Config {
            storage: StorageConfig { path: "./data".to_owned(), cache_size_mb: 256, sync_interval: 1000 },
            wal: WalConfig { enabled: true, sync_on_write: false },
            network: NetworkConfig {
                host: "127.0.0.1".to_owned(),
                port: 5432,
                max_connections: default_max_connections(),
                idle_timeout_secs: default_idle_timeout(),
            },
        }
    }
}

impl Config {
    /// The same configuration with another storage path.
    pub fn with_path(self, path: String) -> (c: Config)
        ensures
            c.storage.path@ == path@,
            c.storage.cache_size_mb == self.storage.cache_size_mb,
            c.storage.sync_interval == self.storage.sync_interval,
            c.wal == self.wal,
            c.network == self.network,
    {
        let mut c = self;
        c.storage.path = path;
        c
    }
}

} // verus!
