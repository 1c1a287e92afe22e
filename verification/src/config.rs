//! What an engine is configured with.
use vstd::prelude::*;

verus! {

#[derive(Debug)]
pub struct Config {
    pub server: ServerConfig,
    pub peer: Option<PeerConfig>,
    pub storage: StorageConfig,
    pub wal: WalConfig,
    pub http: HttpConfig,
    pub databases: Vec<DatabaseConfig>,
    pub memory: MemoryConfig,
}

#[derive(Debug)]
pub struct ServerConfig {
    pub id: u32,
    pub replication_port: u16,
}

#[derive(Debug)]
pub struct PeerConfig {
    pub address: String,
}

#[derive(Debug)]
pub struct StorageConfig {
    pub base_dir: String,
}

#[derive(Debug)]
pub struct WalConfig {
    pub flush_interval_secs: u64,
    pub batch_size: usize,
}

#[derive(Debug)]
pub struct HttpConfig {
    pub port: u16,
    pub trusted_ips: Vec<String>,
    pub secret_key: String,
}

#[derive(Debug)]
pub struct DatabaseConfig {
    pub id: u32,
    pub name: String,
}

impl DeepView for DatabaseConfig {
    type V = (u32, Seq<char>);

    open spec fn deep_view(&self) -> (u32, Seq<char>) {
        (self.id, self.name@)
    }
}

/// Limits on what the raw key-value store keeps in memory. Zero entries means no limit.
#[derive(Debug)]
pub struct MemoryConfig {
    pub max_entries_per_table: usize,
}

impl Default for MemoryConfig {
    fn default() -> (r: MemoryConfig)
        ensures
            r.max_entries_per_table == 0,
    {
        MemoryConfig { max_entries_per_table: 0 }
    }
}

impl Default for Config {
    fn default() -> (r: Config)
        ensures
            r.server == (ServerConfig { id: 1, replication_port: 9999 }),
            r.peer is None,
            r.storage.base_dir@ == "/var/lib/skvs"@,
            r.wal == (WalConfig { flush_interval_secs: 1, batch_size: 1000 }),
            r.http.port == 3000,
            r.http.trusted_ips.deep_view() == seq!["127.0.0.1"@],
            r.http.secret_key@ == "change-me"@,
            r.databases.deep_view() == seq![(0u32, "default"@)],
            r.memory.max_entries_per_table == 0,
    {
        let mut trusted_ips: Vec<String> = Vec::new();
        trusted_ips.push("127.0.0.1".to_owned());
        let mut databases: Vec<DatabaseConfig> = Vec::new();
        databases.push(DatabaseConfig { id: 0, name: "default".to_owned() });
        Config {
            server: ServerConfig { id: 1, replication_port: 9999 },
            peer: None,
            storage: StorageConfig { base_dir: "/var/lib/skvs".to_owned() },
            wal: WalConfig { flush_interval_secs: 1, batch_size: 1000 },
            http: HttpConfig { port: 3000, trusted_ips, secret_key: "change-me".to_owned() },
            databases,
            memory: MemoryConfig { max_entries_per_table: 0 },
        }
    }
}

} // verus!
