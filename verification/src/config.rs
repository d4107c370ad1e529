use vstd::prelude::*;

use crate::mode::Mode;

verus! {

/// The default manager configuration: three connections of 3000 symbols,
/// generous buffers, 30 s connect timeout, 10 s health checks, five
/// reconnection attempts 2 s apart, dedicated parsers, Quote mode, and a
/// 10 s liveness window.
pub open spec fn default_kite_config() -> KiteManagerConfig {
    KiteManagerConfig {
        max_symbols_per_connection: 3000,
        max_connections: 3,
        connection_buffer_size: 5000,
        parser_buffer_size: 10000,
        connection_timeout: 30,
        health_check_interval: 10,
        max_reconnect_attempts: 5,
        reconnect_delay: 2,
        enable_dedicated_parsers: true,
        default_mode: Mode::Quote,
        heartbeat_liveness_threshold: 10,
    }
}

/// Configuration of the multi-connection manager. Durations are in
/// seconds.
#[derive(Debug, Clone, PartialEq, Eq)]
pub struct KiteManagerConfig {
    /// Maximum symbols per WebSocket connection (broker limit: 3000)
    pub max_symbols_per_connection: usize,
    /// Number of WebSocket connections to maintain (broker limit: 3)
    pub max_connections: usize,
    /// Buffer size for each connection's message channel
    pub connection_buffer_size: usize,
    /// Buffer size for each parser's output channel
    pub parser_buffer_size: usize,
    /// Seconds allowed for establishing a WebSocket connection
    pub connection_timeout: u64,
    /// Seconds between connection-health checks
    pub health_check_interval: u64,
    /// Maximum reconnection attempts per connection
    pub max_reconnect_attempts: usize,
    /// Seconds between reconnection attempts
    pub reconnect_delay: u64,
    /// Run a dedicated parser task for each connection
    pub enable_dedicated_parsers: bool,
    /// Subscription mode for symbols that name none
    pub default_mode: Mode,
    /// The connection counts as alive if any frame (heartbeats included)
    /// arrived within this many seconds
    pub heartbeat_liveness_threshold: u64,
}

impl Default for KiteManagerConfig {
    /// Three connections of 3000 symbols, generous buffers, 30 s connect
    /// timeout, 10 s health checks, five reconnection attempts 2 s apart,
    /// dedicated parsers, Quote mode, 10 s liveness window.
    fn default() -> (r: Self)
        ensures
            r == default_kite_config(),
    {
        Self {
            max_symbols_per_connection: 3000,
            max_connections: 3,
            connection_buffer_size: 5000,
            parser_buffer_size: 10000,
            connection_timeout: 30,
            health_check_interval: 10,
            max_reconnect_attempts: 5,
            reconnect_delay: 2,
            enable_dedicated_parsers: true,
            default_mode: Mode::Quote,
            heartbeat_liveness_threshold: 10,
        }
    }
}

/// Connection statistics for monitoring. Times are in seconds since the
/// epoch; latencies in microseconds; uptimes in seconds.
#[derive(Debug, Clone, Copy, PartialEq, Eq)]
pub struct ConnectionStats {
    pub connection_id: usize,
    pub is_connected: bool,
    pub symbol_count: usize,
    pub messages_received: u64,
    pub messages_parsed: u64,
    pub errors_count: u64,
    pub last_message_time: Option<u64>,
    pub average_latency: u64,
    pub connection_uptime: u64,
}

impl Default for ConnectionStats {
    /// All counters zero, not connected, no message seen.
    fn default() -> (r: Self)
        ensures
            r == (ConnectionStats {
                connection_id: 0,
                is_connected: false,
                symbol_count: 0,
                messages_received: 0,
                messages_parsed: 0,
                errors_count: 0,
                last_message_time: None,
                average_latency: 0,
                connection_uptime: 0,
            }),
    {
        ConnectionStats {
            connection_id: 0,
            is_connected: false,
            symbol_count: 0,
            messages_received: 0,
            messages_parsed: 0,
            errors_count: 0,
            last_message_time: None,
            average_latency: 0,
            connection_uptime: 0,
        }
    }
}

/// Manager-wide statistics. The uptime is in seconds.
#[derive(Debug, Clone, PartialEq, Eq)]
pub struct ManagerStats {
    pub total_symbols: usize,
    pub active_connections: usize,
    pub total_messages_received: u64,
    pub total_messages_parsed: u64,
    pub total_errors: u64,
    pub uptime: u64,
    pub connection_stats: Vec<ConnectionStats>,
}

/// Identifier of one of the manager's output channels, one per
/// connection.
#[derive(Debug, Clone, Copy, PartialEq, Eq, Structural, Hash)]
pub enum ChannelId {
    Connection1,
    Connection2,
    Connection3,
}

/// The index a channel identifier stands for.
pub open spec fn channel_index(c: ChannelId) -> int {
    match c {
        ChannelId::Connection1 => 0,
        ChannelId::Connection2 => 1,
        ChannelId::Connection3 => 2,
    }
}

impl ChannelId {
    /// The identifier of a connection index; only 0, 1 and 2 name
    /// connections.
    pub fn from_index(index: usize) -> (r: Option<Self>)
        ensures
            index == 0 ==> r == Some(ChannelId::Connection1),
            index == 1 ==> r == Some(ChannelId::Connection2),
            index == 2 ==> r == Some(ChannelId::Connection3),
            index >= 3 ==> r is None,
            r matches Some(c) ==> channel_index(c) == index,
    {
        match index {
            0 => Some(Self::Connection1),
            1 => Some(Self::Connection2),
            2 => Some(Self::Connection3),
            _ => None,
        }
    }

    /// The connection index this identifier stands for.
    pub fn to_index(self) -> (r: usize)
        ensures
            r == channel_index(self),
    {
        match self {
            ChannelId::Connection1 => 0,
            ChannelId::Connection2 => 1,
            ChannelId::Connection3 => 2,
        }
    }

    /// All three channel identifiers, in connection order.
    pub fn all() -> (r: Vec<Self>)
        ensures
            r@ == seq![ChannelId::Connection1, ChannelId::Connection2, ChannelId::Connection3],
    {
        let mut v = Vec::new();
        v.push(Self::Connection1);
        v.push(Self::Connection2);
        v.push(Self::Connection3);
        proof {
            assert(v@ =~= seq![
                ChannelId::Connection1,
                ChannelId::Connection2,
                ChannelId::Connection3,
            ]);
        }
        v
    }
}

/// Unique identifier for an API key.
#[derive(Debug, Clone, PartialEq, Eq, Hash)]
pub struct ApiKeyId(pub String);

impl ApiKeyId {
    /// Wrap an identifier string.
    pub fn new(id: String) -> (r: Self)
        ensures
            r.0@ == id@,
    {
        Self(id)
    }
}

/// API credentials for a single account.
#[derive(Debug, Clone)]
pub struct ApiCredentials {
    pub api_key: String,
    pub access_token: String,
}

impl ApiCredentials {
    /// Pair an API key with its access token.
    pub fn new(api_key: String, access_token: String) -> (r: Self)
        ensures
            r.api_key@ == api_key@,
            r.access_token@ == access_token@,
    {
        Self { api_key, access_token }
    }
}

/// How symbols spread over several API keys.
#[derive(Debug, Clone, Copy, PartialEq, Eq, Structural)]
pub enum DistributionStrategy {
    /// Distribute symbols over all API keys round-robin
    RoundRobin,
    /// Callers assign symbols to specific API keys
    Manual,
}

impl Default for DistributionStrategy {
    /// Round-robin distribution.
    fn default() -> (r: Self)
        ensures
            r == DistributionStrategy::RoundRobin,
    {
        Self::RoundRobin
    }
}

/// Configuration of the multi-API manager.
#[derive(Debug, Clone, PartialEq, Eq)]
pub struct MultiApiConfig {
    /// Base configuration for each API key's connections
    pub base_config: KiteManagerConfig,
    /// Maximum connections per API key (broker limit: 3)
    pub max_connections_per_api: usize,
    /// Symbol distribution strategy
    pub distribution_strategy: DistributionStrategy,
    /// Monitor health across all API keys
    pub enable_health_monitoring: bool,
}

impl Default for MultiApiConfig {
    /// The default per-key configuration, three connections per key,
    /// round-robin distribution, health monitoring on.
    fn default() -> (r: Self)
        ensures
            r.base_config == default_kite_config(),
            r.max_connections_per_api == 3,
            r.distribution_strategy == DistributionStrategy::RoundRobin,
            r.enable_health_monitoring == true,
    {
        Self {
            base_config: KiteManagerConfig::default(),
            max_connections_per_api: 3,
            distribution_strategy: DistributionStrategy::RoundRobin,
            enable_health_monitoring: true,
        }
    }
}

/// Statistics for a single API key.
#[derive(Debug, Clone, PartialEq, Eq)]
pub struct ApiKeyStats {
    pub api_key_id: String,
    pub active_connections: usize,
    pub total_symbols: usize,
    pub total_messages_received: u64,
    pub total_messages_parsed: u64,
    pub total_errors: u64,
    pub connection_stats: Vec<ConnectionStats>,
}

/// Aggregate statistics across all API keys. The uptime is in seconds.
#[derive(Debug, Clone, PartialEq, Eq)]
pub struct MultiApiStats {
    pub total_api_keys: usize,
    pub total_connections: usize,
    pub total_symbols: usize,
    pub total_messages_received: u64,
    pub total_messages_parsed: u64,
    pub total_errors: u64,
    pub uptime: u64,
    pub per_api_stats: Vec<ApiKeyStats>,
}

} // verus!
