//! Async multi-connection client core for a broker's market-data stream:
//! a binary tick codec, zero-copy packet views, JSON control-message
//! encoding, and the symbol-placement logic of the connection manager.

mod config;
mod connection_manager;
mod connection_pool;
mod decimal;
mod depth;
mod errors;
mod exchange;
mod health_monitor;
mod json;
mod mode;
mod multi_api_manager;
mod ohlc;
mod order;
mod parser;
mod request;
mod text_message;
mod tick;
mod tick_message;
mod tick_raw;
mod ticker;
mod ticker_message;

pub use connection_manager::{KiteTickerManager, KiteTickerManagerBuilder, ManagerModel};
pub use health_monitor::{aggregate_api_key_stats, aggregate_manager_stats, HealthSummary};
pub use connection_pool::{frame_live, ManagedConnection};
pub use config::{ApiCredentials, ApiKeyId, ApiKeyStats, ChannelId, ConnectionStats, DistributionStrategy, KiteManagerConfig, ManagerStats, MultiApiConfig, MultiApiStats};
pub use decimal::to_decimal;
pub use depth::{Depth, DepthItem};
pub use errors::ParseTickError;
pub use exchange::Exchange;
pub use mode::Mode;
pub use multi_api_manager::{ApiConnectionGroup, MultiApiKiteTickerManager, MultiApiKiteTickerManagerBuilder};
pub use ohlc::OHLC;
pub use order::{OrderStatus, OrderTransactionType, OrderValidity, TimeStamp};
pub use parser::{packet_length, value, value_short};
pub use request::{Request, RequestActions};
pub use text_message::TextMessage;
pub use tick::Tick;
pub use tick_message::TickMessage;
pub use ticker::{extract_all_full_payloads, extract_first_full_payload, process_binary, KiteTickerSubscriber};
pub use ticker_message::TickerMessage;
pub use tick_raw::{as_184, as_index_quote_32, as_inst_header_64, as_tick_raw, IndexQuoteRaw32, InstHeaderRaw64, TickRaw, INDEX_QUOTE_SIZE, INST_HEADER_SIZE, TICK_FULL_SIZE};
