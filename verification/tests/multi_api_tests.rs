use kiteticker_async_manager::{
    ApiKeyId, DistributionStrategy, Mode, MultiApiKiteTickerManager, TimeStamp,
};

fn two_key_manager() -> MultiApiKiteTickerManager {
    let mut m = MultiApiKiteTickerManager::builder()
        .add_api_key(
            ApiKeyId::new("account1".to_string()),
            "key1".to_string(),
            "token1".to_string(),
        )
        .add_api_key(
            ApiKeyId::new("account2".to_string()),
            "key2".to_string(),
            "token2".to_string(),
        )
        .max_connections_per_api(2)
        .max_symbols_per_connection(2)
        .build();
    m.start().unwrap();
    m
}

#[test]
fn builder_defaults_and_caps() {
    let b = MultiApiKiteTickerManager::builder();
    assert_eq!(b.config.max_connections_per_api, 3);
    assert_eq!(b.config.distribution_strategy, DistributionStrategy::RoundRobin);
    assert!(b.config.enable_health_monitoring);
    // The per-key connection count is capped at the broker's limit.
    let b = b.max_connections_per_api(7);
    assert_eq!(b.config.max_connections_per_api, 3);
    let b = b.enable_health_monitoring(false).default_mode(Mode::Full);
    assert!(!b.config.enable_health_monitoring);
    assert_eq!(b.config.base_config.default_mode, Mode::Full);
}

#[test]
fn add_api_key_overwrites_duplicate() {
    // Adding credentials for an id already present replaces them in
    // place, as a keyed store would; the key count does not grow.
    let b = MultiApiKiteTickerManager::builder()
        .add_api_key(ApiKeyId::new("a".to_string()), "k1".to_string(), "t1".to_string())
        .add_api_key(ApiKeyId::new("b".to_string()), "k2".to_string(), "t2".to_string())
        .add_api_key(ApiKeyId::new("a".to_string()), "k3".to_string(), "t3".to_string());
    assert_eq!(b.api_credentials.len(), 2);
    assert_eq!(b.api_credentials[0].0 .0, "a");
    assert_eq!(b.api_credentials[0].1.api_key, "k3");
    assert_eq!(b.api_credentials[0].1.access_token, "t3");
    assert_eq!(b.api_credentials[1].0 .0, "b");
    assert_eq!(b.api_credentials[1].1.api_key, "k2");
}

#[test]
fn start_requires_api_keys() {
    let mut m = MultiApiKiteTickerManager::builder().build();
    assert!(m.start().is_err());
}

#[test]
fn api_keys_listed_in_order() {
    let m = two_key_manager();
    let keys = m.get_api_keys();
    assert_eq!(keys.len(), 2);
    assert_eq!(keys[0].0, "account1");
    assert_eq!(keys[1].0, "account2");
}

#[test]
fn subscribe_round_robin_over_keys() {
    let mut m = two_key_manager();
    m.subscribe_symbols(&[1, 2, 3, 4], Some(Mode::Quote)).unwrap();
    let dist = m.get_symbol_distribution();
    assert_eq!(dist.len(), 2);
    // Round-robin over the keys: two symbols each.
    assert_eq!(dist[0].1, 2);
    assert_eq!(dist[1].1, 2);
}

#[test]
fn subscribe_to_named_key() {
    let mut m = two_key_manager();
    let id = ApiKeyId::new("account2".to_string());
    m.subscribe_symbols_to_api(&id, &[5, 6, 7], None).unwrap();
    let dist = m.get_symbol_distribution();
    assert_eq!(dist[0].1, 0);
    assert_eq!(dist[1].1, 3);

    let unknown = ApiKeyId::new("nobody".to_string());
    assert!(m.subscribe_symbols_to_api(&unknown, &[8], None).is_err());
}

#[test]
fn capacity_error_across_keys() {
    // Two keys, two connections of capacity two each: nine symbols do
    // not fit into the eight slots.
    let mut m = two_key_manager();
    assert!(m.subscribe_symbols(&[1, 2, 3, 4, 5, 6, 7, 8], None).is_ok());
    assert!(m.subscribe_symbols(&[9], None).is_err());
}

#[test]
fn unsubscribe_and_change_mode() {
    let mut m = two_key_manager();
    m.subscribe_symbols(&[1, 2, 3], None).unwrap();
    m.unsubscribe_symbols(&[2, 99]).unwrap();
    let total: usize = m.get_symbol_distribution().iter().map(|e| e.1).sum();
    assert_eq!(total, 2);
    m.change_mode(&[1, 3], Mode::Full).unwrap();
    m.unsubscribe_symbols(&[1, 3]).unwrap();
    let total: usize = m.get_symbol_distribution().iter().map(|e| e.1).sum();
    assert_eq!(total, 0);
}

#[test]
fn manual_strategy_refuses_auto_subscribe() {
    let mut m = MultiApiKiteTickerManager::builder()
        .add_api_key(ApiKeyId::new("a".to_string()), "k".to_string(), "t".to_string())
        .distribution_strategy(DistributionStrategy::Manual)
        .build();
    m.start().unwrap();
    assert!(m.subscribe_symbols(&[1], None).is_err());
    let id = ApiKeyId::new("a".to_string());
    assert!(m.subscribe_symbols_to_api(&id, &[1], None).is_ok());
}

#[test]
fn timestamp_wraps_seconds() {
    let t = TimeStamp::new(1_700_000_000);
    assert_eq!(t.secs(), 1_700_000_000);
    assert_eq!(t.0, 1_700_000_000);
}
