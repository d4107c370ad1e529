use kiteticker_async_manager::{
    ChannelId, KiteManagerConfig, KiteTickerManager, KiteTickerManagerBuilder, ManagedConnection,
    Mode,
};

fn small_manager(capacity: usize) -> KiteTickerManager {
    let mut m = KiteTickerManagerBuilder::new("key".to_string(), "token".to_string())
        .max_connections(3)
        .max_symbols_per_connection(capacity)
        .build();
    m.start().unwrap();
    m
}

fn tokens_of(m: &KiteTickerManager, idx: usize) -> Vec<u32> {
    let mut d = m.get_symbol_distribution()[idx].1.clone();
    d.sort();
    d
}

#[test]
fn builder_defaults() {
    let b = KiteTickerManagerBuilder::new("k".to_string(), "t".to_string());
    assert_eq!(b.config.max_connections, 3);
    assert_eq!(b.config.max_symbols_per_connection, 3000);
    assert_eq!(b.config.connection_buffer_size, 5000);
    assert_eq!(b.config.parser_buffer_size, 10000);
    assert_eq!(b.config.connection_timeout, 30);
    assert_eq!(b.config.health_check_interval, 10);
    assert_eq!(b.config.max_reconnect_attempts, 5);
    assert_eq!(b.config.reconnect_delay, 2);
    assert!(b.config.enable_dedicated_parsers);
    assert_eq!(b.config.default_mode, Mode::Quote);
    assert_eq!(b.config.heartbeat_liveness_threshold, 10);
    assert!(!b.raw_only);
    let b = b.max_connections(2).default_mode(Mode::LTP).raw_only(true);
    assert_eq!(b.config.max_connections, 2);
    assert_eq!(b.config.default_mode, Mode::LTP);
    assert!(b.raw_only);
}

#[test]
fn start_rejects_too_many_connections() {
    let mut m = KiteTickerManagerBuilder::new("k".to_string(), "t".to_string())
        .max_connections(4)
        .build();
    assert!(m.start().is_err());
    let mut m = KiteTickerManagerBuilder::new("k".to_string(), "t".to_string())
        .max_connections(0)
        .build();
    assert!(m.start().is_err());
}

#[test]
fn subscribe_before_start_fails() {
    let mut m = KiteTickerManagerBuilder::new("k".to_string(), "t".to_string()).build();
    assert!(m.subscribe_symbols(&[1], None).is_err());
    assert!(m.unsubscribe_symbols(&[1]).is_err());
    assert!(m.change_mode(&[1], Mode::Full).is_err());
}

#[test]
fn round_robin_placement() {
    // Three connections of capacity two: six tokens spread evenly, in
    // round-robin order; a seventh finds no room.
    let mut m = small_manager(2);
    let (a, b, c, d, e, f, g) = (10u32, 11, 12, 13, 14, 15, 16);
    let plan = m.subscribe_symbols(&[a, b, c, d, e, f], Some(Mode::Quote)).unwrap();
    assert_eq!(plan.len(), 3);
    assert_eq!(plan[0].0, ChannelId::Connection1);
    assert_eq!(plan[0].1, vec![a, d]);
    assert!(plan[0].2, "first placement on an empty connection is initial");
    assert_eq!(plan[1].1, vec![b, e]);
    assert_eq!(plan[2].1, vec![c, f]);
    assert_eq!(tokens_of(&m, 0), vec![a, d]);
    assert_eq!(tokens_of(&m, 1), vec![b, e]);
    assert_eq!(tokens_of(&m, 2), vec![c, f]);

    let err = m.subscribe_symbols(&[g], None);
    assert!(err.is_err());
    // Best effort: the earlier placements stay.
    assert_eq!(tokens_of(&m, 0).len() + tokens_of(&m, 1).len() + tokens_of(&m, 2).len(), 6);
}

#[test]
fn dynamic_mutation() {
    // From the even distribution, freeing one connection and adding two
    // tokens reuses the freed room.
    let mut m = small_manager(2);
    let (a, b, c, d, e, f, g, h) = (10u32, 11, 12, 13, 14, 15, 16, 17);
    m.subscribe_symbols(&[a, b, c, d, e, f], None).unwrap();
    let plan = m.unsubscribe_symbols(&[b, e]).unwrap();
    assert_eq!(plan.len(), 1);
    assert_eq!(plan[0].0, ChannelId::Connection2);
    assert_eq!(plan[0].1, vec![b, e]);
    let plan = m.subscribe_symbols(&[g, h], None).unwrap();
    assert_eq!(plan.len(), 1);
    assert_eq!(plan[0].0, ChannelId::Connection2);
    assert_eq!(plan[0].1, vec![g, h]);
    // The freed connection is empty again, so this placement counts as an
    // initial subscribe there.
    assert!(plan[0].2);
    assert_eq!(tokens_of(&m, 0), vec![a, d]);
    assert_eq!(tokens_of(&m, 1), vec![g, h]);
    assert_eq!(tokens_of(&m, 2), vec![c, f]);
}

#[test]
fn duplicate_subscriptions_are_skipped() {
    let mut m = small_manager(10);
    m.subscribe_symbols(&[1, 2], None).unwrap();
    let plan = m.subscribe_symbols(&[2, 3], None).unwrap();
    // Only the new token is placed; it goes to the next connection in
    // rotation.
    assert_eq!(plan.len(), 1);
    assert_eq!(plan[0].1, vec![3]);
    let total: usize = (0..3).map(|i| tokens_of(&m, i).len()).sum();
    assert_eq!(total, 3);
}

#[test]
fn unsubscribe_is_idempotent() {
    let mut m = small_manager(10);
    m.subscribe_symbols(&[1, 2], None).unwrap();
    let plan = m.unsubscribe_symbols(&[99]).unwrap();
    assert!(plan.is_empty());
    let total: usize = (0..3).map(|i| tokens_of(&m, i).len()).sum();
    assert_eq!(total, 2);
}

#[test]
fn change_mode_groups_by_connection() {
    let mut m = small_manager(10);
    m.subscribe_symbols(&[1, 2, 3], Some(Mode::LTP)).unwrap();
    let plan = m.change_mode(&[1, 3, 99], Mode::Full).unwrap();
    // Tokens 1 and 3 sit on connections one and three; 99 is unknown.
    assert_eq!(plan.len(), 2);
    assert_eq!(plan[0].0, ChannelId::Connection1);
    assert_eq!(plan[0].1, vec![1]);
    assert_eq!(plan[1].0, ChannelId::Connection3);
    assert_eq!(plan[1].1, vec![3]);
}

#[test]
fn channel_id_mapping() {
    assert_eq!(ChannelId::from_index(0), Some(ChannelId::Connection1));
    assert_eq!(ChannelId::from_index(2), Some(ChannelId::Connection3));
    assert_eq!(ChannelId::from_index(3), None);
    assert_eq!(ChannelId::Connection2.to_index(), 1);
    let all = ChannelId::all();
    assert_eq!(all.len(), 3);
    assert_eq!(all[0].to_index(), 0);
    assert_eq!(all[2].to_index(), 2);
}

#[test]
fn managed_connection_tables() {
    let mut c = ManagedConnection::new(ChannelId::Connection1);
    assert_eq!(c.symbol_count(), 0);
    assert!(!c.is_healthy());
    c.subscribe_symbols(&[1, 2, 3], Mode::Quote);
    assert_eq!(c.symbol_count(), 3);
    let fresh = c.add_symbols(&[3, 4], Mode::Full);
    assert_eq!(fresh, vec![4]);
    assert_eq!(c.symbol_count(), 4);
    let removed = c.remove_symbols(&[2, 9]);
    assert_eq!(removed, vec![2]);
    assert_eq!(c.symbol_count(), 3);
    assert!(c.can_accept_symbols(2, 5));
    assert!(!c.can_accept_symbols(3, 5));
}

#[test]
fn config_default_matches_builder() {
    let c = KiteManagerConfig::default();
    assert_eq!(c.max_connections, 3);
    assert_eq!(c.default_mode, Mode::Quote);
}
