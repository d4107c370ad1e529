use kiteticker_async_manager::{
    aggregate_api_key_stats, aggregate_manager_stats, ChannelId, ConnectionStats, HealthSummary,
    KiteTickerSubscriber, ManagedConnection, Mode, RequestActions,
};

fn stats(id: usize, connected: bool, symbols: usize, msgs: u64, errs: u64) -> ConnectionStats {
    ConnectionStats {
        connection_id: id,
        is_connected: connected,
        symbol_count: symbols,
        messages_received: msgs,
        messages_parsed: msgs,
        errors_count: errs,
        last_message_time: None,
        average_latency: 0,
        connection_uptime: 0,
    }
}

#[test]
fn summary_counts_and_totals() {
    let v = vec![
        stats(0, true, 10, 100, 0),
        stats(1, false, 5, 50, 2),
        stats(2, true, 7, 70, 1),
    ];
    let s = HealthSummary::from_connections(&v, 1_000, 42);
    assert_eq!(s.healthy_connections, 2);
    assert_eq!(s.unhealthy_connections, vec![1]);
    assert_eq!(s.total_symbols, 22);
    assert_eq!(s.total_messages, 220);
    assert_eq!(s.total_errors, 3);
    assert_eq!(s.uptime, 42);
    assert!(!s.is_healthy());
    assert!(s.is_degraded());
    assert!(!s.is_critical());
}

#[test]
fn summary_health_predicates() {
    let all_up = HealthSummary::from_connections(&vec![stats(0, true, 1, 1, 0)], 0, 0);
    assert!(all_up.is_healthy());
    assert!(!all_up.is_degraded());
    assert!(!all_up.is_critical());

    let all_down = HealthSummary::from_connections(&vec![stats(0, false, 0, 0, 0)], 0, 0);
    assert!(!all_down.is_healthy());
    assert!(!all_down.is_degraded());
    assert!(all_down.is_critical());

    // Errors alone make the system unhealthy even with every connection up.
    let errored = HealthSummary::from_connections(&vec![stats(0, true, 1, 1, 5)], 0, 0);
    assert!(!errored.is_healthy());
}

#[test]
fn active_message_flows_window() {
    let mut fresh = stats(0, true, 1, 1, 0);
    fresh.last_message_time = Some(970);
    let mut stale = stats(1, true, 1, 1, 0);
    stale.last_message_time = Some(900);
    let s = HealthSummary::from_connections(&vec![fresh, stale], 1_000, 0);
    // Only the message within the last minute counts as an active flow.
    assert_eq!(s.active_message_flows, 1);
}

#[test]
fn manager_stats_aggregation() {
    let v = vec![stats(0, true, 4, 40, 1), stats(1, false, 6, 60, 2)];
    let m = aggregate_manager_stats(&v, 9);
    assert_eq!(m.total_symbols, 10);
    assert_eq!(m.active_connections, 1);
    assert_eq!(m.total_messages_received, 100);
    assert_eq!(m.total_messages_parsed, 100);
    assert_eq!(m.total_errors, 3);
    assert_eq!(m.uptime, 9);
    assert_eq!(m.connection_stats.len(), 2);
    assert_eq!(m.connection_stats[1].symbol_count, 6);
}

#[test]
fn heartbeat_liveness_window() {
    // A session fed only heartbeats stays alive: the frame watcher
    // records every inbound frame in last_ping.
    let mut c = ManagedConnection::new(ChannelId::Connection1);
    c.heartbeat_liveness_threshold = 5;
    c.last_ping = 1_000;
    assert!(c.frame_seen_recently(1_003));
    assert!(c.frame_seen_recently(1_005));
    assert!(!c.frame_seen_recently(1_006));
    // Before any frame arrived the connection does not count as alive.
    c.last_ping = 0;
    assert!(!c.frame_seen_recently(1_000));
}

#[test]
fn subscriber_table_operations() {
    let mut s = KiteTickerSubscriber::new(&[1, 2], Some(Mode::LTP));
    let mut owned = s.get_subscribed();
    owned.sort();
    assert_eq!(owned, vec![1, 2]);

    // Subscribing again only sends requests for the new tokens.
    let reqs = s.subscribe(&[2, 3], Some(Mode::Full));
    assert_eq!(reqs.len(), 2);
    assert_eq!(reqs[0].a, RequestActions::Subscribe);
    assert_eq!(reqs[0].tokens, vec![3]);
    assert_eq!(reqs[1].a, RequestActions::Mode);
    assert_eq!(reqs[1].mode, Some(Mode::Full));

    // Nothing new: nothing to send.
    let reqs = s.subscribe(&[1], None);
    assert!(reqs.is_empty());

    // A mode change is narrowed to owned tokens.
    let reqs = s.set_mode(&[3, 99], Mode::Quote);
    assert_eq!(reqs.len(), 1);
    assert_eq!(reqs[0].a, RequestActions::Mode);
    assert_eq!(reqs[0].tokens, vec![3]);

    // An empty unsubscribe gives up every owned token.
    let reqs = s.unsubscribe(&[]);
    assert_eq!(reqs.len(), 1);
    assert_eq!(reqs[0].a, RequestActions::Unsubscribe);
    let mut gone = reqs[0].tokens.clone();
    gone.sort();
    assert_eq!(gone, vec![1, 2, 3]);
    assert!(s.get_subscribed().is_empty());
}

#[test]
fn api_key_stats_aggregation() {
    let v = vec![stats(0, true, 4, 40, 1), stats(1, true, 6, 60, 0)];
    let a = aggregate_api_key_stats("account1".to_string(), 10, &v);
    assert_eq!(a.api_key_id, "account1");
    assert_eq!(a.total_symbols, 10);
    assert_eq!(a.active_connections, 2);
    assert_eq!(a.total_messages_received, 100);
    assert_eq!(a.total_errors, 1);
    assert_eq!(a.connection_stats.len(), 2);
}
