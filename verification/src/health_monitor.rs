use vstd::prelude::*;

use crate::config::{ApiKeyStats, ConnectionStats, ManagerStats};

verus! {

/// The number of connected entries in a list of connection statistics.
pub open spec fn count_connected(s: Seq<ConnectionStats>) -> int
    decreases s.len(),
{
    if s.len() == 0 {
        0
    } else {
        count_connected(s.drop_last()) + if s.last().is_connected {
            1int
        } else {
            0int
        }
    }
}

/// The symbols held across a list of connection statistics.
pub open spec fn sum_symbols(s: Seq<ConnectionStats>) -> int
    decreases s.len(),
{
    if s.len() == 0 {
        0
    } else {
        sum_symbols(s.drop_last()) + s.last().symbol_count
    }
}

/// The messages received across a list of connection statistics.
pub open spec fn sum_received(s: Seq<ConnectionStats>) -> int
    decreases s.len(),
{
    if s.len() == 0 {
        0
    } else {
        sum_received(s.drop_last()) + s.last().messages_received
    }
}

/// The messages parsed across a list of connection statistics.
pub open spec fn sum_parsed(s: Seq<ConnectionStats>) -> int
    decreases s.len(),
{
    if s.len() == 0 {
        0
    } else {
        sum_parsed(s.drop_last()) + s.last().messages_parsed
    }
}

/// The errors counted across a list of connection statistics.
pub open spec fn sum_errors(s: Seq<ConnectionStats>) -> int
    decreases s.len(),
{
    if s.len() == 0 {
        0
    } else {
        sum_errors(s.drop_last()) + s.last().errors_count
    }
}

/// Whether a connection has an active message flow at the given time: its
/// last parsed message arrived within the last minute.
pub open spec fn flow_active(st: ConnectionStats, now: u64) -> bool {
    st.last_message_time matches Some(t) && t <= now && now - t < 60
}

/// The number of active message flows in a list of connection statistics.
pub open spec fn count_active_flows(s: Seq<ConnectionStats>, now: u64) -> int
    decreases s.len(),
{
    if s.len() == 0 {
        0
    } else {
        count_active_flows(s.drop_last(), now) + if flow_active(s.last(), now) {
            1int
        } else {
            0int
        }
    }
}

/// A total clamped to what a u64 can hold: adding the counters with
/// saturating arithmetic yields exactly this.
pub open spec fn clamp_u64(x: int) -> int {
    if x <= u64::MAX {
        x
    } else {
        u64::MAX as int
    }
}

/// A total clamped to what a usize can hold.
pub open spec fn clamp_usize(x: int) -> int {
    if x <= usize::MAX {
        x
    } else {
        usize::MAX as int
    }
}

/// A quick health summary of all connections. The uptime is in seconds.
#[derive(Debug, Clone, PartialEq, Eq)]
pub struct HealthSummary {
    pub healthy_connections: usize,
    pub unhealthy_connections: Vec<usize>,
    pub total_symbols: usize,
    pub total_messages: u64,
    pub total_errors: u64,
    pub active_message_flows: usize,
    pub uptime: u64,
}

impl HealthSummary {
    /// The system is healthy when every connection is up and nothing has
    /// errored.
    pub fn is_healthy(&self) -> (r: bool)
        ensures
            r == (self.unhealthy_connections@.len() == 0 && self.total_errors == 0),
    {
        self.unhealthy_connections.len() == 0 && self.total_errors == 0
    }

    /// The system is degraded when some, but not all, connections are
    /// down.
    pub fn is_degraded(&self) -> (r: bool)
        ensures
            r == (self.unhealthy_connections@.len() > 0 && self.healthy_connections > 0),
    {
        self.unhealthy_connections.len() > 0 && self.healthy_connections > 0
    }

    /// The system is critical when no connection is up.
    pub fn is_critical(&self) -> (r: bool)
        ensures
            r == (self.healthy_connections == 0),
    {
        self.healthy_connections == 0
    }

    /// Summarize a snapshot of per-connection statistics taken at the
    /// given time: connected connections count as healthy, the indices of
    /// the others are listed in order, and the totals are added up.
    pub fn from_connections(stats: &Vec<ConnectionStats>, now: u64, uptime: u64) -> (r:
        HealthSummary)
        ensures
            r.healthy_connections == count_connected(stats@),
            r.unhealthy_connections@.len() + r.healthy_connections == stats@.len(),
            forall|j: int|
                0 <= j < r.unhealthy_connections@.len() ==> {
                    let i = (#[trigger] r.unhealthy_connections@[j]) as int;
                    0 <= i < stats@.len() && !stats@[i].is_connected
                },
            forall|i: int|
                0 <= i < stats@.len() && !(#[trigger] stats@[i]).is_connected
                    ==> r.unhealthy_connections@.contains(i as usize),
            r.total_symbols == clamp_usize(sum_symbols(stats@)),
            r.total_messages == clamp_u64(sum_received(stats@)),
            r.total_errors == clamp_u64(sum_errors(stats@)),
            r.active_message_flows == count_active_flows(stats@, now),
            r.uptime == uptime,
    {
        let n = stats.len();
        let mut healthy: usize = 0;
        let mut unhealthy: Vec<usize> = Vec::new();
        let mut symbols: usize = 0;
        let mut messages: u64 = 0;
        let mut errors: u64 = 0;
        let mut flows: usize = 0;
        let mut i: usize = 0;
        while i < n
            invariant
                i <= n,
                n == stats@.len(),
                healthy == count_connected(stats@.subrange(0, i as int)),
                unhealthy@.len() + healthy == i,
                forall|j: int|
                    0 <= j < unhealthy@.len() ==> {
                        let k = (#[trigger] unhealthy@[j]) as int;
                        0 <= k < i && !stats@[k].is_connected
                    },
                forall|k: int|
                    0 <= k < i && !(#[trigger] stats@[k]).is_connected ==> unhealthy@.contains(
                        k as usize,
                    ),
                symbols == clamp_usize(sum_symbols(stats@.subrange(0, i as int))),
                messages == clamp_u64(sum_received(stats@.subrange(0, i as int))),
                errors == clamp_u64(sum_errors(stats@.subrange(0, i as int))),
                flows == count_active_flows(stats@.subrange(0, i as int), now),
                flows <= i,
            decreases n - i,
        {
            proof {
                lemma_sums_nonneg(stats@.subrange(0, i as int));
                assert(stats@.subrange(0, i + 1).drop_last() =~= stats@.subrange(0, i as int));
                assert(stats@.subrange(0, i + 1).last() == stats@[i as int]);
            }
            let st = &stats[i];
            if st.is_connected {
                healthy = healthy + 1;
            } else {
                let ghost un0 = unhealthy@;
                unhealthy.push(i);
                proof {
                    assert forall|k: int|
                        0 <= k < i + 1 && !(#[trigger] stats@[k]).is_connected
                            implies unhealthy@.contains(k as usize) by {
                        if k < i {
                            assert(un0.contains(k as usize));
                            let j = choose|j: int| 0 <= j < un0.len() && un0[j] == k as usize;
                            assert(unhealthy@[j] == k as usize);
                        } else {
                            assert(unhealthy@[un0.len() as int] == i);
                        }
                    }
                }
            }
            symbols = if symbols > usize::MAX - st.symbol_count {
                usize::MAX
            } else {
                symbols + st.symbol_count
            };
            messages = if messages > u64::MAX - st.messages_received {
                u64::MAX
            } else {
                messages + st.messages_received
            };
            errors = if errors > u64::MAX - st.errors_count {
                u64::MAX
            } else {
                errors + st.errors_count
            };
            let flow = match st.last_message_time {
                Some(t) => t <= now && now - t < 60,
                None => false,
            };
            if flow {
                flows = flows + 1;
            }
            i = i + 1;
        }
        proof {
            assert(stats@.subrange(0, n as int) =~= stats@);
        }
        HealthSummary {
            healthy_connections: healthy,
            unhealthy_connections: unhealthy,
            total_symbols: symbols,
            total_messages: messages,
            total_errors: errors,
            active_message_flows: flows,
            uptime,
        }
    }
}

/// Every total is non-negative, and the flow count at any time too.
proof fn lemma_sums_nonneg(s: Seq<ConnectionStats>)
    ensures
        sum_symbols(s) >= 0,
        sum_received(s) >= 0,
        sum_errors(s) >= 0,
        count_connected(s) >= 0,
    decreases s.len(),
{
    if s.len() > 0 {
        lemma_sums_nonneg(s.drop_last());
    }
}

/// Build the manager-wide statistics from a snapshot of per-connection
/// statistics: totals added up, connected connections counted, the
/// snapshot kept.
pub fn aggregate_manager_stats(stats: &Vec<ConnectionStats>, uptime: u64) -> (r: ManagerStats)
    ensures
        r.total_symbols == clamp_usize(sum_symbols(stats@)),
        r.active_connections == count_connected(stats@),
        r.total_messages_received == clamp_u64(sum_received(stats@)),
        r.total_messages_parsed == clamp_u64(sum_parsed(stats@)),
        r.total_errors == clamp_u64(sum_errors(stats@)),
        r.uptime == uptime,
        r.connection_stats@ == stats@,
{
    let n = stats.len();
    let mut active: usize = 0;
    let mut symbols: usize = 0;
    let mut received: u64 = 0;
    let mut parsed: u64 = 0;
    let mut errors: u64 = 0;
    let mut copies: Vec<ConnectionStats> = Vec::new();
    let mut i: usize = 0;
    while i < n
        invariant
            i <= n,
            n == stats@.len(),
            active == count_connected(stats@.subrange(0, i as int)),
            active <= i,
            symbols == clamp_usize(sum_symbols(stats@.subrange(0, i as int))),
            received == clamp_u64(sum_received(stats@.subrange(0, i as int))),
            parsed == clamp_u64(sum_parsed(stats@.subrange(0, i as int))),
            errors == clamp_u64(sum_errors(stats@.subrange(0, i as int))),
            copies@ =~= stats@.subrange(0, i as int),
        decreases n - i,
    {
        proof {
            lemma_sums_nonneg(stats@.subrange(0, i as int));
            lemma_parsed_nonneg(stats@.subrange(0, i as int));
            assert(stats@.subrange(0, i + 1).drop_last() =~= stats@.subrange(0, i as int));
            assert(stats@.subrange(0, i + 1).last() == stats@[i as int]);
        }
        let st = &stats[i];
        if st.is_connected {
            active = active + 1;
        }
        symbols = if symbols > usize::MAX - st.symbol_count {
            usize::MAX
        } else {
            symbols + st.symbol_count
        };
        received = if received > u64::MAX - st.messages_received {
            u64::MAX
        } else {
            received + st.messages_received
        };
        parsed = if parsed > u64::MAX - st.messages_parsed {
            u64::MAX
        } else {
            parsed + st.messages_parsed
        };
        errors = if errors > u64::MAX - st.errors_count {
            u64::MAX
        } else {
            errors + st.errors_count
        };
        copies.push(*st);
        proof {
            assert(copies@ =~= stats@.subrange(0, i + 1));
        }
        i = i + 1;
    }
    proof {
        assert(stats@.subrange(0, n as int) =~= stats@);
    }
    ManagerStats {
        total_symbols: symbols,
        active_connections: active,
        total_messages_received: received,
        total_messages_parsed: parsed,
        total_errors: errors,
        uptime,
        connection_stats: copies,
    }
}

/// Build one API key's statistics from a snapshot of its connections'
/// statistics: totals added up, connected connections counted, the
/// snapshot kept.
pub fn aggregate_api_key_stats(
    api_key_id: String,
    total_symbols: usize,
    stats: &Vec<ConnectionStats>,
) -> (r: ApiKeyStats)
    ensures
        r.api_key_id@ == api_key_id@,
        r.total_symbols == total_symbols,
        r.active_connections == count_connected(stats@),
        r.total_messages_received == clamp_u64(sum_received(stats@)),
        r.total_messages_parsed == clamp_u64(sum_parsed(stats@)),
        r.total_errors == clamp_u64(sum_errors(stats@)),
        r.connection_stats@ == stats@,
{
    let n = stats.len();
    let mut active: usize = 0;
    let mut received: u64 = 0;
    let mut parsed: u64 = 0;
    let mut errors: u64 = 0;
    let mut copies: Vec<ConnectionStats> = Vec::new();
    let mut i: usize = 0;
    while i < n
        invariant
            i <= n,
            n == stats@.len(),
            active == count_connected(stats@.subrange(0, i as int)),
            active <= i,
            received == clamp_u64(sum_received(stats@.subrange(0, i as int))),
            parsed == clamp_u64(sum_parsed(stats@.subrange(0, i as int))),
            errors == clamp_u64(sum_errors(stats@.subrange(0, i as int))),
            copies@ =~= stats@.subrange(0, i as int),
        decreases n - i,
    {
        proof {
            lemma_sums_nonneg(stats@.subrange(0, i as int));
            lemma_parsed_nonneg(stats@.subrange(0, i as int));
            assert(stats@.subrange(0, i + 1).drop_last() =~= stats@.subrange(0, i as int));
            assert(stats@.subrange(0, i + 1).last() == stats@[i as int]);
        }
        let st = &stats[i];
        if st.is_connected {
            active = active + 1;
        }
        received = if received > u64::MAX - st.messages_received {
            u64::MAX
        } else {
            received + st.messages_received
        };
        parsed = if parsed > u64::MAX - st.messages_parsed {
            u64::MAX
        } else {
            parsed + st.messages_parsed
        };
        errors = if errors > u64::MAX - st.errors_count {
            u64::MAX
        } else {
            errors + st.errors_count
        };
        copies.push(*st);
        proof {
            assert(copies@ =~= stats@.subrange(0, i + 1));
        }
        i = i + 1;
    }
    proof {
        assert(stats@.subrange(0, n as int) =~= stats@);
    }
    ApiKeyStats {
        api_key_id,
        active_connections: active,
        total_symbols,
        total_messages_received: received,
        total_messages_parsed: parsed,
        total_errors: errors,
        connection_stats: copies,
    }
}

/// The parsed-message total is non-negative.
proof fn lemma_parsed_nonneg(s: Seq<ConnectionStats>)
    ensures
        sum_parsed(s) >= 0,
    decreases s.len(),
{
    if s.len() > 0 {
        lemma_parsed_nonneg(s.drop_last());
    }
}

} // verus!
