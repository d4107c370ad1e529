use vstd::prelude::*;

use crate::config::{channel_index, ChannelId, KiteManagerConfig};
use crate::connection_pool::ManagedConnection;
use crate::mode::Mode;
use std::collections::HashMap;
use vstd::std_specs::iter::IteratorSpec;

verus! {

broadcast use vstd::std_specs::hash::group_hash_axioms;

/// The mathematical state of the multi-connection manager: one symbol
/// table per connection, the global token-to-connection index, the
/// round-robin cursor, and the per-connection capacity.
pub ghost struct ManagerModel {
    pub tables: Seq<Map<u32, Mode>>,
    pub mapping: Map<u32, int>,
    pub cursor: int,
    pub cap: int,
}

/// A well-formed manager state: the cursor points at a connection, the
/// global index and the tables agree (every indexed token sits in exactly
/// the table the index names, and every table entry is indexed), and no
/// table exceeds the capacity.
pub open spec fn wf_model(m: ManagerModel) -> bool {
    &&& m.tables.len() > 0
    &&& 0 <= m.cursor < m.tables.len()
    &&& m.cap >= 0
    &&& m.mapping.dom().finite()
    &&& forall|t: u32| #[trigger]
        m.mapping.contains_key(t) ==> 0 <= m.mapping[t] < m.tables.len()
            && m.tables[m.mapping[t]].contains_key(t)
    &&& forall|i: int, t: u32|
        0 <= i < m.tables.len() && (#[trigger] m.tables[i].contains_key(t))
            ==> m.mapping.contains_key(t) && m.mapping[t] == i
    &&& forall|i: int|
        0 <= i < m.tables.len() ==> (#[trigger] m.tables[i]).dom().finite()
            && m.tables[i].dom().len() <= m.cap
}

/// The connection the round-robin scan picks, starting `k` steps past the
/// cursor: the first connection with room under the capacity, scanning at
/// most one full cycle.
pub open spec fn rr_scan(tables: Seq<Map<u32, Mode>>, cursor: int, cap: int, k: int) -> Option<
    int,
>
    decreases tables.len() - k,
{
    if k >= tables.len() || k < 0 {
        None
    } else {
        let idx = (cursor + k) % (tables.len() as int);
        if tables[idx].dom().len() < cap {
            Some(idx)
        } else {
            rr_scan(tables, cursor, cap, k + 1)
        }
    }
}

/// The connection the round-robin policy assigns next: the first
/// connection at or after the cursor with room under the capacity.
pub open spec fn rr_pick(tables: Seq<Map<u32, Mode>>, cursor: int, cap: int) -> Option<int> {
    rr_scan(tables, cursor, cap, 0)
}

/// Placing one token: a token already indexed is left where it is; a new
/// token goes to the connection the round-robin policy picks, which
/// advances the cursor; placement fails if no connection has room.
pub open spec fn place_token(m: ManagerModel, t: u32, mode: Mode) -> (ManagerModel, bool) {
    if m.mapping.contains_key(t) {
        (m, true)
    } else {
        match rr_pick(m.tables, m.cursor, m.cap) {
            None => (m, false),
            Some(i) => (
                ManagerModel {
                    tables: m.tables.update(i, m.tables[i].insert(t, mode)),
                    mapping: m.mapping.insert(t, i),
                    cursor: (i + 1) % (m.tables.len() as int),
                    cap: m.cap,
                },
                true,
            ),
        }
    }
}

/// Placing a list of tokens, stopping at the first failure: yields the
/// resulting state, whether every token was placed, and the
/// (token, connection) pairs actually placed, in order.
pub open spec fn subscribe_fold(m: ManagerModel, ts: Seq<u32>, mode: Mode) -> (
    ManagerModel,
    bool,
    Seq<(u32, int)>,
)
    decreases ts.len(),
{
    if ts.len() == 0 {
        (m, true, Seq::empty())
    } else {
        let stepped = place_token(m, ts[0], mode);
        if !stepped.1 {
            (stepped.0, false, Seq::empty())
        } else {
            let pair: Seq<(u32, int)> = if m.mapping.contains_key(ts[0]) {
                Seq::empty()
            } else {
                seq![(ts[0], rr_pick(m.tables, m.cursor, m.cap).unwrap())]
            };
            let rest = subscribe_fold(stepped.0, ts.drop_first(), mode);
            (rest.0, rest.1, pair + rest.2)
        }
    }
}

/// Removing one token: an indexed token leaves its connection's table and
/// the global index; an unknown token changes nothing.
pub open spec fn remove_token(m: ManagerModel, t: u32) -> ManagerModel {
    if m.mapping.contains_key(t) {
        let i = m.mapping[t];
        ManagerModel {
            tables: m.tables.update(i, m.tables[i].remove(t)),
            mapping: m.mapping.remove(t),
            ..m
        }
    } else {
        m
    }
}

/// Removing a list of tokens: yields the resulting state and the
/// (token, connection) pairs actually removed, in order.
pub open spec fn unsubscribe_fold(m: ManagerModel, ts: Seq<u32>) -> (ManagerModel, Seq<(u32, int)>)
    decreases ts.len(),
{
    if ts.len() == 0 {
        (m, Seq::empty())
    } else {
        let pair: Seq<(u32, int)> = if m.mapping.contains_key(ts[0]) {
            seq![(ts[0], m.mapping[ts[0]])]
        } else {
            Seq::empty()
        };
        let rest = unsubscribe_fold(remove_token(m, ts[0]), ts.drop_first());
        (rest.0, pair + rest.1)
    }
}

/// Changing one token's mode: an indexed token's table entry takes the new
/// mode; an unknown token changes nothing.
pub open spec fn setmode_token(m: ManagerModel, t: u32, mode: Mode) -> ManagerModel {
    if m.mapping.contains_key(t) {
        let i = m.mapping[t];
        ManagerModel { tables: m.tables.update(i, m.tables[i].insert(t, mode)), ..m }
    } else {
        m
    }
}

/// Changing the mode of a list of tokens: yields the resulting state and
/// the (token, connection) pairs actually changed, in order.
pub open spec fn change_mode_fold(m: ManagerModel, ts: Seq<u32>, mode: Mode) -> (
    ManagerModel,
    Seq<(u32, int)>,
)
    decreases ts.len(),
{
    if ts.len() == 0 {
        (m, Seq::empty())
    } else {
        let pair: Seq<(u32, int)> = if m.mapping.contains_key(ts[0]) {
            seq![(ts[0], m.mapping[ts[0]])]
        } else {
            Seq::empty()
        };
        let rest = change_mode_fold(setmode_token(m, ts[0], mode), ts.drop_first(), mode);
        (rest.0, pair + rest.1)
    }
}

/// The tokens among a list of placement pairs that landed on one
/// connection, in order.
pub open spec fn assigned_tokens(pairs: Seq<(u32, int)>, i: int) -> Seq<u32>
    decreases pairs.len(),
{
    if pairs.len() == 0 {
        Seq::empty()
    } else if pairs[0].1 == i {
        seq![pairs[0].0] + assigned_tokens(pairs.drop_first(), i)
    } else {
        assigned_tokens(pairs.drop_first(), i)
    }
}

/// A list of executable placement pairs, as the model sees it.
pub open spec fn pairs_view(s: Seq<(u32, usize)>) -> Seq<(u32, int)> {
    s.map_values(|p: (u32, usize)| (p.0, p.1 as int))
}

/// The per-connection grouping of a list of placement pairs, from
/// connection `i` up: one entry per connection that received tokens, in
/// connection order, carrying the tokens in placement order and whether
/// that connection's table was empty before the operation.
pub open spec fn plan_spec(
    pairs: Seq<(u32, int)>,
    tables0: Seq<Map<u32, Mode>>,
    i: int,
    n: int,
) -> Seq<(ChannelId, Seq<u32>, bool)>
    decreases n - i,
{
    if i >= n {
        Seq::empty()
    } else {
        let g = assigned_tokens(pairs, i);
        let rest = plan_spec(pairs, tables0, i + 1, n);
        if g.len() > 0 {
            seq![(channel_of(i), g, tables0[i].dom().len() == 0)] + rest
        } else {
            rest
        }
    }
}

/// An executable plan carries exactly the entries of a spec-level plan.
pub open spec fn plan_matches_vec(
    plan: Seq<(ChannelId, Vec<u32>, bool)>,
    sp: Seq<(ChannelId, Seq<u32>, bool)>,
) -> bool {
    &&& plan.len() == sp.len()
    &&& forall|k: int|
        0 <= k < plan.len() ==> (#[trigger] plan[k]).0 == sp[k].0 && plan[k].1@ == sp[k].1
            && plan[k].2 == sp[k].2
}

/// The per-connection grouping of a list of (token, connection) pairs:
/// one entry per connection that has tokens, in connection order,
/// carrying the tokens in pair order.
pub open spec fn group_plan_spec(pairs: Seq<(u32, int)>, i: int, n: int) -> Seq<
    (ChannelId, Seq<u32>),
>
    decreases n - i,
{
    if i >= n {
        Seq::empty()
    } else {
        let g = assigned_tokens(pairs, i);
        let rest = group_plan_spec(pairs, i + 1, n);
        if g.len() > 0 {
            seq![(channel_of(i), g)] + rest
        } else {
            rest
        }
    }
}

/// An executable grouping carries exactly the entries of a spec-level
/// grouping.
pub open spec fn group_matches_vec(
    plan: Seq<(ChannelId, Vec<u32>)>,
    sp: Seq<(ChannelId, Seq<u32>)>,
) -> bool {
    &&& plan.len() == sp.len()
    &&& forall|k: int|
        0 <= k < plan.len() ==> (#[trigger] plan[k]).0 == sp[k].0 && plan[k].1@ == sp[k].1
}

/// The channel identifier of a connection index below three.
pub open spec fn channel_of(i: int) -> ChannelId {
    if i == 0 {
        ChannelId::Connection1
    } else if i == 1 {
        ChannelId::Connection2
    } else {
        ChannelId::Connection3
    }
}

/// Builder for the multi-connection manager, with a fluent setter for
/// each configuration knob.
#[derive(Debug, Clone)]
pub struct KiteTickerManagerBuilder {
    pub api_key: String,
    pub access_token: String,
    pub config: KiteManagerConfig,
    pub raw_only: bool,
}

impl KiteTickerManagerBuilder {
    /// A builder holding the mandatory credentials and the default
    /// configuration.
    pub fn new(api_key: String, access_token: String) -> (r: Self)
        ensures
            r.api_key@ == api_key@,
            r.access_token@ == access_token@,
            r.config == crate::config::default_kite_config(),
            !r.raw_only,
    {
        Self {
            api_key,
            access_token,
            config: KiteManagerConfig::default(),
            raw_only: false,
        }
    }

    pub fn max_connections(self, n: usize) -> (r: Self)
        ensures
            r == (Self {
                config: KiteManagerConfig { max_connections: n, ..self.config },
                ..self
            }),
    {
        Self { config: KiteManagerConfig { max_connections: n, ..self.config }, ..self }
    }

    pub fn max_symbols_per_connection(self, n: usize) -> (r: Self)
        ensures
            r == (Self {
                config: KiteManagerConfig { max_symbols_per_connection: n, ..self.config },
                ..self
            }),
    {
        Self {
            config: KiteManagerConfig { max_symbols_per_connection: n, ..self.config },
            ..self
        }
    }

    /// The connect timeout, in seconds.
    pub fn connection_timeout(self, d: u64) -> (r: Self)
        ensures
            r == (Self {
                config: KiteManagerConfig { connection_timeout: d, ..self.config },
                ..self
            }),
    {
        Self { config: KiteManagerConfig { connection_timeout: d, ..self.config }, ..self }
    }

    /// The health-check interval, in seconds.
    pub fn health_check_interval(self, d: u64) -> (r: Self)
        ensures
            r == (Self {
                config: KiteManagerConfig { health_check_interval: d, ..self.config },
                ..self
            }),
    {
        Self { config: KiteManagerConfig { health_check_interval: d, ..self.config }, ..self }
    }

    pub fn reconnect_attempts(self, attempts: usize) -> (r: Self)
        ensures
            r == (Self {
                config: KiteManagerConfig { max_reconnect_attempts: attempts, ..self.config },
                ..self
            }),
    {
        Self {
            config: KiteManagerConfig { max_reconnect_attempts: attempts, ..self.config },
            ..self
        }
    }

    /// The delay between reconnection attempts, in seconds.
    pub fn reconnect_delay(self, d: u64) -> (r: Self)
        ensures
            r == (Self {
                config: KiteManagerConfig { reconnect_delay: d, ..self.config },
                ..self
            }),
    {
        Self { config: KiteManagerConfig { reconnect_delay: d, ..self.config }, ..self }
    }

    pub fn enable_dedicated_parsers(self, enable: bool) -> (r: Self)
        ensures
            r == (Self {
                config: KiteManagerConfig { enable_dedicated_parsers: enable, ..self.config },
                ..self
            }),
    {
        Self {
            config: KiteManagerConfig { enable_dedicated_parsers: enable, ..self.config },
            ..self
        }
    }

    pub fn default_mode(self, mode: Mode) -> (r: Self)
        ensures
            r == (Self {
                config: KiteManagerConfig { default_mode: mode, ..self.config },
                ..self
            }),
    {
        Self { config: KiteManagerConfig { default_mode: mode, ..self.config }, ..self }
    }

    /// The liveness window, in seconds.
    pub fn heartbeat_liveness_threshold(self, d: u64) -> (r: Self)
        ensures
            r == (Self {
                config: KiteManagerConfig { heartbeat_liveness_threshold: d, ..self.config },
                ..self
            }),
    {
        Self {
            config: KiteManagerConfig { heartbeat_liveness_threshold: d, ..self.config },
            ..self
        }
    }

    pub fn connection_buffer_size(self, sz: usize) -> (r: Self)
        ensures
            r == (Self {
                config: KiteManagerConfig { connection_buffer_size: sz, ..self.config },
                ..self
            }),
    {
        Self { config: KiteManagerConfig { connection_buffer_size: sz, ..self.config }, ..self }
    }

    pub fn parser_buffer_size(self, sz: usize) -> (r: Self)
        ensures
            r == (Self {
                config: KiteManagerConfig { parser_buffer_size: sz, ..self.config },
                ..self
            }),
    {
        Self { config: KiteManagerConfig { parser_buffer_size: sz, ..self.config }, ..self }
    }

    pub fn raw_only(self, raw: bool) -> (r: Self)
        ensures
            r == (Self { raw_only: raw, ..self }),
    {
        Self { raw_only: raw, ..self }
    }

    /// Replace the whole configuration.
    pub fn config(self, config: KiteManagerConfig) -> (r: Self)
        ensures
            r == (Self { config: config, ..self }),
    {
        Self { config, ..self }
    }

    /// Build the manager; it is not started yet.
    pub fn build(self) -> (r: KiteTickerManager)
        ensures
            r.config == self.config,
            r.raw_only == self.raw_only,
            !r.started,
            r.connections@.len() == 0,
            r.mapping_view() == Map::<u32, int>::empty(),
            r.wf(),
    {
        KiteTickerManager::new(self.api_key, self.access_token, self.config).with_raw_only(
            self.raw_only,
        )
    }
}

/// The multi-connection manager's control state: the configuration, one
/// managed connection per slot, the global symbol index, and the
/// round-robin cursor. The sessions' I/O lives outside the library; this
/// state decides where every symbol goes.
#[derive(Debug)]
pub struct KiteTickerManager {
    pub config: KiteManagerConfig,
    pub api_key: String,
    pub access_token: String,
    pub connections: Vec<ManagedConnection>,
    pub symbol_mapping: HashMap<u32, usize>,
    pub next_connection_index: usize,
    pub raw_only: bool,
    pub started: bool,
}

impl KiteTickerManager {
    /// The global symbol index, as a map to connection indices.
    pub open spec fn mapping_view(&self) -> Map<u32, int> {
        self.symbol_mapping@.map_values(|v: usize| v as int)
    }

    /// The manager's mathematical state.
    pub open spec fn model(&self) -> ManagerModel {
        ManagerModel {
            tables: self.connections@.map_values(|c: ManagedConnection| c.subscribed_symbols@),
            mapping: self.mapping_view(),
            cursor: self.next_connection_index as int,
            cap: self.config.max_symbols_per_connection as int,
        }
    }

    /// A well-formed manager: before start it is empty; after start it
    /// holds exactly the configured connections, numbered in order, and
    /// its model is well-formed.
    pub open spec fn wf(&self) -> bool {
        &&& !self.started ==> self.connections@.len() == 0 && self.mapping_view()
            == Map::<u32, int>::empty()
        &&& self.started ==> {
            &&& self.connections@.len() == self.config.max_connections
            &&& self.config.max_connections >= 1
            &&& self.config.max_connections <= 3
            &&& wf_model(self.model())
            &&& forall|i: int|
                0 <= i < self.connections@.len() ==> channel_index(
                    (#[trigger] self.connections@[i]).id,
                ) == i
        }
    }

    /// A manager that is configured but not yet started: no connections,
    /// no symbols.
    pub fn new(api_key: String, access_token: String, config: KiteManagerConfig) -> (r: Self)
        ensures
            r.config == config,
            r.api_key@ == api_key@,
            r.access_token@ == access_token@,
            !r.started,
            !r.raw_only,
            r.connections@.len() == 0,
            r.mapping_view() == Map::<u32, int>::empty(),
            r.wf(),
    {
        let r = KiteTickerManager {
            config,
            api_key,
            access_token,
            connections: Vec::new(),
            symbol_mapping: HashMap::new(),
            next_connection_index: 0,
            raw_only: false,
            started: false,
        };
        proof {
            assert(r.mapping_view() =~= Map::<u32, int>::empty());
        }
        r
    }

    /// Set raw-only mode; the builder uses this.
    pub fn with_raw_only(self, raw: bool) -> (r: Self)
        ensures
            r == (Self { raw_only: raw, ..self }),
    {
        Self { raw_only: raw, ..self }
    }

    /// Create the configured connections, empty and numbered in order.
    /// Fails when the configuration asks for no connection or for more
    /// than the three the protocol allows; the caller then sees the
    /// manager unstarted. Establishing the sessions, parsers and monitors
    /// around these slots is the caller's work.
    pub fn start(&mut self) -> (r: Result<(), String>)
        requires
            old(self).wf(),
            !old(self).started,
        ensures
            final(self).wf(),
            r is Ok <==> (1 <= old(self).config.max_connections <= 3),
            r is Ok ==> {
                &&& final(self).started
                &&& final(self).connections@.len() == old(self).config.max_connections
                &&& forall|i: int|
                    0 <= i < final(self).connections@.len() ==> (#[trigger] final(self).connections@[i]).subscribed_symbols@ == Map::<u32, Mode>::empty()
                &&& final(self).mapping_view() == Map::<u32, int>::empty()
                &&& final(self).model().cursor == 0
                &&& final(self).config == old(self).config
            },
            r is Err ==> *final(self) == *old(self),
    {
        if self.config.max_connections < 1 || self.config.max_connections > 3 {
            return Err(String::from_str("Invalid connection index"));
        }
        let n = self.config.max_connections;
        let mut connections: Vec<ManagedConnection> = Vec::new();
        let mut i: usize = 0;
        while i < n
            invariant
                i <= n,
                n <= 3,
                connections@.len() == i,
                forall|j: int|
                    0 <= j < i ==> channel_index((#[trigger] connections@[j]).id) == j
                        && connections@[j].subscribed_symbols@ == Map::<u32, Mode>::empty(),
            decreases n - i,
        {
            let cid = match ChannelId::from_index(i) {
                Some(c) => c,
                None => {
                    return Err(String::from_str("Invalid connection index"));
                },
            };
            connections.push(ManagedConnection::new(cid));
            i = i + 1;
        }
        self.connections = connections;
        self.next_connection_index = 0;
        self.started = true;
        proof {
            let m = self.model();
            assert(m.mapping == old(self).mapping_view());
            assert forall|t: u32| !(#[trigger] m.mapping.contains_key(t)) by {
                assert(!Map::<u32, int>::empty().contains_key(t));
            }
            assert forall|i2: int, t: u32|
                !(0 <= i2 < m.tables.len() && (#[trigger] m.tables[i2].contains_key(t))) by {
                if 0 <= i2 < m.tables.len() {
                    assert(m.tables[i2] == self.connections@[i2].subscribed_symbols@);
                }
            }
            assert forall|i2: int|
                0 <= i2 < m.tables.len() implies (#[trigger] m.tables[i2]).dom().finite()
                && m.tables[i2].dom().len() <= m.cap by {
                assert(m.tables[i2] == self.connections@[i2].subscribed_symbols@);
                assert(m.tables[i2] =~= Map::<u32, Mode>::empty());
                assert(m.tables[i2].dom() =~= Set::<u32>::empty());
            }
        }
        Ok(())
    }

    /// Pick the next connection with room, round-robin from the cursor;
    /// on success the cursor moves past the picked connection. Fails,
    /// leaving everything unchanged, exactly when every connection is at
    /// capacity.
    #[verifier::rlimit(100)]
    #[verifier::spinoff_prover]
    fn find_available_connection(&mut self) -> (r: Result<ChannelId, String>)
        requires
            old(self).wf(),
            old(self).started,
        ensures
            final(self).wf(),
            final(self).started,
            final(self).connections == old(self).connections,
            final(self).symbol_mapping == old(self).symbol_mapping,
            final(self).config == old(self).config,
            final(self).api_key == old(self).api_key,
            final(self).access_token == old(self).access_token,
            final(self).raw_only == old(self).raw_only,
            match rr_pick(old(self).model().tables, old(self).model().cursor, old(self).model().cap) {
                Some(i) => r matches Ok(c) && channel_index(c) == i && final(self).model().cursor
                    == (i + 1) % (old(self).model().tables.len() as int),
                None => r is Err && final(self).next_connection_index == old(self).next_connection_index,
            },
    {
        let ghost tables0 = self.model().tables;
        let ghost cursor0 = self.model().cursor;
        let ghost cap = self.model().cap;
        let n = self.config.max_connections;
        proof {
            vstd::arithmetic::div_mod::lemma_small_mod(cursor0 as nat, n as nat);
        }
        let mut k: usize = 0;
        while k < n
            invariant
                self.wf(),
                self.started,
                k <= n,
                n == self.config.max_connections,
                n == self.connections@.len(),
                self.connections == old(self).connections,
                self.symbol_mapping == old(self).symbol_mapping,
                self.config == old(self).config,
                self.api_key == old(self).api_key,
                self.access_token == old(self).access_token,
                self.raw_only == old(self).raw_only,
                tables0 == self.model().tables,
                cap == self.model().cap,
                tables0 == old(self).model().tables,
                cursor0 == old(self).model().cursor,
                cap == old(self).model().cap,
                self.next_connection_index == (cursor0 + k) % (n as int),
                rr_pick(tables0, cursor0, cap) == rr_scan(tables0, cursor0, cap, k as int),
            decreases n - k,
        {
            let ghost mdl0 = self.model();
            let idx = self.next_connection_index;
            let accepts = self.connections[idx].can_accept_symbols(
                1,
                self.config.max_symbols_per_connection,
            );
            proof {
                assert(tables0[idx as int] == self.connections@[idx as int].subscribed_symbols@);
            }
            if accepts {
                let channel_id = self.connections[idx].id;
                self.next_connection_index = (idx + 1) % n;
                proof {
                    vstd::arithmetic::div_mod::lemma_mod_bound((idx + 1) as int, n as int);
                    assert(rr_scan(tables0, cursor0, cap, k as int) == Some(idx as int));
                    lemma_mod_step(cursor0 + k, n as int);
                    assert(self.model() == ManagerModel {
                        cursor: self.next_connection_index as int,
                        ..mdl0
                    });
                    lemma_wf_model_cursor(mdl0, self.next_connection_index as int);
                    assert(rr_pick(tables0, cursor0, cap) == Some(idx as int));
                    assert(channel_index(channel_id) == idx as int);
                    assert(tables0.len() == n);
                    assert(self.model().cursor == ((idx as int) + 1) % (n as int));
                }
                return Ok(channel_id);
            }
            self.next_connection_index = (idx + 1) % n;
            k = k + 1;
            proof {
                vstd::arithmetic::div_mod::lemma_mod_bound((idx + 1) as int, n as int);
                lemma_mod_step(cursor0 + (k - 1), n as int);
                assert(self.model() == ManagerModel {
                    cursor: self.next_connection_index as int,
                    ..mdl0
                });
                lemma_wf_model_cursor(mdl0, self.next_connection_index as int);
            }
        }
        proof {
            assert(rr_scan(tables0, cursor0, cap, n as int) is None);
            assert((cursor0 + n) % (n as int) == cursor0) by {
                assert((n as int) * 1 + cursor0 == cursor0 + n);
                vstd::arithmetic::div_mod::lemma_mod_multiples_vanish(1, cursor0, n as int);
                vstd::arithmetic::div_mod::lemma_small_mod(cursor0 as nat, n as nat);
            }
        }
        Err(String::from_str("All connections are at capacity"))
    }
    /// Place one symbol: skip it when already indexed, otherwise put it
    /// on the connection the round-robin policy picks and name that
    /// connection. Fails, leaving everything unchanged, exactly when the
    /// symbol is new and every connection is full.
    fn place_symbol(&mut self, t: u32, mode: Mode) -> (r: Result<Option<usize>, String>)
        requires
            old(self).wf(),
            old(self).started,
        ensures
            final(self).wf(),
            final(self).started,
            final(self).config == old(self).config,
            final(self).api_key == old(self).api_key,
            final(self).access_token == old(self).access_token,
            final(self).raw_only == old(self).raw_only,
            final(self).connections@.len() == old(self).connections@.len(),
            ({
                let stepped = place_token(old(self).model(), t, mode);
                &&& final(self).model() == stepped.0
                &&& (r is Err <==> !stepped.1)
                &&& (r == Ok::<Option<usize>, String>(None) <==> old(
                    self,
                ).model().mapping.contains_key(t))
                &&& (r matches Ok(Some(idx)) ==> (!old(self).model().mapping.contains_key(t)
                    && Some(idx as int) == rr_pick(
                    old(self).model().tables,
                    old(self).model().cursor,
                    old(self).model().cap,
                )))
            }),
    {
        let ghost m0 = self.model();
        if self.symbol_mapping.contains_key(&t) {
            proof {
                assert(m0.mapping.contains_key(t)) by {
                    assert(self.symbol_mapping@.contains_key(t));
                    assert(m0.mapping.dom() =~= self.symbol_mapping@.dom());
                }
            }
            return Ok(None);
        }
        proof {
            assert(!m0.mapping.contains_key(t)) by {
                assert(!self.symbol_mapping@.contains_key(t));
                assert(m0.mapping.dom() =~= self.symbol_mapping@.dom());
            }
        }
        match self.find_available_connection() {
            Err(e) => {
                proof {
                    assert(rr_pick(m0.tables, m0.cursor, m0.cap) is None);
                    assert(self.model() == m0) by {
                        assert(self.model().tables =~= m0.tables);
                        assert(self.model().mapping =~= m0.mapping);
                    }
                }
                Err(e)
            },
            Ok(cid) => {
                let idx = cid.to_index();
                proof {
                    lemma_rr_scan_props(m0.tables, m0.cursor, m0.cap, 0);
                    assert(idx < self.connections@.len());
                }
                self.symbol_mapping.insert(t, idx);
                self.connections[idx].subscribed_symbols.insert(t, mode);
                proof {
                    let stepped = place_token(m0, t, mode);
                    assert(stepped.1);
                    assert(rr_pick(m0.tables, m0.cursor, m0.cap) == Some(idx as int));
                    assert(self.model().tables =~= stepped.0.tables) by {
                        assert forall|j: int|
                            0 <= j < self.model().tables.len() implies self.model().tables[j]
                            == stepped.0.tables[j] by {
                            if j == idx {
                                assert(self.connections@[j].subscribed_symbols@
                                    =~= m0.tables[j].insert(t, mode));
                            } else {
                                assert(self.connections@[j] == old(self).connections@[j]);
                            }
                        }
                    }
                    assert(self.model().mapping =~= stepped.0.mapping);
                    assert(self.model().cursor == stepped.0.cursor);
                    assert(self.model() == stepped.0);
                    lemma_place_preserves_wf(m0, t, mode);
                    assert(self.wf()) by {
                        assert forall|j: int|
                            0 <= j < self.connections@.len() implies channel_index(
                            (#[trigger] self.connections@[j]).id,
                        ) == j by {
                            if j != idx {
                                assert(self.connections@[j] == old(self).connections@[j]);
                            } else {
                                assert(self.connections@[j].id == old(self).connections@[j].id);
                            }
                        }
                    }
                }
                Ok(Some(idx))
            },
        }
    }

    /// Subscribe to symbols, distributing new ones round-robin over the
    /// connections. Already-subscribed symbols are skipped. On success the
    /// returned plan groups the newly placed tokens by connection, in
    /// connection order, each entry telling whether that connection held
    /// no symbols before (so the caller performs an initial subscribe
    /// there rather than an incremental one). When a connection runs out
    /// of room the call fails, but symbols placed earlier in the walk stay
    /// placed. Fails with everything unchanged when the manager was never
    /// started.
    pub fn subscribe_symbols(&mut self, symbols: &[u32], mode: Option<Mode>) -> (r: Result<
        Vec<(ChannelId, Vec<u32>, bool)>,
        String,
    >)
        requires
            old(self).wf(),
        ensures
            final(self).wf(),
            !old(self).started ==> r is Err && *final(self) == *old(self),
            old(self).started ==> ({
                let dmode = mode.unwrap_or(old(self).config.default_mode);
                let folded = subscribe_fold(old(self).model(), symbols@, dmode);
                &&& final(self).started
                &&& final(self).config == old(self).config
                &&& final(self).connections@.len() == old(self).connections@.len()
                &&& final(self).model() == folded.0
                &&& (r is Ok <==> folded.1)
                &&& (r matches Ok(plan) ==> plan_matches_vec(
                    plan@,
                    plan_spec(
                        folded.2,
                        old(self).model().tables,
                        0,
                        old(self).connections@.len() as int,
                    ),
                ))
            }),
    {
        if !self.started {
            return Err(String::from_str("Manager not started"));
        }
        let dmode = match mode {
            Some(m) => m,
            None => self.config.default_mode,
        };
        let ghost model0 = self.model();
        let ghost tables0 = model0.tables;
        let n = self.config.max_connections;
        let mut was_empty: Vec<bool> = Vec::new();
        let mut ci: usize = 0;
        while ci < n
            invariant
                self.wf(),
                self.started,
                ci <= n,
                n == self.config.max_connections,
                n == self.connections@.len(),
                *self == *old(self),
                model0 == self.model(),
                tables0 == model0.tables,
                was_empty@.len() == ci,
                forall|j: int|
                    0 <= j < ci ==> was_empty@[j] == (tables0[j].dom().len() == 0),
            decreases n - ci,
        {
            let cnt = self.connections[ci].symbol_count();
            proof {
                assert(tables0[ci as int] == self.connections@[ci as int].subscribed_symbols@);
            }
            was_empty.push(cnt == 0);
            ci = ci + 1;
        }
        let mut placed: Vec<(u32, usize)> = Vec::new();
        let mut i: usize = 0;
        let mut failed = false;
        let len = symbols.len();
        proof {
            assert(symbols@.skip(0) =~= symbols@);
            assert(pairs_view(placed@) + subscribe_fold(model0, symbols@, dmode).2
                =~= subscribe_fold(model0, symbols@, dmode).2);
        }
        while i < len && !failed
            invariant
                self.wf(),
                self.started,
                i <= len,
                len == symbols@.len(),
                n == self.config.max_connections,
                n == self.connections@.len(),
                self.config == old(self).config,
                old(self).started,
                dmode == mode.unwrap_or(old(self).config.default_mode),
                model0 == old(self).model(),
                tables0 == model0.tables,
                was_empty@.len() == n,
                forall|j: int|
                    0 <= j < n ==> was_empty@[j] == (tables0[j].dom().len() == 0),
                !failed ==> ({
                    let fold_full = subscribe_fold(model0, symbols@, dmode);
                    let fold_rem = subscribe_fold(self.model(), symbols@.skip(i as int), dmode);
                    &&& fold_full.0 == fold_rem.0
                    &&& fold_full.1 == fold_rem.1
                    &&& fold_full.2 =~= pairs_view(placed@) + fold_rem.2
                }),
                failed ==> ({
                    let fold_full = subscribe_fold(model0, symbols@, dmode);
                    &&& fold_full.0 == self.model()
                    &&& !fold_full.1
                    &&& fold_full.2 =~= pairs_view(placed@)
                }),
            decreases len - i, 1 - (failed as int),
        {
            let t = symbols[i];
            let ghost m_before = self.model();
            let ghost pl0 = placed@;
            proof {
                assert(symbols@.skip(i as int)[0] == symbols@[i as int]);
                assert(symbols@.skip(i as int).drop_first() =~= symbols@.skip(i + 1));
            }
            match self.place_symbol(t, dmode) {
                Err(_) => {
                    failed = true;
                    proof {
                        let stepped = place_token(m_before, t, dmode);
                        assert(subscribe_fold(m_before, symbols@.skip(i as int), dmode) == (
                            stepped.0,
                            false,
                            Seq::<(u32, int)>::empty(),
                        ));
                        assert(pairs_view(pl0) + Seq::<(u32, int)>::empty() =~= pairs_view(pl0));
                    }
                },
                Ok(opt) => {
                    proof {
                        let stepped = place_token(m_before, t, dmode);
                        assert(stepped.1);
                    }
                    match opt {
                        Some(idx) => {
                            placed.push((t, idx));
                            proof {
                                let stepped = place_token(m_before, t, dmode);
                                let rest = subscribe_fold(
                                    stepped.0,
                                    symbols@.skip(i + 1),
                                    dmode,
                                );
                                assert(subscribe_fold(m_before, symbols@.skip(i as int), dmode)
                                    == (rest.0, rest.1, seq![(t, idx as int)] + rest.2));
                                assert(pairs_view(placed@) =~= pairs_view(pl0).push(
                                    (t, idx as int),
                                ));
                                assert(pairs_view(pl0) + (seq![(t, idx as int)] + rest.2)
                                    =~= pairs_view(placed@) + rest.2);
                            }
                        },
                        None => {
                            proof {
                                let stepped = place_token(m_before, t, dmode);
                                let rest = subscribe_fold(
                                    stepped.0,
                                    symbols@.skip(i + 1),
                                    dmode,
                                );
                                assert(stepped.0 == m_before);
                                assert(subscribe_fold(m_before, symbols@.skip(i as int), dmode)
                                    == (rest.0, rest.1, Seq::<(u32, int)>::empty() + rest.2));
                                assert(Seq::<(u32, int)>::empty() + rest.2 =~= rest.2);
                            }
                        },
                    }
                    i = i + 1;
                },
            }
        }
        if failed {
            return Err(String::from_str("All connections are at capacity"));
        }
        proof {
            assert(symbols@.skip(len as int) =~= Seq::<u32>::empty());
            assert(subscribe_fold(self.model(), Seq::<u32>::empty(), dmode) == (
                self.model(),
                true,
                Seq::<(u32, int)>::empty(),
            ));
            assert(pairs_view(placed@) + Seq::<(u32, int)>::empty() =~= pairs_view(placed@));
        }
        let ghost pairs = pairs_view(placed@);
        let mut plan: Vec<(ChannelId, Vec<u32>, bool)> = Vec::new();
        let ghost mut spec_done: Seq<(ChannelId, Seq<u32>, bool)> = Seq::empty();
        let mut idx: usize = 0;
        proof {
            assert(Seq::<(ChannelId, Seq<u32>, bool)>::empty() + plan_spec(pairs, tables0, 0, n as int)
                =~= plan_spec(pairs, tables0, 0, n as int));
        }
        while idx < n
            invariant
                idx <= n,
                n <= 3,
                pairs == pairs_view(placed@),
                was_empty@.len() == n,
                forall|j: int|
                    0 <= j < n ==> was_empty@[j] == (tables0[j].dom().len() == 0),
                plan_spec(pairs, tables0, 0, n as int) =~= spec_done + plan_spec(
                    pairs,
                    tables0,
                    idx as int,
                    n as int,
                ),
                plan_matches_vec(plan@, spec_done),
            decreases n - idx,
        {
            let mut g: Vec<u32> = Vec::new();
            let m = placed.len();
            let mut j: usize = 0;
            proof {
                assert(pairs.skip(0) =~= pairs);
                assert(Seq::<u32>::empty() + assigned_tokens(pairs, idx as int) =~= assigned_tokens(
                    pairs,
                    idx as int,
                ));
            }
            while j < m
                invariant
                    j <= m,
                    m == placed@.len(),
                    pairs == pairs_view(placed@),
                    assigned_tokens(pairs, idx as int) =~= g@ + assigned_tokens(
                        pairs.skip(j as int),
                        idx as int,
                    ),
                decreases m - j,
            {
                proof {
                    assert(pairs.skip(j as int)[0] == pairs[j as int]);
                    assert(pairs[j as int] == (placed@[j as int].0, placed@[j as int].1 as int));
                    assert(pairs.skip(j as int).drop_first() =~= pairs.skip(j + 1));
                }
                if placed[j].1 == idx {
                    g.push(placed[j].0);
                }
                j = j + 1;
            }
            proof {
                assert(pairs.skip(m as int) =~= Seq::<(u32, int)>::empty());
                assert(g@ + Seq::<u32>::empty() =~= g@);
            }
            let ghost entry_g = assigned_tokens(pairs, idx as int);
            if g.len() > 0 {
                let cid = match ChannelId::from_index(idx) {
                    Some(c) => c,
                    None => {
                        proof {
                            assert(false);
                        }
                        ChannelId::Connection1
                    },
                };
                let flag = was_empty[idx];
                plan.push((cid, g, flag));
                proof {
                    let entry = (channel_of(idx as int), entry_g, tables0[idx as int].dom().len()
                        == 0);
                    assert(plan_spec(pairs, tables0, idx as int, n as int) == seq![entry]
                        + plan_spec(pairs, tables0, idx + 1, n as int));
                    assert(spec_done + (seq![entry] + plan_spec(pairs, tables0, idx + 1, n as int))
                        =~= spec_done.push(entry) + plan_spec(pairs, tables0, idx + 1, n as int));
                    spec_done = spec_done.push(entry);
                }
            } else {
                proof {
                    assert(plan_spec(pairs, tables0, idx as int, n as int) == plan_spec(
                        pairs,
                        tables0,
                        idx + 1,
                        n as int,
                    ));
                }
            }
            idx = idx + 1;
        }
        proof {
            assert(plan_spec(pairs, tables0, n as int, n as int)
                =~= Seq::<(ChannelId, Seq<u32>, bool)>::empty());
            assert(spec_done + Seq::<(ChannelId, Seq<u32>, bool)>::empty() =~= spec_done);
            assert(spec_done =~= plan_spec(pairs, tables0, 0, n as int));
        }
        Ok(plan)
    }

    /// Remove one symbol: take it out of its connection's table and the
    /// global index, naming that connection; an unknown symbol changes
    /// nothing.
    fn remove_symbol(&mut self, t: u32) -> (r: Option<usize>)
        requires
            old(self).wf(),
            old(self).started,
        ensures
            final(self).wf(),
            final(self).started,
            final(self).config == old(self).config,
            final(self).api_key == old(self).api_key,
            final(self).access_token == old(self).access_token,
            final(self).raw_only == old(self).raw_only,
            final(self).connections@.len() == old(self).connections@.len(),
            final(self).model() == remove_token(old(self).model(), t),
            r is Some <==> old(self).model().mapping.contains_key(t),
            r matches Some(idx) ==> idx as int == old(self).model().mapping[t],
    {
        let ghost m0 = self.model();
        let idx_opt = match self.symbol_mapping.get(&t) {
            Some(v) => Some(*v),
            None => None,
        };
        match idx_opt {
            None => {
                proof {
                    assert(!m0.mapping.contains_key(t)) by {
                        assert(!self.symbol_mapping@.contains_key(t));
                        assert(m0.mapping.dom() =~= self.symbol_mapping@.dom());
                    }
                }
                None
            },
            Some(idx) => {
                proof {
                    assert(self.symbol_mapping@.contains_key(t) && self.symbol_mapping@[t] == idx);
                    assert(m0.mapping.contains_key(t) && m0.mapping[t] == idx as int) by {
                        assert(m0.mapping.dom() =~= self.symbol_mapping@.dom());
                    }
                    assert(idx < self.connections@.len());
                }
                self.symbol_mapping.remove(&t);
                self.connections[idx].subscribed_symbols.remove(&t);
                proof {
                    let m2 = remove_token(m0, t);
                    assert(self.model().tables =~= m2.tables) by {
                        assert forall|j: int|
                            0 <= j < self.model().tables.len() implies self.model().tables[j]
                            == m2.tables[j] by {
                            if j == idx {
                                assert(self.connections@[j].subscribed_symbols@
                                    =~= m0.tables[j].remove(t));
                            } else {
                                assert(self.connections@[j] == old(self).connections@[j]);
                            }
                        }
                    }
                    assert(self.model().mapping =~= m2.mapping);
                    assert(self.model() == m2);
                    lemma_remove_preserves_wf(m0, t);
                    assert(self.wf()) by {
                        assert forall|j: int|
                            0 <= j < self.connections@.len() implies channel_index(
                            (#[trigger] self.connections@[j]).id,
                        ) == j by {
                            if j != idx {
                                assert(self.connections@[j] == old(self).connections@[j]);
                            } else {
                                assert(self.connections@[j].id == old(self).connections@[j].id);
                            }
                        }
                    }
                }
                Some(idx)
            },
        }
    }

    /// Change one symbol's mode in its connection's table, naming that
    /// connection; an unknown symbol changes nothing.
    fn setmode_symbol(&mut self, t: u32, mode: Mode) -> (r: Option<usize>)
        requires
            old(self).wf(),
            old(self).started,
        ensures
            final(self).wf(),
            final(self).started,
            final(self).config == old(self).config,
            final(self).api_key == old(self).api_key,
            final(self).access_token == old(self).access_token,
            final(self).raw_only == old(self).raw_only,
            final(self).connections@.len() == old(self).connections@.len(),
            final(self).model() == setmode_token(old(self).model(), t, mode),
            r is Some <==> old(self).model().mapping.contains_key(t),
            r matches Some(idx) ==> idx as int == old(self).model().mapping[t],
    {
        let ghost m0 = self.model();
        let idx_opt = match self.symbol_mapping.get(&t) {
            Some(v) => Some(*v),
            None => None,
        };
        match idx_opt {
            None => {
                proof {
                    assert(!m0.mapping.contains_key(t)) by {
                        assert(!self.symbol_mapping@.contains_key(t));
                        assert(m0.mapping.dom() =~= self.symbol_mapping@.dom());
                    }
                }
                None
            },
            Some(idx) => {
                proof {
                    assert(self.symbol_mapping@.contains_key(t) && self.symbol_mapping@[t] == idx);
                    assert(m0.mapping.contains_key(t) && m0.mapping[t] == idx as int) by {
                        assert(m0.mapping.dom() =~= self.symbol_mapping@.dom());
                    }
                    assert(idx < self.connections@.len());
                }
                self.connections[idx].subscribed_symbols.insert(t, mode);
                proof {
                    let m2 = setmode_token(m0, t, mode);
                    assert(self.model().tables =~= m2.tables) by {
                        assert forall|j: int|
                            0 <= j < self.model().tables.len() implies self.model().tables[j]
                            == m2.tables[j] by {
                            if j == idx {
                                assert(self.connections@[j].subscribed_symbols@
                                    =~= m0.tables[j].insert(t, mode));
                            } else {
                                assert(self.connections@[j] == old(self).connections@[j]);
                            }
                        }
                    }
                    assert(self.model().mapping =~= m2.mapping);
                    assert(self.model() == m2);
                    lemma_setmode_preserves_wf(m0, t, mode);
                    assert(self.wf()) by {
                        assert forall|j: int|
                            0 <= j < self.connections@.len() implies channel_index(
                            (#[trigger] self.connections@[j]).id,
                        ) == j by {
                            if j != idx {
                                assert(self.connections@[j] == old(self).connections@[j]);
                            } else {
                                assert(self.connections@[j].id == old(self).connections@[j].id);
                            }
                        }
                    }
                }
                Some(idx)
            },
        }
    }

    /// Unsubscribe from symbols: each subscribed one leaves its
    /// connection's table and the global index; unknown symbols are
    /// skipped. The returned plan groups the removed tokens by
    /// connection, in connection order, for the caller's unsubscribe
    /// messages. Fails with everything unchanged when the manager was
    /// never started.
    pub fn unsubscribe_symbols(&mut self, symbols: &[u32]) -> (r: Result<
        Vec<(ChannelId, Vec<u32>)>,
        String,
    >)
        requires
            old(self).wf(),
        ensures
            final(self).wf(),
            !old(self).started ==> r is Err && *final(self) == *old(self),
            old(self).started ==> ({
                let folded = unsubscribe_fold(old(self).model(), symbols@);
                &&& final(self).started
                &&& final(self).config == old(self).config
                &&& final(self).connections@.len() == old(self).connections@.len()
                &&& final(self).model() == folded.0
                &&& r matches Ok(plan) && group_matches_vec(
                    plan@,
                    group_plan_spec(folded.1, 0, old(self).connections@.len() as int),
                )
            }),
    {
        if !self.started {
            return Err(String::from_str("Manager not started"));
        }
        let ghost model0 = self.model();
        let n = self.config.max_connections;
        let mut placed: Vec<(u32, usize)> = Vec::new();
        let mut i: usize = 0;
        let len = symbols.len();
        proof {
            assert(symbols@.skip(0) =~= symbols@);
            assert(pairs_view(placed@) + unsubscribe_fold(model0, symbols@).1 =~= unsubscribe_fold(
                model0,
                symbols@,
            ).1);
        }
        while i < len
            invariant
                self.wf(),
                self.started,
                i <= len,
                len == symbols@.len(),
                n == self.config.max_connections,
                n == self.connections@.len(),
                self.config == old(self).config,
                old(self).started,
                model0 == old(self).model(),
                ({
                    let fold_full = unsubscribe_fold(model0, symbols@);
                    let fold_rem = unsubscribe_fold(self.model(), symbols@.skip(i as int));
                    &&& fold_full.0 == fold_rem.0
                    &&& fold_full.1 =~= pairs_view(placed@) + fold_rem.1
                }),
            decreases len - i,
        {
            let t = symbols[i];
            let ghost m_before = self.model();
            let ghost pl0 = placed@;
            proof {
                assert(symbols@.skip(i as int)[0] == symbols@[i as int]);
                assert(symbols@.skip(i as int).drop_first() =~= symbols@.skip(i + 1));
            }
            match self.remove_symbol(t) {
                Some(idx) => {
                    placed.push((t, idx));
                    proof {
                        let rest = unsubscribe_fold(self.model(), symbols@.skip(i + 1));
                        assert(unsubscribe_fold(m_before, symbols@.skip(i as int)) == (
                            rest.0,
                            seq![(t, idx as int)] + rest.1,
                        ));
                        assert(pairs_view(placed@) =~= pairs_view(pl0).push((t, idx as int)));
                        assert(pairs_view(pl0) + (seq![(t, idx as int)] + rest.1) =~= pairs_view(
                            placed@,
                        ) + rest.1);
                    }
                },
                None => {
                    proof {
                        let rest = unsubscribe_fold(self.model(), symbols@.skip(i + 1));
                        assert(unsubscribe_fold(m_before, symbols@.skip(i as int)) == (
                            rest.0,
                            Seq::<(u32, int)>::empty() + rest.1,
                        ));
                        assert(Seq::<(u32, int)>::empty() + rest.1 =~= rest.1);
                    }
                },
            }
            i = i + 1;
        }
        proof {
            assert(symbols@.skip(len as int) =~= Seq::<u32>::empty());
            assert(pairs_view(placed@) + Seq::<(u32, int)>::empty() =~= pairs_view(placed@));
        }
        let plan = self.group_pairs(&placed);
        Ok(plan)
    }

    /// Change the subscription mode of symbols: each subscribed one takes
    /// the new mode in its connection's table; unknown symbols are
    /// skipped. The returned plan groups the changed tokens by
    /// connection, in connection order, for the caller's mode messages.
    /// Fails with everything unchanged when the manager was never
    /// started.
    pub fn change_mode(&mut self, symbols: &[u32], mode: Mode) -> (r: Result<
        Vec<(ChannelId, Vec<u32>)>,
        String,
    >)
        requires
            old(self).wf(),
        ensures
            final(self).wf(),
            !old(self).started ==> r is Err && *final(self) == *old(self),
            old(self).started ==> ({
                let folded = change_mode_fold(old(self).model(), symbols@, mode);
                &&& final(self).started
                &&& final(self).config == old(self).config
                &&& final(self).connections@.len() == old(self).connections@.len()
                &&& final(self).model() == folded.0
                &&& r matches Ok(plan) && group_matches_vec(
                    plan@,
                    group_plan_spec(folded.1, 0, old(self).connections@.len() as int),
                )
            }),
    {
        if !self.started {
            return Err(String::from_str("Manager not started"));
        }
        let ghost model0 = self.model();
        let n = self.config.max_connections;
        let mut placed: Vec<(u32, usize)> = Vec::new();
        let mut i: usize = 0;
        let len = symbols.len();
        proof {
            assert(symbols@.skip(0) =~= symbols@);
            assert(pairs_view(placed@) + change_mode_fold(model0, symbols@, mode).1
                =~= change_mode_fold(model0, symbols@, mode).1);
        }
        while i < len
            invariant
                self.wf(),
                self.started,
                i <= len,
                len == symbols@.len(),
                n == self.config.max_connections,
                n == self.connections@.len(),
                self.config == old(self).config,
                old(self).started,
                model0 == old(self).model(),
                ({
                    let fold_full = change_mode_fold(model0, symbols@, mode);
                    let fold_rem = change_mode_fold(self.model(), symbols@.skip(i as int), mode);
                    &&& fold_full.0 == fold_rem.0
                    &&& fold_full.1 =~= pairs_view(placed@) + fold_rem.1
                }),
            decreases len - i,
        {
            let t = symbols[i];
            let ghost m_before = self.model();
            let ghost pl0 = placed@;
            proof {
                assert(symbols@.skip(i as int)[0] == symbols@[i as int]);
                assert(symbols@.skip(i as int).drop_first() =~= symbols@.skip(i + 1));
            }
            match self.setmode_symbol(t, mode) {
                Some(idx) => {
                    placed.push((t, idx));
                    proof {
                        let rest = change_mode_fold(self.model(), symbols@.skip(i + 1), mode);
                        assert(change_mode_fold(m_before, symbols@.skip(i as int), mode) == (
                            rest.0,
                            seq![(t, idx as int)] + rest.1,
                        ));
                        assert(pairs_view(placed@) =~= pairs_view(pl0).push((t, idx as int)));
                        assert(pairs_view(pl0) + (seq![(t, idx as int)] + rest.1) =~= pairs_view(
                            placed@,
                        ) + rest.1);
                    }
                },
                None => {
                    proof {
                        let rest = change_mode_fold(self.model(), symbols@.skip(i + 1), mode);
                        assert(change_mode_fold(m_before, symbols@.skip(i as int), mode) == (
                            rest.0,
                            Seq::<(u32, int)>::empty() + rest.1,
                        ));
                        assert(Seq::<(u32, int)>::empty() + rest.1 =~= rest.1);
                    }
                },
            }
            i = i + 1;
        }
        proof {
            assert(symbols@.skip(len as int) =~= Seq::<u32>::empty());
            assert(pairs_view(placed@) + Seq::<(u32, int)>::empty() =~= pairs_view(placed@));
        }
        let plan = self.group_pairs(&placed);
        Ok(plan)
    }

    /// The symbols each connection carries: one entry per connection, in
    /// connection order, each listing that connection's tokens (in no
    /// particular order, without repeats).
    pub fn get_symbol_distribution(&self) -> (r: Vec<(ChannelId, Vec<u32>)>)
        requires
            self.wf(),
            self.started,
        ensures
            r@.len() == self.connections@.len(),
            forall|j: int|
                0 <= j < r@.len() ==> {
                    &&& (#[trigger] r@[j]).0 == channel_of(j)
                    &&& r@[j].1@.to_set() == self.model().tables[j].dom()
                    &&& r@[j].1@.no_duplicates()
                },
    {
        let n = self.config.max_connections;
        let mut r: Vec<(ChannelId, Vec<u32>)> = Vec::new();
        let mut ci: usize = 0;
        while ci < n
            invariant
                self.wf(),
                self.started,
                ci <= n,
                n == self.config.max_connections,
                n == self.connections@.len(),
                n <= 3,
                r@.len() == ci,
                forall|j: int|
                    0 <= j < ci ==> {
                        &&& (#[trigger] r@[j]).0 == channel_of(j)
                        &&& r@[j].1@.to_set() == self.model().tables[j].dom()
                        &&& r@[j].1@.no_duplicates()
                    },
            decreases n - ci,
        {
            let cid = match ChannelId::from_index(ci) {
                Some(c) => c,
                None => {
                    proof {
                        assert(false);
                    }
                    ChannelId::Connection1
                },
            };
            let mut toks: Vec<u32> = Vec::new();
            let conn = &self.connections[ci];
            let ghost gkeys = vstd::std_specs::hash::spec_keys_iter(
                &conn.subscribed_symbols,
            ).remaining().unref();
            for k in iter: conn.subscribed_symbols.keys()
                invariant
                    iter.seq().unref() =~= gkeys,
                    iter.index() <= gkeys.len(),
                    toks@ =~= gkeys.subrange(0, iter.index() as int),
            {
                toks.push(*k);
            }
            proof {
                assert(toks@ =~= gkeys);
                gkeys.lemma_no_dup_set_cardinality();
                assert(gkeys.to_set() == conn.subscribed_symbols@.dom());
                assert(conn.subscribed_symbols@ == self.connections@[ci as int].subscribed_symbols@);
                assert(self.model().tables[ci as int]
                    == self.connections@[ci as int].subscribed_symbols@);
            }
            r.push((cid, toks));
            ci = ci + 1;
        }
        r
    }

    /// Group (token, connection) pairs by connection, in connection
    /// order, tokens in pair order.
    fn group_pairs(&self, placed: &Vec<(u32, usize)>) -> (plan: Vec<(ChannelId, Vec<u32>)>)
        requires
            self.wf(),
            self.started,
        ensures
            group_matches_vec(
                plan@,
                group_plan_spec(pairs_view(placed@), 0, self.connections@.len() as int),
            ),
    {
        let ghost pairs = pairs_view(placed@);
        let n = self.config.max_connections;
        let mut plan: Vec<(ChannelId, Vec<u32>)> = Vec::new();
        let ghost mut spec_done: Seq<(ChannelId, Seq<u32>)> = Seq::empty();
        let mut idx: usize = 0;
        proof {
            assert(Seq::<(ChannelId, Seq<u32>)>::empty() + group_plan_spec(pairs, 0, n as int)
                =~= group_plan_spec(pairs, 0, n as int));
        }
        while idx < n
            invariant
                idx <= n,
                n <= 3,
                n == self.connections@.len(),
                pairs == pairs_view(placed@),
                group_plan_spec(pairs, 0, n as int) =~= spec_done + group_plan_spec(
                    pairs,
                    idx as int,
                    n as int,
                ),
                group_matches_vec(plan@, spec_done),
            decreases n - idx,
        {
            let mut g: Vec<u32> = Vec::new();
            let m = placed.len();
            let mut j: usize = 0;
            proof {
                assert(pairs.skip(0) =~= pairs);
                assert(Seq::<u32>::empty() + assigned_tokens(pairs, idx as int) =~= assigned_tokens(
                    pairs,
                    idx as int,
                ));
            }
            while j < m
                invariant
                    j <= m,
                    m == placed@.len(),
                    pairs == pairs_view(placed@),
                    assigned_tokens(pairs, idx as int) =~= g@ + assigned_tokens(
                        pairs.skip(j as int),
                        idx as int,
                    ),
                decreases m - j,
            {
                proof {
                    assert(pairs.skip(j as int)[0] == pairs[j as int]);
                    assert(pairs[j as int] == (placed@[j as int].0, placed@[j as int].1 as int));
                    assert(pairs.skip(j as int).drop_first() =~= pairs.skip(j + 1));
                }
                if placed[j].1 == idx {
                    g.push(placed[j].0);
                }
                j = j + 1;
            }
            proof {
                assert(pairs.skip(m as int) =~= Seq::<(u32, int)>::empty());
                assert(g@ + Seq::<u32>::empty() =~= g@);
            }
            let ghost entry_g = assigned_tokens(pairs, idx as int);
            if g.len() > 0 {
                let cid = match ChannelId::from_index(idx) {
                    Some(c) => c,
                    None => {
                        proof {
                            assert(false);
                        }
                        ChannelId::Connection1
                    },
                };
                plan.push((cid, g));
                proof {
                    let entry = (channel_of(idx as int), entry_g);
                    assert(group_plan_spec(pairs, idx as int, n as int) == seq![entry]
                        + group_plan_spec(pairs, idx + 1, n as int));
                    assert(spec_done + (seq![entry] + group_plan_spec(pairs, idx + 1, n as int))
                        =~= spec_done.push(entry) + group_plan_spec(pairs, idx + 1, n as int));
                    spec_done = spec_done.push(entry);
                }
            } else {
                proof {
                    assert(group_plan_spec(pairs, idx as int, n as int) == group_plan_spec(
                        pairs,
                        idx + 1,
                        n as int,
                    ));
                }
            }
            idx = idx + 1;
        }
        proof {
            assert(group_plan_spec(pairs, n as int, n as int) =~= Seq::<
                (ChannelId, Seq<u32>),
            >::empty());
            assert(spec_done + Seq::<(ChannelId, Seq<u32>)>::empty() =~= spec_done);
            assert(spec_done =~= group_plan_spec(pairs, 0, n as int));
        }
        plan
    }
}

/// A successful round-robin scan names a connection in range with room.
pub proof fn lemma_rr_scan_props(tables: Seq<Map<u32, Mode>>, cursor: int, cap: int, k: int)
    requires
        0 <= k,
    ensures
        rr_scan(tables, cursor, cap, k) matches Some(i) ==> 0 <= i < tables.len()
            && tables[i].dom().len() < cap,
    decreases tables.len() - k,
{
    if k < tables.len() {
        let idx = (cursor + k) % (tables.len() as int);
        vstd::arithmetic::div_mod::lemma_mod_bound(cursor + k, tables.len() as int);
        if !(tables[idx].dom().len() < cap) {
            lemma_rr_scan_props(tables, cursor, cap, k + 1);
        }
    }
}

/// A failed round-robin scan means every connection from step `k` on is
/// full.
proof fn lemma_rr_scan_none(tables: Seq<Map<u32, Mode>>, cursor: int, cap: int, k: int)
    requires
        0 <= k,
        rr_scan(tables, cursor, cap, k) is None,
    ensures
        forall|k2: int|
            k <= k2 < tables.len() ==> tables[
                #[trigger] ((cursor + k2) % (tables.len() as int))
            ].dom().len() >= cap,
    decreases tables.len() - k,
{
    if k < tables.len() {
        lemma_rr_scan_none(tables, cursor, cap, k + 1);
    }
}

/// Every connection index is reached within one scan cycle from any
/// cursor.
pub proof fn lemma_rr_covers(j: int, cursor: int, n: int)
    requires
        0 <= j < n,
        0 <= cursor < n,
    ensures
        0 <= (j - cursor) % n < n,
        (cursor + (j - cursor) % n) % n == j,
{
    vstd::arithmetic::div_mod::lemma_mod_bound(j - cursor, n);
    let d = (j - cursor) % n;
    vstd::arithmetic::div_mod::lemma_add_mod_noop(cursor, d, n);
    vstd::arithmetic::div_mod::lemma_mod_mod(j - cursor, 1, n);
    assert(d % n == d) by {
        vstd::arithmetic::div_mod::lemma_small_mod(d as nat, n as nat);
    }
    assert(cursor % n == cursor) by {
        vstd::arithmetic::div_mod::lemma_small_mod(cursor as nat, n as nat);
    }
    vstd::arithmetic::div_mod::lemma_add_mod_noop(cursor, j - cursor, n);
    assert((cursor % n + (j - cursor) % n) % n == (cursor + (j - cursor)) % n);
    assert(cursor + (j - cursor) == j);
    assert(j % n == j) by {
        vstd::arithmetic::div_mod::lemma_small_mod(j as nat, n as nat);
    }
}

/// When a full scan fails, every connection is at capacity.
pub proof fn lemma_rr_pick_none_all_full(tables: Seq<Map<u32, Mode>>, cursor: int, cap: int)
    requires
        rr_pick(tables, cursor, cap) is None,
        0 <= cursor < tables.len(),
    ensures
        forall|j: int| 0 <= j < tables.len() ==> (#[trigger] tables[j]).dom().len() >= cap,
{
    lemma_rr_scan_none(tables, cursor, cap, 0);
    assert forall|j: int| 0 <= j < tables.len() implies (#[trigger] tables[j]).dom().len()
        >= cap by {
        let n = tables.len() as int;
        lemma_rr_covers(j, cursor, n);
        let k2 = (j - cursor) % n;
        assert(tables[(cursor + k2) % n].dom().len() >= cap);
    }
}

/// Placing a token preserves well-formedness.
pub proof fn lemma_place_preserves_wf(m: ManagerModel, t: u32, mode: Mode)
    requires
        wf_model(m),
    ensures
        wf_model(place_token(m, t, mode).0),
{
    if !m.mapping.contains_key(t) {
        match rr_pick(m.tables, m.cursor, m.cap) {
            None => {},
            Some(i) => {
                lemma_rr_scan_props(m.tables, m.cursor, m.cap, 0);
                let m2 = place_token(m, t, mode).0;
                let n = m.tables.len() as int;
                vstd::arithmetic::div_mod::lemma_mod_bound(i + 1, n);
                assert(!m.tables[i].contains_key(t));
                assert(m2.tables[i] == m.tables[i].insert(t, mode));
                assert forall|t2: u32| #[trigger]
                    m2.mapping.contains_key(t2) implies 0 <= m2.mapping[t2] < m2.tables.len()
                    && m2.tables[m2.mapping[t2]].contains_key(t2) by {
                    if t2 == t {
                        assert(m2.mapping[t] == i);
                        assert(m2.tables[i].contains_key(t));
                    } else {
                        assert(m.mapping.contains_key(t2));
                        let j = m.mapping[t2];
                        if j == i {
                            assert(m2.tables[i].contains_key(t2));
                        } else {
                            assert(m2.tables[j] == m.tables[j]);
                        }
                    }
                }
                assert forall|j: int, t2: u32|
                    0 <= j < m2.tables.len() && (#[trigger] m2.tables[j].contains_key(
                        t2,
                    )) implies m2.mapping.contains_key(t2) && m2.mapping[t2] == j by {
                    if j == i {
                        if t2 == t {
                        } else {
                            assert(m.tables[i].contains_key(t2));
                        }
                    } else {
                        assert(m.tables[j].contains_key(t2));
                        assert(m.mapping[t2] == j);
                        assert(t2 != t);
                    }
                }
                assert forall|j: int|
                    0 <= j < m2.tables.len() implies (#[trigger] m2.tables[j]).dom().finite()
                    && m2.tables[j].dom().len() <= m2.cap by {
                    if j == i {
                        assert(m2.tables[i].dom() =~= m.tables[i].dom().insert(t));
                        assert(!m.tables[i].dom().contains(t));
                        assert(m.tables[i].dom().insert(t).len() == m.tables[i].dom().len() + 1);
                    } else {
                        assert(m2.tables[j] == m.tables[j]);
                    }
                }
            },
        }
    }
}

/// Removing a token preserves well-formedness.
pub proof fn lemma_remove_preserves_wf(m: ManagerModel, t: u32)
    requires
        wf_model(m),
    ensures
        wf_model(remove_token(m, t)),
{
    if m.mapping.contains_key(t) {
        let i = m.mapping[t];
        let m2 = remove_token(m, t);
        assert forall|t2: u32| #[trigger]
            m2.mapping.contains_key(t2) implies 0 <= m2.mapping[t2] < m2.tables.len()
            && m2.tables[m2.mapping[t2]].contains_key(t2) by {
            assert(m.mapping.contains_key(t2));
            assert(t2 != t);
            let j = m.mapping[t2];
            if j == i {
                assert(m2.tables[i] == m.tables[i].remove(t));
                assert(m2.tables[i].contains_key(t2));
            } else {
                assert(m2.tables[j] == m.tables[j]);
            }
        }
        assert forall|j: int, t2: u32|
            0 <= j < m2.tables.len() && (#[trigger] m2.tables[j].contains_key(
                t2,
            )) implies m2.mapping.contains_key(t2) && m2.mapping[t2] == j by {
            if j == i {
                assert(m.tables[i].contains_key(t2));
                assert(t2 != t);
            } else {
                assert(m.tables[j].contains_key(t2));
                assert(m.mapping[t2] == j);
                assert(t2 != t);
            }
        }
        assert forall|j: int|
            0 <= j < m2.tables.len() implies (#[trigger] m2.tables[j]).dom().finite()
            && m2.tables[j].dom().len() <= m2.cap by {
            if j == i {
                broadcast use vstd::set::group_set_axioms;

                assert(m2.tables[i].dom() =~= m.tables[i].dom().remove(t));
                assert(m.tables[i].dom().contains(t));
                assert(m.tables[i].dom().remove(t).len() == m.tables[i].dom().len() - 1);
            } else {
                assert(m2.tables[j] == m.tables[j]);
            }
        }
    }
}

/// Changing one token's mode preserves well-formedness.
pub proof fn lemma_setmode_preserves_wf(m: ManagerModel, t: u32, mode: Mode)
    requires
        wf_model(m),
    ensures
        wf_model(setmode_token(m, t, mode)),
{
    if m.mapping.contains_key(t) {
        let i = m.mapping[t];
        let m2 = setmode_token(m, t, mode);
        assert(m.tables[i].contains_key(t));
        assert(m2.tables[i] == m.tables[i].insert(t, mode));
        assert(m2.tables[i].dom() =~= m.tables[i].dom());
        assert forall|t2: u32| #[trigger]
            m2.mapping.contains_key(t2) implies 0 <= m2.mapping[t2] < m2.tables.len()
            && m2.tables[m2.mapping[t2]].contains_key(t2) by {
            assert(m.mapping.contains_key(t2));
            let j = m.mapping[t2];
            if j == i {
                assert(m2.tables[i].contains_key(t2));
            } else {
                assert(m2.tables[j] == m.tables[j]);
            }
        }
        assert forall|j: int, t2: u32|
            0 <= j < m2.tables.len() && (#[trigger] m2.tables[j].contains_key(
                t2,
            )) implies m2.mapping.contains_key(t2) && m2.mapping[t2] == j by {
            if j == i {
                assert(m.tables[i].contains_key(t2));
            } else {
                assert(m.tables[j].contains_key(t2));
            }
        }
        assert forall|j: int|
            0 <= j < m2.tables.len() implies (#[trigger] m2.tables[j]).dom().finite()
            && m2.tables[j].dom().len() <= m2.cap by {
            if j != i {
                assert(m2.tables[j] == m.tables[j]);
            }
        }
    }
}

/// The number of symbols held across all connections.
pub open spec fn total_symbols(tables: Seq<Map<u32, Mode>>) -> int
    decreases tables.len(),
{
    if tables.len() == 0 {
        0
    } else {
        total_symbols(tables.drop_last()) + tables.last().dom().len()
    }
}

/// Replacing one table changes the total by the difference in that
/// table's size.
proof fn lemma_total_update(tables: Seq<Map<u32, Mode>>, i: int, tbl: Map<u32, Mode>)
    requires
        0 <= i < tables.len(),
    ensures
        total_symbols(tables.update(i, tbl)) == total_symbols(tables) - tables[i].dom().len()
            + tbl.dom().len(),
    decreases tables.len(),
{
    let t2 = tables.update(i, tbl);
    if i == tables.len() - 1 {
        assert(t2.drop_last() =~= tables.drop_last());
        assert(t2.last() == tbl);
    } else {
        lemma_total_update(tables.drop_last(), i, tbl);
        assert(t2.drop_last() =~= tables.drop_last().update(i, tbl));
        assert(t2.last() == tables.last());
    }
}

/// When every table is capped, the total is at most the joint capacity;
/// and when every table is exactly full, the total meets it.
proof fn lemma_total_bounds(tables: Seq<Map<u32, Mode>>, cap: int)
    requires
        forall|i: int| 0 <= i < tables.len() ==> (#[trigger] tables[i]).dom().len() <= cap,
    ensures
        total_symbols(tables) <= tables.len() * cap,
        (forall|i: int| 0 <= i < tables.len() ==> (#[trigger] tables[i]).dom().len() >= cap)
            ==> total_symbols(tables) == tables.len() * cap,
    decreases tables.len(),
{
    if tables.len() == 0 {
    } else {
        let rest = tables.drop_last();
        assert(forall|i: int|
            0 <= i < rest.len() ==> (#[trigger] rest[i]).dom().len() <= cap) by {
            assert(forall|i: int| 0 <= i < rest.len() ==> rest[i] == tables[i]);
        }
        lemma_total_bounds(rest, cap);
        assert(tables.last().dom().len() <= cap);
        assert((tables.len() - 1) * cap + cap == tables.len() * cap) by (nonlinear_arith);
        if forall|i: int| 0 <= i < tables.len() ==> (#[trigger] tables[i]).dom().len() >= cap {
            assert(forall|i: int|
                0 <= i < rest.len() ==> (#[trigger] rest[i]).dom().len() >= cap) by {
                assert(forall|i: int| 0 <= i < rest.len() ==> rest[i] == tables[i]);
            }
            assert(tables.last().dom().len() >= cap) by {
                assert(tables[tables.len() - 1].dom().len() >= cap);
            }
        }
    }
}

/// Placing a fresh token on a well-formed manager puts it in exactly one
/// connection's table, grows the global index by one, and grows the total
/// symbol count by one.
pub proof fn lemma_subscribe_places_once(m: ManagerModel, t: u32, mode: Mode)
    requires
        wf_model(m),
        !m.mapping.contains_key(t),
        place_token(m, t, mode).1,
    ensures
        ({
            let m2 = place_token(m, t, mode).0;
            &&& m2.mapping.contains_key(t)
            &&& 0 <= m2.mapping[t] < m2.tables.len()
            &&& m2.tables[m2.mapping[t]].contains_key(t)
            &&& forall|j: int|
                0 <= j < m2.tables.len() && j != m2.mapping[t] ==> !(#[trigger] m2.tables[j]).contains_key(t)
            &&& m2.mapping.dom().len() == m.mapping.dom().len() + 1
            &&& total_symbols(m2.tables) == total_symbols(m.tables) + 1
        }),
{
    broadcast use vstd::set::group_set_axioms;

    let i = rr_pick(m.tables, m.cursor, m.cap).unwrap();
    lemma_rr_scan_props(m.tables, m.cursor, m.cap, 0);
    let m2 = place_token(m, t, mode).0;
    assert(m2.mapping == m.mapping.insert(t, i));
    assert(m2.mapping.dom() =~= m.mapping.dom().insert(t));
    assert forall|j: int|
        0 <= j < m2.tables.len() && j != i implies !(#[trigger] m2.tables[j]).contains_key(t) by {
        if m2.tables[j].contains_key(t) {
            assert(m.tables[j].contains_key(t));
            assert(m.mapping.contains_key(t));
        }
    }
    assert(!m.tables[i].contains_key(t));
    assert(m2.tables[i].dom() =~= m.tables[i].dom().insert(t));
    lemma_total_update(m.tables, i, m.tables[i].insert(t, mode));
}

/// Removing a token known to the manager takes it out of exactly one
/// connection's table, shrinks the global index by one, and shrinks the
/// total symbol count by one. Removing an unknown token changes nothing.
pub proof fn lemma_unsubscribe_removes_once(m: ManagerModel, t: u32)
    requires
        wf_model(m),
    ensures
        m.mapping.contains_key(t) ==> ({
            let m2 = remove_token(m, t);
            let i = m.mapping[t];
            &&& m.tables[i].contains_key(t)
            &&& !m2.tables[i].contains_key(t)
            &&& forall|j: int| 0 <= j < m2.tables.len() && j != i ==> m2.tables[j] == m.tables[j]
            &&& m2.mapping.dom().len() == m.mapping.dom().len() - 1
            &&& total_symbols(m2.tables) == total_symbols(m.tables) - 1
        }),
        !m.mapping.contains_key(t) ==> remove_token(m, t) == m,
{
    broadcast use vstd::set::group_set_axioms;

    if m.mapping.contains_key(t) {
        let i = m.mapping[t];
        let m2 = remove_token(m, t);
        assert(m2.mapping.dom() =~= m.mapping.dom().remove(t));
        assert(m2.tables[i].dom() =~= m.tables[i].dom().remove(t));
        lemma_total_update(m.tables, i, m.tables[i].remove(t));
    }
}

/// Placing a list of tokens one by one, counting successes and failures
/// (a failed token is dropped and the walk goes on).
pub open spec fn place_seq(m: ManagerModel, ts: Seq<u32>, mode: Mode) -> (ManagerModel, int, int)
    decreases ts.len(),
{
    if ts.len() == 0 {
        (m, 0, 0)
    } else {
        let stepped = place_token(m, ts[0], mode);
        let rest = place_seq(stepped.0, ts.drop_first(), mode);
        if stepped.1 {
            (rest.0, rest.1 + 1, rest.2)
        } else {
            (rest.0, rest.1, rest.2 + 1)
        }
    }
}

/// Capacity law: placing `k` distinct fresh tokens on a manager with
/// `free` spare slots succeeds for all of them when `k <= free`, and
/// otherwise exactly `free` placements succeed and the remaining
/// `k - free` fail for want of capacity.
pub proof fn lemma_capacity_placement(m: ManagerModel, ts: Seq<u32>, mode: Mode)
    requires
        wf_model(m),
        ts.no_duplicates(),
        forall|k: int| 0 <= k < ts.len() ==> !m.mapping.contains_key(#[trigger] ts[k]),
    ensures
        ({
            let free = m.tables.len() * m.cap - total_symbols(m.tables);
            let r = place_seq(m, ts, mode);
            &&& free >= 0
            &&& ts.len() <= free ==> r.1 == ts.len() && r.2 == 0
            &&& ts.len() > free ==> r.1 == free && r.2 == ts.len() - free
        }),
    decreases ts.len(),
{
    lemma_total_bounds(m.tables, m.cap);
    if ts.len() > 0 {
        let t = ts[0];
        assert(!m.mapping.contains_key(t));
        let total = total_symbols(m.tables);
        let n = m.tables.len() as int;
        let stepped = place_token(m, t, mode);
        if total < n * m.cap {
            // Some table has room, so the scan finds one.
            assert(stepped.1) by {
                if rr_pick(m.tables, m.cursor, m.cap) is None {
                    lemma_rr_pick_none_all_full(m.tables, m.cursor, m.cap);
                    lemma_total_bounds(m.tables, m.cap);
                }
            }
            lemma_place_preserves_wf(m, t, mode);
            lemma_subscribe_places_once(m, t, mode);
            assert(forall|k: int|
                0 <= k < ts.drop_first().len() ==> !stepped.0.mapping.contains_key(
                    #[trigger] ts.drop_first()[k],
                )) by {
                assert(forall|k: int| 0 <= k < ts.drop_first().len() ==> ts.drop_first()[k] == ts[k
                    + 1]);
                assert(forall|k: int| 0 <= k < ts.len() - 1 ==> #[trigger] ts[k + 1] != t);
            }
            lemma_capacity_placement(stepped.0, ts.drop_first(), mode);
            let rest = place_seq(stepped.0, ts.drop_first(), mode);
            assert(place_seq(m, ts, mode) == (rest.0, rest.1 + 1, rest.2));
            let pi = rr_pick(m.tables, m.cursor, m.cap).unwrap();
            lemma_rr_scan_props(m.tables, m.cursor, m.cap, 0);
            assert(0 <= pi < m.tables.len());
            assert(stepped.0.tables == m.tables.update(pi, m.tables[pi].insert(t, mode)));
            assert(stepped.0.tables.len() == n && stepped.0.cap == m.cap);
            assert(total_symbols(stepped.0.tables) == total + 1);
        } else {
            // Every table is full, so the scan fails and nothing changes.
            assert(total == n * m.cap);
            assert(!stepped.1) by {
                match rr_pick(m.tables, m.cursor, m.cap) {
                    Some(i) => {
                        lemma_rr_scan_props(m.tables, m.cursor, m.cap, 0);
                        assert(m.tables[i].dom().len() < m.cap);
                        lemma_total_strict(m.tables, m.cap, i);
                        assert(false);
                    },
                    None => {},
                }
            }
            assert(stepped.0 == m);
            assert(forall|k: int|
                0 <= k < ts.drop_first().len() ==> !m.mapping.contains_key(
                    #[trigger] ts.drop_first()[k],
                )) by {
                assert(forall|k: int| 0 <= k < ts.drop_first().len() ==> ts.drop_first()[k] == ts[k
                    + 1]);
            }
            lemma_capacity_placement(m, ts.drop_first(), mode);
            let rest = place_seq(m, ts.drop_first(), mode);
            assert(place_seq(m, ts, mode) == (rest.0, rest.1, rest.2 + 1));
        }
    }
}

/// When some table is strictly under the capacity and all are capped, the
/// total is strictly under the joint capacity.
proof fn lemma_total_strict(tables: Seq<Map<u32, Mode>>, cap: int, j: int)
    requires
        forall|i: int| 0 <= i < tables.len() ==> (#[trigger] tables[i]).dom().len() <= cap,
        0 <= j < tables.len(),
        tables[j].dom().len() < cap,
    ensures
        total_symbols(tables) < tables.len() * cap,
    decreases tables.len(),
{
    let rest = tables.drop_last();
    assert(forall|i: int| 0 <= i < rest.len() ==> rest[i] == tables[i]);
    if j == tables.len() - 1 {
        lemma_total_bounds(rest, cap);
        assert(tables.last() == tables[j]);
        assert((tables.len() - 1) * cap + cap == tables.len() * cap) by (nonlinear_arith);
    } else {
        lemma_total_strict(rest, cap, j);
        assert(tables.last().dom().len() <= cap) by {
            assert(tables[tables.len() - 1].dom().len() <= cap);
        }
        assert((tables.len() - 1) * cap + cap == tables.len() * cap) by (nonlinear_arith);
    }
}

/// How a freshly started manager looks after `j` placements of a fair
/// run: the cursor sits at `j` modulo the connection count, and each
/// connection holds one token per completed cycle, plus one more for the
/// connections the current cycle has already passed.
pub open spec fn fair_shape(m: ManagerModel, j: int) -> bool {
    let n = m.tables.len() as int;
    &&& m.cursor == j % n
    &&& forall|i: int|
        0 <= i < n ==> (#[trigger] m.tables[i]).dom().len() == j / n + (if i < j % n {
            1int
        } else {
            0int
        })
}

/// One fair placement step keeps the fair shape, moving from step `j` to
/// step `j + 1`.
proof fn lemma_fair_step(m: ManagerModel, t: u32, mode: Mode, j: int, mtarget: int)
    requires
        wf_model(m),
        !m.mapping.contains_key(t),
        fair_shape(m, j),
        0 <= j,
        j < m.tables.len() * mtarget,
        mtarget <= m.cap,
    ensures
        place_token(m, t, mode).1,
        wf_model(place_token(m, t, mode).0),
        fair_shape(place_token(m, t, mode).0, j + 1),
        place_token(m, t, mode).0.tables.len() == m.tables.len(),
        place_token(m, t, mode).0.cap == m.cap,
        place_token(m, t, mode).0.mapping =~= m.mapping.insert(
            t,
            rr_pick(m.tables, m.cursor, m.cap).unwrap(),
        ),
    decreases 0int,
{
    let n = m.tables.len() as int;
    let cur = j % n;
    vstd::arithmetic::div_mod::lemma_mod_bound(j, n);
    vstd::arithmetic::div_mod::lemma_fundamental_div_mod(j, n);
    let q = j / n;
    // The table at the cursor is in the current cycle, so it has room.
    assert(m.tables[cur].dom().len() == q);
    assert(q < mtarget) by {
        vstd::arithmetic::div_mod::lemma_multiply_divide_lt(j, n, mtarget);
        assert(n * mtarget == m.tables.len() * mtarget);
    }
    assert(cur % n == cur) by {
        vstd::arithmetic::div_mod::lemma_small_mod(cur as nat, n as nat);
    }
    assert(rr_scan(m.tables, m.cursor, m.cap, 0) == Some(cur)) by {
        assert((m.cursor + 0) % n == cur);
        assert(m.tables[cur].dom().len() < m.cap);
    }
    lemma_place_preserves_wf(m, t, mode);
    lemma_subscribe_places_once(m, t, mode);
    let m2 = place_token(m, t, mode).0;
    assert(m2.tables[cur].dom() =~= m.tables[cur].dom().insert(t));
    assert(!m.tables[cur].contains_key(t));
    // The cursor advances by one step of the cycle.
    lemma_mod_step(j, n);
    assert(m2.cursor == (j + 1) % n);
    // The shape at j + 1, by splitting on whether the cycle wrapped.
    if cur < n - 1 {
        vstd::arithmetic::div_mod::lemma_fundamental_div_mod_converse(j + 1, n, q, cur + 1);
        assert((j + 1) / n == q && (j + 1) % n == cur + 1);
        assert forall|i: int|
            0 <= i < n implies (#[trigger] m2.tables[i]).dom().len() == (j + 1) / n + (if i < (j
            + 1) % n {
            1int
        } else {
            0int
        }) by {
            if i == cur {
                assert(m2.tables[cur].dom().len() == q + 1);
            } else {
                assert(m2.tables[i] == m.tables[i]);
            }
        }
    } else {
        assert(cur == n - 1);
        assert(j + 1 == (q + 1) * n + 0) by {
            assert(j == n * q + (n - 1));
            assert((q + 1) * n == q * n + n) by (nonlinear_arith);
            assert(n * q == q * n) by (nonlinear_arith);
        }
        vstd::arithmetic::div_mod::lemma_fundamental_div_mod_converse(j + 1, n, q + 1, 0);
        assert((j + 1) / n == q + 1 && (j + 1) % n == 0);
        assert forall|i: int|
            0 <= i < n implies (#[trigger] m2.tables[i]).dom().len() == (j + 1) / n + (if i < (j
            + 1) % n {
            1int
        } else {
            0int
        }) by {
            if i == cur {
                assert(m2.tables[cur].dom().len() == q + 1);
            } else {
                assert(m2.tables[i] == m.tables[i]);
                assert(i < cur);
            }
        }
    }
}

/// A fair run from step `j` to the end: placing the remaining tokens
/// leaves every connection with exactly `mtarget` symbols.
proof fn lemma_fair_run(m: ManagerModel, ts: Seq<u32>, mode: Mode, j: int, mtarget: int)
    requires
        wf_model(m),
        ts.no_duplicates(),
        forall|k: int| 0 <= k < ts.len() ==> !m.mapping.contains_key(#[trigger] ts[k]),
        fair_shape(m, j),
        0 <= j,
        j + ts.len() == m.tables.len() * mtarget,
        mtarget <= m.cap,
    ensures
        ({
            let r = place_seq(m, ts, mode);
            &&& r.0.tables.len() == m.tables.len()
            &&& forall|i: int|
                0 <= i < r.0.tables.len() ==> (#[trigger] r.0.tables[i]).dom().len() == mtarget
        }),
    decreases ts.len(),
{
    let n = m.tables.len() as int;
    if ts.len() == 0 {
        assert(j == n * mtarget);
        assert(j % n == 0 && j / n == mtarget) by {
            assert(j == mtarget * n + 0) by (nonlinear_arith)
                requires
                    j == n * mtarget,
            ;
            vstd::arithmetic::div_mod::lemma_fundamental_div_mod_converse(j, n, mtarget, 0);
        }
        assert forall|i: int|
            0 <= i < n implies (#[trigger] m.tables[i]).dom().len() == mtarget by {}
    } else {
        let t = ts[0];
        assert(!m.mapping.contains_key(t));
        assert(j < n * mtarget);
        lemma_fair_step(m, t, mode, j, mtarget);
        let stepped = place_token(m, t, mode);
        assert(forall|k: int|
            0 <= k < ts.drop_first().len() ==> !stepped.0.mapping.contains_key(
                #[trigger] ts.drop_first()[k],
            )) by {
            assert(forall|k: int|
                0 <= k < ts.drop_first().len() ==> ts.drop_first()[k] == ts[k + 1]);
            assert(forall|k: int| 0 <= k < ts.len() - 1 ==> #[trigger] ts[k + 1] != t);
        }
        lemma_fair_run(stepped.0, ts.drop_first(), mode, j + 1, mtarget);
        let rest = place_seq(stepped.0, ts.drop_first(), mode);
        assert(place_seq(m, ts, mode) == (rest.0, rest.1 + 1, rest.2));
    }
}

/// Round-robin fairness: a freshly started manager with `n` empty
/// connections of capacity at least `mtarget` that takes on `n * mtarget`
/// distinct tokens ends with exactly `mtarget` symbols on every
/// connection.
pub proof fn lemma_round_robin_fairness(m: ManagerModel, ts: Seq<u32>, mode: Mode, mtarget: int)
    requires
        wf_model(m),
        m.cursor == 0,
        forall|i: int| 0 <= i < m.tables.len() ==> (#[trigger] m.tables[i]).dom().len() == 0,
        forall|k: int| 0 <= k < ts.len() ==> !m.mapping.contains_key(#[trigger] ts[k]),
        ts.no_duplicates(),
        0 <= mtarget <= m.cap,
        ts.len() == m.tables.len() * mtarget,
    ensures
        ({
            let r = place_seq(m, ts, mode);
            &&& r.0.tables.len() == m.tables.len()
            &&& forall|i: int|
                0 <= i < r.0.tables.len() ==> (#[trigger] r.0.tables[i]).dom().len() == mtarget
        }),
{
    let n = m.tables.len() as int;
    assert(fair_shape(m, 0)) by {
        assert(0int % n == 0 && 0int / n == 0) by {
            vstd::arithmetic::div_mod::lemma_small_mod(0, n as nat);
            vstd::arithmetic::div_mod::lemma_basic_div(0, n);
        }
    }
    lemma_fair_run(m, ts, mode, 0, mtarget);
}

/// Moving only the cursor keeps a manager state well-formed.
proof fn lemma_wf_model_cursor(m: ManagerModel, cursor: int)
    requires
        wf_model(m),
        0 <= cursor < m.tables.len(),
    ensures
        wf_model(ManagerModel { cursor: cursor, ..m }),
{
    let m2 = ManagerModel { cursor: cursor, ..m };
    assert forall|t: u32| #[trigger]
        m2.mapping.contains_key(t) implies 0 <= m2.mapping[t] < m2.tables.len()
        && m2.tables[m2.mapping[t]].contains_key(t) by {
        assert(m.mapping.contains_key(t));
    }
}

/// Stepping a residue one forward commutes with taking the residue.
pub proof fn lemma_mod_step(a: int, n: int)
    requires
        n > 0,
    ensures
        (a % n + 1) % n == (a + 1) % n,
{
    vstd::arithmetic::div_mod::lemma_add_mod_noop(a, 1, n);
    if n == 1 {
        assert((a % n + 1) % n == (a + 1) % n) by (nonlinear_arith)
            requires
                n == 1,
        ;
    } else {
        assert(1int % n == 1) by {
            vstd::arithmetic::div_mod::lemma_small_mod(1, n as nat);
        }
        assert((a % n + 1int % n) % n == (a + 1) % n);
    }
}

} // verus!
