use vstd::prelude::*;

use crate::config::{
    channel_index, ApiCredentials, ApiKeyId, ChannelId, DistributionStrategy, KiteManagerConfig,
    MultiApiConfig,
};
use crate::connection_manager::{rr_pick, rr_scan};
use crate::connection_pool::ManagedConnection;
use crate::mode::Mode;
use crate::ticker::table_after_adds;
use std::collections::HashMap;

verus! {

broadcast use vstd::std_specs::hash::group_hash_axioms, vstd::map::group_map_axioms;

/// The connection pool of one API key: its credentials, its managed
/// connections, which connection each of its symbols sits on, and its own
/// round-robin cursor.
#[derive(Debug)]
pub struct ApiConnectionGroup {
    pub api_key_id: ApiKeyId,
    pub credentials: ApiCredentials,
    pub connections: Vec<ManagedConnection>,
    pub subscribed_symbols: HashMap<u32, (usize, Mode)>,
    pub next_connection_index: usize,
}

impl ApiConnectionGroup {
    /// The group's symbol tables, one per connection.
    pub open spec fn tables(&self) -> Seq<Map<u32, Mode>> {
        self.connections@.map_values(|c: ManagedConnection| c.subscribed_symbols@)
    }

    /// The group's mathematical state.
    pub open spec fn model(&self) -> GroupModel {
        GroupModel {
            id: self.api_key_id.0@,
            tables: self.tables(),
            index: self.subscribed_symbols@,
            cursor: self.next_connection_index as int,
        }
    }

    /// A well-formed group: the cursor points at a connection and the
    /// symbol index names existing connections.
    pub open spec fn wf(&self) -> bool {
        &&& self.connections@.len() > 0
        &&& self.next_connection_index < self.connections@.len()
        &&& forall|t: u32| #[trigger]
            self.subscribed_symbols@.contains_key(t) ==> (self.subscribed_symbols@[t].0 as int)
                < self.connections@.len()
    }

    /// An empty group for one API key: no connections yet, no symbols.
    pub fn new(api_key_id: ApiKeyId, credentials: ApiCredentials) -> (r: Self)
        ensures
            r.api_key_id == api_key_id,
            r.connections@.len() == 0,
            r.subscribed_symbols@ == Map::<u32, (usize, Mode)>::empty(),
            r.next_connection_index == 0,
    {
        Self {
            api_key_id,
            credentials,
            connections: Vec::new(),
            subscribed_symbols: HashMap::new(),
            next_connection_index: 0,
        }
    }

    /// Pick the next connection of this group with room, round-robin
    /// from the group's cursor; on success the cursor moves past it.
    /// Fails, leaving everything unchanged, exactly when every connection
    /// of the group is at capacity.
    pub fn find_available_connection(&mut self, max_symbols_per_connection: usize) -> (r: Option<
        usize,
    >)
        requires
            old(self).wf(),
        ensures
            final(self).wf(),
            final(self).connections == old(self).connections,
            final(self).subscribed_symbols == old(self).subscribed_symbols,
            final(self).api_key_id == old(self).api_key_id,
            final(self).credentials == old(self).credentials,
            match rr_pick(
                old(self).tables(),
                old(self).next_connection_index as int,
                max_symbols_per_connection as int,
            ) {
                Some(i) => r == Some(i as usize) && final(self).next_connection_index as int == (i
                    + 1) % (old(self).connections@.len() as int),
                None => r is None && final(self).next_connection_index == old(self).next_connection_index,
            },
    {
        let ghost tables0 = self.tables();
        let ghost cursor0 = self.next_connection_index as int;
        let ghost cap = max_symbols_per_connection as int;
        let n = self.connections.len();
        proof {
            vstd::arithmetic::div_mod::lemma_small_mod(cursor0 as nat, n as nat);
        }
        let mut k: usize = 0;
        while k < n
            invariant
                self.wf(),
                k <= n,
                n == self.connections@.len(),
                self.connections == old(self).connections,
                self.subscribed_symbols == old(self).subscribed_symbols,
                self.api_key_id == old(self).api_key_id,
                self.credentials == old(self).credentials,
                tables0 == self.tables(),
                tables0 == old(self).tables(),
                cursor0 == old(self).next_connection_index as int,
                cap == max_symbols_per_connection as int,
                self.next_connection_index as int == (cursor0 + k) % (n as int),
                rr_pick(tables0, cursor0, cap) == rr_scan(tables0, cursor0, cap, k as int),
            decreases n - k,
        {
            let idx = self.next_connection_index;
            let accepts = self.connections[idx].can_accept_symbols(1, max_symbols_per_connection);
            proof {
                assert(tables0[idx as int] == self.connections@[idx as int].subscribed_symbols@);
            }
            if accepts {
                self.next_connection_index = (idx + 1) % n;
                proof {
                    vstd::arithmetic::div_mod::lemma_mod_bound((idx + 1) as int, n as int);
                    assert(rr_scan(tables0, cursor0, cap, k as int) == Some(idx as int));
                    crate::connection_manager::lemma_mod_step(cursor0 + k, n as int);
                }
                return Some(idx);
            }
            self.next_connection_index = (idx + 1) % n;
            k = k + 1;
            proof {
                vstd::arithmetic::div_mod::lemma_mod_bound((idx + 1) as int, n as int);
                crate::connection_manager::lemma_mod_step(cursor0 + (k - 1), n as int);
            }
        }
        proof {
            assert(rr_scan(tables0, cursor0, cap, n as int) is None);
            assert((cursor0 + n) % (n as int) == cursor0) by {
                assert((n as int) * 1 + cursor0 == cursor0 + n);
                vstd::arithmetic::div_mod::lemma_mod_multiples_vanish(1, cursor0, n as int);
                vstd::arithmetic::div_mod::lemma_small_mod(cursor0 as nat, n as nat);
            }
        }
        None
    }

    /// The number of symbols this group carries.
    pub fn total_symbols(&self) -> (r: usize)
        ensures
            r == self.subscribed_symbols@.dom().len(),
    {
        self.subscribed_symbols.len()
    }
}

/// The mathematical state of one API key's connection group: its
/// identifier, one symbol table per connection, its symbol index, and
/// its round-robin cursor.
pub ghost struct GroupModel {
    pub id: Seq<char>,
    pub tables: Seq<Map<u32, Mode>>,
    pub index: Map<u32, (usize, Mode)>,
    pub cursor: int,
}

/// The mathematical state of the multi-API manager: one group model per
/// API key, the global token-to-key index, and the round-robin cursor
/// over the keys.
pub ghost struct MultiModel {
    pub groups: Seq<GroupModel>,
    pub symbol_to_api: Map<u32, int>,
    pub cursor: int,
}

/// Placing one token on group `g`: the group's round-robin policy picks a
/// connection; the token enters that connection's table at the given mode
/// (a token already on that connection keeps its recorded mode there),
/// the group's index and the global index record it, and the group's
/// cursor advances. Fails when every connection of the group is full.
pub open spec fn api_place_token(m: MultiModel, g: int, t: u32, mode: Mode, cap: int) -> (
    MultiModel,
    bool,
) {
    let grp = m.groups[g];
    match rr_pick(grp.tables, grp.cursor, cap) {
        None => (m, false),
        Some(ci) => (
            MultiModel {
                groups: m.groups.update(
                    g,
                    GroupModel {
                        id: grp.id,
                        tables: grp.tables.update(
                            ci,
                            if grp.tables[ci].contains_key(t) {
                                grp.tables[ci]
                            } else {
                                grp.tables[ci].insert(t, mode)
                            },
                        ),
                        index: grp.index.insert(t, (ci as usize, mode)),
                        cursor: (ci + 1) % (grp.tables.len() as int),
                    },
                ),
                symbol_to_api: m.symbol_to_api.insert(t, g),
                cursor: m.cursor,
            },
            true,
        ),
    }
}

/// Placing a list of tokens on group `g`, stopping at the first failure:
/// yields the resulting state and whether every token was placed.
pub open spec fn api_subscribe_fold(
    m: MultiModel,
    g: int,
    ts: Seq<u32>,
    mode: Mode,
    cap: int,
) -> (MultiModel, bool)
    decreases ts.len(),
{
    if ts.len() == 0 {
        (m, true)
    } else {
        let stepped = api_place_token(m, g, ts[0], mode, cap);
        if !stepped.1 {
            (stepped.0, false)
        } else {
            api_subscribe_fold(stepped.0, g, ts.drop_first(), mode, cap)
        }
    }
}

/// The position of the first group carrying an identifier.
pub open spec fn first_group_index(groups: Seq<GroupModel>, id: Seq<char>) -> Option<int>
    decreases groups.len(),
{
    if groups.len() == 0 {
        None
    } else if groups[0].id == id {
        Some(0)
    } else {
        match first_group_index(groups.drop_first(), id) {
            None => None,
            Some(j) => Some(j + 1),
        }
    }
}

/// A scan that saw no matching group among the first `i` and then a match
/// at `i` has found the first match; a scan that saw none finds none.
proof fn lemma_first_group_index_scan(groups: Seq<GroupModel>, id: Seq<char>, i: int)
    requires
        0 <= i <= groups.len(),
        forall|j: int| 0 <= j < i ==> (#[trigger] groups[j]).id != id,
    ensures
        i < groups.len() && groups[i].id == id ==> first_group_index(groups, id) == Some(i),
        i == groups.len() ==> first_group_index(groups, id) is None,
    decreases i,
{
    if i > 0 {
        let rest = groups.drop_first();
        assert(forall|j: int| 0 <= j < i - 1 ==> (#[trigger] rest[j]).id != id) by {
            assert(forall|j: int| 0 <= j < i - 1 ==> rest[j] == groups[j + 1]);
        }
        lemma_first_group_index_scan(rest, id, i - 1);
        if i < groups.len() && groups[i].id == id {
            assert(rest[i - 1] == groups[i]);
        }
    }
}

/// Whether some connection of a group has room under the capacity.
pub open spec fn group_has_room(grp: GroupModel, cap: int) -> bool {
    rr_pick(grp.tables, grp.cursor, cap) is Some
}

/// The API key the round-robin scan over the groups picks, starting `k`
/// steps past the cursor: the first group with room, scanning at most one
/// full cycle.
pub open spec fn api_rr_scan(groups: Seq<GroupModel>, cursor: int, cap: int, k: int) -> Option<
    int,
>
    decreases groups.len() - k,
{
    if k >= groups.len() || k < 0 {
        None
    } else {
        let idx = (cursor + k) % (groups.len() as int);
        if group_has_room(groups[idx], cap) {
            Some(idx)
        } else {
            api_rr_scan(groups, cursor, cap, k + 1)
        }
    }
}

/// The API key the round-robin policy assigns next: the first group at or
/// after the cursor with room under the capacity.
pub open spec fn api_rr_pick(groups: Seq<GroupModel>, cursor: int, cap: int) -> Option<int> {
    api_rr_scan(groups, cursor, cap, 0)
}

/// A successful round-robin scan over the groups names a group in range
/// that has room.
pub proof fn lemma_api_rr_scan_props(groups: Seq<GroupModel>, cursor: int, cap: int, k: int)
    requires
        0 <= k,
    ensures
        api_rr_scan(groups, cursor, cap, k) matches Some(g) ==> 0 <= g < groups.len()
            && group_has_room(groups[g], cap),
    decreases groups.len() - k,
{
    if k < groups.len() {
        vstd::arithmetic::div_mod::lemma_mod_bound(cursor + k, groups.len() as int);
        let idx = (cursor + k) % (groups.len() as int);
        if !group_has_room(groups[idx], cap) {
            lemma_api_rr_scan_props(groups, cursor, cap, k + 1);
        }
    }
}

/// Auto-distributing a list of tokens: a token already indexed anywhere
/// is skipped; a new token goes to the group the round-robin policy picks
/// (which advances the key cursor), then to the connection that group's
/// policy picks. Stops at the first token for which every group is full.
pub open spec fn api_auto_fold(m: MultiModel, ts: Seq<u32>, mode: Mode, cap: int) -> (
    MultiModel,
    bool,
)
    decreases ts.len(),
{
    if ts.len() == 0 {
        (m, true)
    } else if m.symbol_to_api.contains_key(ts[0]) {
        api_auto_fold(m, ts.drop_first(), mode, cap)
    } else {
        match api_rr_pick(m.groups, m.cursor, cap) {
            None => (m, false),
            Some(g) => {
                let advanced = MultiModel { cursor: (g + 1) % (m.groups.len() as int), ..m };
                let stepped = api_place_token(advanced, g, ts[0], mode, cap);
                api_auto_fold(stepped.0, ts.drop_first(), mode, cap)
            },
        }
    }
}

/// The position of the first credential entry carrying an identifier.
pub open spec fn first_cred_index(s: Seq<(ApiKeyId, ApiCredentials)>, id: Seq<char>) -> Option<
    int,
>
    decreases s.len(),
{
    if s.len() == 0 {
        None
    } else if s[0].0.0@ == id {
        Some(0)
    } else {
        match first_cred_index(s.drop_first(), id) {
            None => None,
            Some(j) => Some(j + 1),
        }
    }
}

/// A scan that saw no matching identifier among the first `i` entries and
/// then a match at `i` has found the first match; a scan that saw none at
/// all finds none.
proof fn lemma_first_cred_index_scan(s: Seq<(ApiKeyId, ApiCredentials)>, id: Seq<char>, i: int)
    requires
        0 <= i <= s.len(),
        forall|j: int| 0 <= j < i ==> (#[trigger] s[j]).0.0@ != id,
    ensures
        i < s.len() && s[i].0.0@ == id ==> first_cred_index(s, id) == Some(i),
        i == s.len() ==> first_cred_index(s, id) is None,
    decreases i,
{
    if i > 0 {
        let rest = s.drop_first();
        assert(forall|j: int| 0 <= j < i - 1 ==> (#[trigger] rest[j]).0.0@ != id) by {
            assert(forall|j: int| 0 <= j < i - 1 ==> rest[j] == s[j + 1]);
        }
        lemma_first_cred_index_scan(rest, id, i - 1);
        if i < s.len() && s[i].0.0@ == id {
            assert(rest[i - 1] == s[i]);
        }
    }
}

/// Builder for the multi-API manager, with a fluent setter for each
/// configuration knob.
#[derive(Debug, Clone)]
pub struct MultiApiKiteTickerManagerBuilder {
    pub api_credentials: Vec<(ApiKeyId, ApiCredentials)>,
    pub config: MultiApiConfig,
}

impl MultiApiKiteTickerManagerBuilder {
    /// A builder with no API keys and the default configuration.
    pub fn new() -> (r: Self)
        ensures
            r.api_credentials@.len() == 0,
            r.config.max_connections_per_api == 3,
            r.config.distribution_strategy == DistributionStrategy::RoundRobin,
            r.config.enable_health_monitoring == true,
            r.config.base_config == crate::config::default_kite_config(),
    {
        Self { api_credentials: Vec::new(), config: MultiApiConfig::default() }
    }

    /// Add an API key with its credentials; an entry already carrying the
    /// same identifier is overwritten in place, so later credentials for a
    /// key replace earlier ones.
    pub fn add_api_key(self, id: ApiKeyId, api_key: String, access_token: String) -> (r: Self)
        ensures
            r.config == self.config,
            first_cred_index(self.api_credentials@, id.0@) matches Some(j) ==> {
                &&& r.api_credentials@.len() == self.api_credentials@.len()
                &&& r.api_credentials@[j].0.0@ == id.0@
                &&& r.api_credentials@[j].1.api_key@ == api_key@
                &&& r.api_credentials@[j].1.access_token@ == access_token@
                &&& forall|k: int|
                    0 <= k < r.api_credentials@.len() && k != j ==> #[trigger] r.api_credentials@[k]
                        == self.api_credentials@[k]
            },
            first_cred_index(self.api_credentials@, id.0@) is None ==> {
                &&& r.api_credentials@.len() == self.api_credentials@.len() + 1
                &&& r.api_credentials@.last().0.0@ == id.0@
                &&& r.api_credentials@.last().1.api_key@ == api_key@
                &&& r.api_credentials@.last().1.access_token@ == access_token@
                &&& forall|k: int|
                    0 <= k < self.api_credentials@.len() ==> #[trigger] r.api_credentials@[k]
                        == self.api_credentials@[k]
            },
    {
        let ghost orig = self.api_credentials@;
        let mut creds = self.api_credentials;
        let config = self.config;
        let n = creds.len();
        let mut i: usize = 0;
        while i < n
            invariant
                i <= n,
                n == creds@.len(),
                creds@ == orig,
                orig == self.api_credentials@,
                config == self.config,
                forall|j: int| 0 <= j < i ==> (#[trigger] orig[j]).0.0@ != id.0@,
            decreases n - i,
        {
            if creds[i].0.0.eq(&id.0) {
                proof {
                    lemma_first_cred_index_scan(orig, id.0@, i as int);
                }
                creds[i] = (id, ApiCredentials::new(api_key, access_token));
                return Self { api_credentials: creds, config };
            }
            i = i + 1;
        }
        proof {
            lemma_first_cred_index_scan(orig, id.0@, n as int);
        }
        creds.push((id, ApiCredentials::new(api_key, access_token)));
        Self { api_credentials: creds, config }
    }

    /// Maximum connections per API key; the broker allows three.
    pub fn max_connections_per_api(self, n: usize) -> (r: Self)
        ensures
            r.api_credentials == self.api_credentials,
            r.config == (MultiApiConfig {
                max_connections_per_api: if n < 3 {
                    n
                } else {
                    3
                },
                ..self.config
            }),
    {
        let capped = if n < 3 {
            n
        } else {
            3
        };
        Self {
            config: MultiApiConfig { max_connections_per_api: capped, ..self.config },
            ..self
        }
    }

    pub fn distribution_strategy(self, strategy: DistributionStrategy) -> (r: Self)
        ensures
            r.api_credentials == self.api_credentials,
            r.config == (MultiApiConfig { distribution_strategy: strategy, ..self.config }),
    {
        Self { config: MultiApiConfig { distribution_strategy: strategy, ..self.config }, ..self }
    }

    pub fn base_config(self, config: KiteManagerConfig) -> (r: Self)
        ensures
            r.api_credentials == self.api_credentials,
            r.config == (MultiApiConfig { base_config: config, ..self.config }),
    {
        Self { config: MultiApiConfig { base_config: config, ..self.config }, ..self }
    }

    pub fn max_symbols_per_connection(self, n: usize) -> (r: Self)
        ensures
            r.api_credentials == self.api_credentials,
            r.config == (MultiApiConfig {
                base_config: KiteManagerConfig {
                    max_symbols_per_connection: n,
                    ..self.config.base_config
                },
                ..self.config
            }),
    {
        Self {
            config: MultiApiConfig {
                base_config: KiteManagerConfig {
                    max_symbols_per_connection: n,
                    ..self.config.base_config
                },
                ..self.config
            },
            ..self
        }
    }

    /// The connect timeout, in seconds.
    pub fn connection_timeout(self, d: u64) -> (r: Self)
        ensures
            r.api_credentials == self.api_credentials,
            r.config == (MultiApiConfig {
                base_config: KiteManagerConfig {
                    connection_timeout: d,
                    ..self.config.base_config
                },
                ..self.config
            }),
    {
        Self {
            config: MultiApiConfig {
                base_config: KiteManagerConfig {
                    connection_timeout: d,
                    ..self.config.base_config
                },
                ..self.config
            },
            ..self
        }
    }

    /// The health-check interval, in seconds.
    pub fn health_check_interval(self, d: u64) -> (r: Self)
        ensures
            r.api_credentials == self.api_credentials,
            r.config == (MultiApiConfig {
                base_config: KiteManagerConfig {
                    health_check_interval: d,
                    ..self.config.base_config
                },
                ..self.config
            }),
    {
        Self {
            config: MultiApiConfig {
                base_config: KiteManagerConfig {
                    health_check_interval: d,
                    ..self.config.base_config
                },
                ..self.config
            },
            ..self
        }
    }

    pub fn enable_health_monitoring(self, enable: bool) -> (r: Self)
        ensures
            r.api_credentials == self.api_credentials,
            r.config == (MultiApiConfig { enable_health_monitoring: enable, ..self.config }),
    {
        Self {
            config: MultiApiConfig { enable_health_monitoring: enable, ..self.config },
            ..self
        }
    }

    pub fn default_mode(self, mode: Mode) -> (r: Self)
        ensures
            r.api_credentials == self.api_credentials,
            r.config == (MultiApiConfig {
                base_config: KiteManagerConfig { default_mode: mode, ..self.config.base_config },
                ..self.config
            }),
    {
        Self {
            config: MultiApiConfig {
                base_config: KiteManagerConfig { default_mode: mode, ..self.config.base_config },
                ..self.config
            },
            ..self
        }
    }

    /// Build the multi-API manager; it is not started yet.
    pub fn build(self) -> (r: MultiApiKiteTickerManager)
        ensures
            r.config == self.config,
            !r.started,
            r.api_groups@.len() == self.api_credentials@.len(),
            forall|j: int|
                0 <= j < r.api_groups@.len() ==> {
                    &&& (#[trigger] r.api_groups@[j]).api_key_id == self.api_credentials@[j].0
                    &&& r.api_groups@[j].connections@.len() == 0
                    &&& r.api_groups@[j].subscribed_symbols@ == Map::<u32, (usize, Mode)>::empty()
                },
            r.symbol_to_api@ == Map::<u32, usize>::empty(),
            r.wf(),
    {
        MultiApiKiteTickerManager::new(self.api_credentials, self.config)
    }
}

/// The multi-API manager's control state: one connection group per API
/// key, the global token-to-key index, and a round-robin cursor over the
/// keys. The sessions' I/O lives outside the library.
#[derive(Debug)]
pub struct MultiApiKiteTickerManager {
    pub config: MultiApiConfig,
    pub api_groups: Vec<ApiConnectionGroup>,
    pub symbol_to_api: HashMap<u32, usize>,
    pub next_api_index: usize,
    pub started: bool,
}

impl MultiApiKiteTickerManager {
    /// The manager's mathematical state.
    pub open spec fn model(&self) -> MultiModel {
        MultiModel {
            groups: self.api_groups@.map_values(|g: ApiConnectionGroup| g.model()),
            symbol_to_api: self.symbol_to_api@.map_values(|v: usize| v as int),
            cursor: self.next_api_index as int,
        }
    }

    /// A well-formed multi-API manager: before start the groups are
    /// empty; after start every group holds the configured connections,
    /// numbered in order, and the global index names existing groups.
    pub open spec fn wf(&self) -> bool {
        &&& !self.started ==> {
            &&& self.symbol_to_api@ == Map::<u32, usize>::empty()
            &&& forall|j: int|
                0 <= j < self.api_groups@.len() ==> (#[trigger] self.api_groups@[j]).connections@.len()
                    == 0 && self.api_groups@[j].subscribed_symbols@ == Map::<
                    u32,
                    (usize, Mode),
                >::empty()
        }
        &&& self.started ==> {
            &&& self.api_groups@.len() > 0
            &&& self.next_api_index < self.api_groups@.len()
            &&& forall|j: int|
                0 <= j < self.api_groups@.len() ==> {
                    &&& (#[trigger] self.api_groups@[j]).wf()
                    &&& self.api_groups@[j].connections@.len()
                        == self.config.max_connections_per_api
                    &&& forall|i: int|
                        0 <= i < self.api_groups@[j].connections@.len() ==> channel_index(
                            (#[trigger] self.api_groups@[j].connections@[i]).id,
                        ) == i
                }
            &&& forall|t: u32| #[trigger]
                self.symbol_to_api@.contains_key(t) ==> (self.symbol_to_api@[t] as int)
                    < self.api_groups@.len()
        }
    }

    /// A builder for a multi-API manager.
    pub fn builder() -> (r: MultiApiKiteTickerManagerBuilder)
        ensures
            r.api_credentials@.len() == 0,
            r.config.max_connections_per_api == 3,
    {
        MultiApiKiteTickerManagerBuilder::new()
    }

    /// A manager with one empty group per API key, not yet started.
    pub fn new(api_credentials: Vec<(ApiKeyId, ApiCredentials)>, config: MultiApiConfig) -> (r:
        Self)
        ensures
            r.config == config,
            !r.started,
            r.api_groups@.len() == api_credentials@.len(),
            forall|j: int|
                0 <= j < r.api_groups@.len() ==> {
                    &&& (#[trigger] r.api_groups@[j]).api_key_id == api_credentials@[j].0
                    &&& r.api_groups@[j].connections@.len() == 0
                    &&& r.api_groups@[j].subscribed_symbols@ == Map::<u32, (usize, Mode)>::empty()
                },
            r.symbol_to_api@ == Map::<u32, usize>::empty(),
            r.wf(),
    {
        let ghost orig = api_credentials@;
        let mut groups: Vec<ApiConnectionGroup> = Vec::new();
        let n = api_credentials.len();
        let mut i: usize = 0;
        let mut creds = api_credentials;
        proof {
            assert(creds@ =~= orig.skip(0));
        }
        while i < n
            invariant
                i <= n,
                n == orig.len(),
                creds@ =~= orig.skip(i as int),
                groups@.len() == i,
                forall|j: int|
                    0 <= j < i ==> {
                        &&& (#[trigger] groups@[j]).api_key_id == orig[j].0
                        &&& groups@[j].connections@.len() == 0
                        &&& groups@[j].subscribed_symbols@ == Map::<u32, (usize, Mode)>::empty()
                    },
            decreases n - i,
        {
            let pair = creds.remove(0);
            groups.push(ApiConnectionGroup::new(pair.0, pair.1));
            proof {
                assert(creds@ =~= orig.skip(i + 1));
            }
            i = i + 1;
        }
        Self {
            config,
            api_groups: groups,
            symbol_to_api: HashMap::new(),
            next_api_index: 0,
            started: false,
        }
    }

    /// Create the configured connections of every group, empty and
    /// numbered in order. Fails when no API key is configured or the
    /// per-key connection count is not between one and three.
    /// Establishing the sessions around these slots is the caller's work.
    pub fn start(&mut self) -> (r: Result<(), String>)
        requires
            old(self).wf(),
            !old(self).started,
        ensures
            final(self).wf(),
            r is Ok <==> (old(self).api_groups@.len() > 0 && 1 <= old(self).config.max_connections_per_api <= 3),
            r is Ok ==> {
                &&& final(self).started
                &&& final(self).config == old(self).config
                &&& final(self).api_groups@.len() == old(self).api_groups@.len()
                &&& forall|j: int|
                    0 <= j < final(self).api_groups@.len() ==> {
                        &&& (#[trigger] final(self).api_groups@[j]).api_key_id == old(self).api_groups@[j].api_key_id
                        &&& final(self).api_groups@[j].connections@.len() == old(self).config.max_connections_per_api
                        &&& forall|i: int|
                            0 <= i < final(self).api_groups@[j].connections@.len() ==> (#[trigger]
                            final(self).api_groups@[j].connections@[i]).subscribed_symbols@
                                == Map::<u32, Mode>::empty()
                    }
            },
            r is Err ==> *final(self) == *old(self),
    {
        if self.api_groups.len() == 0 {
            return Err(String::from_str("No API keys configured"));
        }
        if self.config.max_connections_per_api < 1 || self.config.max_connections_per_api > 3 {
            return Err(String::from_str("Invalid connection index"));
        }
        let per_api = self.config.max_connections_per_api;
        let ng = self.api_groups.len();
        let mut g: usize = 0;
        while g < ng
            invariant
                old(self).wf(),
                !old(self).started,
                g <= ng,
                ng == self.api_groups@.len(),
                ng == old(self).api_groups@.len(),
                1 <= per_api <= 3,
                per_api == self.config.max_connections_per_api,
                self.config == old(self).config,
                self.symbol_to_api == old(self).symbol_to_api,
                self.symbol_to_api@ == Map::<u32, usize>::empty(),
                self.next_api_index == old(self).next_api_index,
                self.started == old(self).started,
                forall|j: int|
                    0 <= j < ng ==> (#[trigger] self.api_groups@[j]).api_key_id == old(self).api_groups@[j].api_key_id,
                forall|j: int|
                    0 <= j < ng ==> (#[trigger] self.api_groups@[j]).subscribed_symbols@ == old(self).api_groups@[j].subscribed_symbols@,
                forall|j: int|
                    g <= j < ng ==> (#[trigger] self.api_groups@[j]).connections@.len() == 0,
                forall|j: int|
                    0 <= j < g ==> {
                        &&& (#[trigger] self.api_groups@[j]).connections@.len() == per_api
                        &&& self.api_groups@[j].wf()
                        &&& forall|i: int|
                            0 <= i < self.api_groups@[j].connections@.len() ==> channel_index(
                                (#[trigger] self.api_groups@[j].connections@[i]).id,
                            ) == i
                        &&& forall|i: int|
                            0 <= i < self.api_groups@[j].connections@.len() ==> (#[trigger]
                            self.api_groups@[j].connections@[i]).subscribed_symbols@ == Map::<
                                u32,
                                Mode,
                            >::empty()
                    },
            decreases ng - g,
        {
            let mut conns: Vec<ManagedConnection> = Vec::new();
            let mut i: usize = 0;
            while i < per_api
                invariant
                    i <= per_api,
                    per_api <= 3,
                    conns@.len() == i,
                    forall|j: int|
                        0 <= j < i ==> channel_index((#[trigger] conns@[j]).id) == j
                            && conns@[j].subscribed_symbols@ == Map::<u32, Mode>::empty(),
                decreases per_api - i,
            {
                let cid = match ChannelId::from_index(i) {
                    Some(c) => c,
                    None => {
                        proof {
                            assert(false);
                        }
                        ChannelId::Connection1
                    },
                };
                conns.push(ManagedConnection::new(cid));
                i = i + 1;
            }
            let ghost gs0 = self.api_groups@;
            let ghost cv = conns@;
            self.api_groups[g].connections = conns;
            self.api_groups[g].next_connection_index = 0;
            proof {
                assert(self.api_groups@[g as int].connections@ == cv);
                assert(self.api_groups@[g as int].connections@.len() == per_api);
                assert forall|j: int| 0 <= j < ng && j != g implies self.api_groups@[j] == gs0[j] by {}
                assert(self.api_groups@[g as int].api_key_id == gs0[g as int].api_key_id);
                assert(self.api_groups@[g as int].subscribed_symbols@ == gs0[
                    g as int
                ].subscribed_symbols@);
                assert(self.api_groups@[g as int].next_connection_index == 0);
                assert(self.api_groups@[g as int].wf()) by {
                    let grp = self.api_groups@[g as int];
                    assert(grp.connections@.len() > 0);
                    assert(grp.next_connection_index < grp.connections@.len());
                    assert(gs0[g as int].subscribed_symbols@ == old(self).api_groups@[g as int].subscribed_symbols@);
                    assert(0 <= g < old(self).api_groups@.len());
                    assert(old(self).api_groups@[g as int].connections@.len() == 0);
                    assert(old(self).api_groups@[g as int].subscribed_symbols@ == Map::<
                        u32,
                        (usize, Mode),
                    >::empty());
                    assert(grp.subscribed_symbols@ == Map::<u32, (usize, Mode)>::empty());
                    assert forall|t: u32| !(#[trigger] grp.subscribed_symbols@.contains_key(
                        t,
                    )) by {
                        assert(Map::<u32, (usize, Mode)>::empty().dom() =~= Set::<u32>::empty());
                    }
                }
            }
            g = g + 1;
        }
        self.next_api_index = 0;
        self.started = true;
        proof {
            assert(self.symbol_to_api@ == Map::<u32, usize>::empty());
            assert forall|t: u32| !(#[trigger] self.symbol_to_api@.contains_key(t)) by {
                assert(Map::<u32, usize>::empty().dom() =~= Set::<u32>::empty());
            }
        }
        Ok(())
    }

    /// Pick the next API key with room for one more symbol, round-robin
    /// over the keys; a key has room when some connection of its group
    /// accepts a symbol. Fails exactly when every group is full.
    pub fn find_available_api_key(&mut self) -> (r: Result<usize, String>)
        requires
            old(self).wf(),
            old(self).started,
        ensures
            final(self).wf(),
            final(self).started,
            final(self).config == old(self).config,
            final(self).api_groups@.len() == old(self).api_groups@.len(),
            final(self).api_groups == old(self).api_groups,
            final(self).symbol_to_api == old(self).symbol_to_api,
            match api_rr_pick(
                old(self).model().groups,
                old(self).model().cursor,
                old(self).config.base_config.max_symbols_per_connection as int,
            ) {
                Some(g) => r matches Ok(gi) && gi as int == g && final(self).next_api_index as int == (g + 1) % (old(self).api_groups@.len() as int),
                None => r is Err && final(self).next_api_index == old(self).next_api_index,
            },
    {
        let ng = self.api_groups.len();
        let cap = self.config.base_config.max_symbols_per_connection;
        let mut k: usize = 0;
        let start_index = self.next_api_index;
        let mut probe = self.next_api_index;
        let ghost groups0 = self.model().groups;
        let ghost cursor0 = self.model().cursor;
        proof {
            vstd::arithmetic::div_mod::lemma_small_mod(start_index as nat, ng as nat);
        }
        while k < ng
            invariant
                self.wf(),
                self.started,
                k <= ng,
                ng == self.api_groups@.len(),
                probe < ng,
                cap == self.config.base_config.max_symbols_per_connection,
                self.config == old(self).config,
                self.symbol_to_api == old(self).symbol_to_api,
                self.api_groups == old(self).api_groups,
                self.next_api_index == old(self).next_api_index,
                groups0 == self.model().groups,
                groups0 == old(self).model().groups,
                cursor0 == old(self).model().cursor,
                cursor0 == start_index as int,
                api_rr_pick(groups0, cursor0, cap as int) == api_rr_scan(
                    groups0,
                    cursor0,
                    cap as int,
                    k as int,
                ),
                probe as int == (start_index + k) % (ng as int),
                start_index < ng,
            decreases ng - k,
        {
            let has_room = {
                let ghost tables = self.api_groups@[probe as int].tables();
                let ghost cursor = self.api_groups@[probe as int].next_connection_index as int;
                let mut found = false;
                let group = &self.api_groups[probe];
                let nconn = group.connections.len();
                let mut c: usize = 0;
                while c < nconn
                    invariant
                        c <= nconn,
                        nconn == group.connections@.len(),
                        tables == group.tables(),
                        found == exists|i: int|
                            0 <= i < c && (#[trigger] tables[i]).dom().len() < cap,
                    decreases nconn - c,
                {
                    let accepts = group.connections[c].can_accept_symbols(1, cap);
                    proof {
                        assert(tables[c as int] == group.connections@[c as int].subscribed_symbols@);
                    }
                    if accepts {
                        found = true;
                    }
                    c = c + 1;
                }
                proof {
                    if found {
                        lemma_room_means_pick(tables, cursor, cap as int);
                    } else {
                        lemma_no_room_means_none(tables, cursor, cap as int, 0);
                    }
                }
                found
            };
            proof {
                assert(groups0[probe as int] == self.api_groups@[probe as int].model());
                assert(group_has_room(groups0[probe as int], cap as int) == has_room);
            }
            if has_room {
                self.next_api_index = (probe + 1) % ng;
                proof {
                    vstd::arithmetic::div_mod::lemma_mod_bound((probe + 1) as int, ng as int);
                    assert(self.api_groups == old(self).api_groups);
                    assert(api_rr_scan(groups0, cursor0, cap as int, k as int) == Some(
                        probe as int,
                    ));
                }
                return Ok(probe);
            }
            probe = (probe + 1) % ng;
            k = k + 1;
            proof {
                vstd::arithmetic::div_mod::lemma_mod_bound((probe) as int, ng as int);
                crate::connection_manager::lemma_mod_step(start_index + (k - 1), ng as int);
            }
        }
        proof {
            assert(api_rr_scan(groups0, cursor0, cap as int, ng as int) is None);
        }
        Err(String::from_str("All API keys are at capacity"))
    }

    /// The index of the first group whose API key identifier matches.
    pub fn find_group(&self, id: &ApiKeyId) -> (r: Option<usize>)
        ensures
            r matches Some(g) ==> (g as int) < self.api_groups@.len()
                && self.api_groups@[g as int].api_key_id.0@ == id.0@ && first_group_index(
                self.model().groups,
                id.0@,
            ) == Some(g as int),
            r is None ==> first_group_index(self.model().groups, id.0@) is None,
            r is None ==> forall|j: int|
                0 <= j < self.api_groups@.len() ==> (#[trigger] self.api_groups@[j]).api_key_id.0@
                    != id.0@,
    {
        let ghost groups = self.model().groups;
        let n = self.api_groups.len();
        let mut j: usize = 0;
        while j < n
            invariant
                j <= n,
                n == self.api_groups@.len(),
                groups == self.model().groups,
                forall|k: int|
                    0 <= k < j ==> (#[trigger] self.api_groups@[k]).api_key_id.0@ != id.0@,
            decreases n - j,
        {
            if self.api_groups[j].api_key_id.0.eq(&id.0) {
                proof {
                    assert forall|k: int| 0 <= k < j implies (#[trigger] groups[k]).id != id.0@ by {
                        assert(groups[k] == self.api_groups@[k].model());
                    }
                    assert(groups[j as int] == self.api_groups@[j as int].model());
                    lemma_first_group_index_scan(groups, id.0@, j as int);
                }
                return Some(j);
            }
            j = j + 1;
        }
        proof {
            assert forall|k: int| 0 <= k < n implies (#[trigger] groups[k]).id != id.0@ by {
                assert(groups[k] == self.api_groups@[k].model());
            }
            lemma_first_group_index_scan(groups, id.0@, n as int);
        }
        None
    }

    /// Place one symbol on a named group: the group's round-robin policy
    /// picks a connection, the symbol enters that connection's table at
    /// the given mode, and both the group's and the global index record
    /// it. Fails, leaving everything unchanged, when every connection of
    /// the group is full.
    pub fn subscribe_symbol_to_api(&mut self, gidx: usize, symbol: u32, mode: Mode) -> (r: Result<
        (),
        String,
    >)
        requires
            old(self).wf(),
            old(self).started,
            (gidx as int) < old(self).api_groups@.len(),
        ensures
            final(self).wf(),
            final(self).started,
            final(self).config == old(self).config,
            final(self).api_groups@.len() == old(self).api_groups@.len(),
            final(self).next_api_index == old(self).next_api_index,
            final(self).model() == (if r is Ok {
                api_place_token(
                    old(self).model(),
                    gidx as int,
                    symbol,
                    mode,
                    old(self).config.base_config.max_symbols_per_connection as int,
                ).0
            } else {
                old(self).model()
            }),
            r is Err <==> rr_pick(
                old(self).api_groups@[gidx as int].tables(),
                old(self).api_groups@[gidx as int].next_connection_index as int,
                old(self).config.base_config.max_symbols_per_connection as int,
            ) is None,
            r is Err ==> final(self).api_groups@ == old(self).api_groups@ && final(self).symbol_to_api == old(self).symbol_to_api && final(self).next_api_index == old(self).next_api_index,
            r is Ok ==> ({
                let g0 = old(self).api_groups@[gidx as int];
                let g1 = final(self).api_groups@[gidx as int];
                let pick = rr_pick(
                    g0.tables(),
                    g0.next_connection_index as int,
                    old(self).config.base_config.max_symbols_per_connection as int,
                );
                &&& pick is Some
                &&& ({
                    let ci = pick.unwrap();
                    &&& table_after_adds(
                        g1.connections@[ci].subscribed_symbols@,
                        g0.connections@[ci].subscribed_symbols@,
                        seq![symbol],
                        mode,
                    )
                    &&& forall|i: int|
                        0 <= i < g1.connections@.len() && i != ci
                            ==> (#[trigger] g1.connections@[i]).subscribed_symbols@
                            == g0.connections@[i].subscribed_symbols@
                    &&& g1.subscribed_symbols@ == g0.subscribed_symbols@.insert(
                        symbol,
                        (ci as usize, mode),
                    )
                })
                &&& g1.api_key_id == g0.api_key_id
                &&& forall|j: int|
                    0 <= j < final(self).api_groups@.len() && j != gidx ==> #[trigger] final(self).api_groups@[j] == old(self).api_groups@[j]
                &&& final(self).symbol_to_api@ == old(self).symbol_to_api@.insert(symbol, gidx)
            }),
    {
        let cap = self.config.base_config.max_symbols_per_connection;
        let ghost g0 = self.api_groups@[gidx as int];
        let ghost gs0 = self.api_groups@;
        let pick = self.api_groups[gidx].find_available_connection(cap);
        match pick {
            None => {
                proof {
                    assert forall|j: int|
                        0 <= j < self.api_groups@.len() implies self.api_groups@[j] == gs0[j] by {
                        if j == gidx {
                            let a = self.api_groups@[j];
                            let b = gs0[j];
                            assert(a.connections == b.connections);
                            assert(a.subscribed_symbols == b.subscribed_symbols);
                            assert(a.api_key_id == b.api_key_id);
                            assert(a.credentials == b.credentials);
                            assert(a.next_connection_index == b.next_connection_index);
                        }
                    }
                    assert(self.api_groups@ =~= gs0);
                    assert(self.model() == old(self).model()) by {
                        assert(self.model().groups =~= old(self).model().groups);
                        assert(self.model().symbol_to_api =~= old(self).model().symbol_to_api);
                    }
                }
                Err(String::from_str("All connections at capacity for API key"))
            },
            Some(ci) => {
                proof {
                    crate::connection_manager::lemma_rr_scan_props(
                        g0.tables(),
                        g0.next_connection_index as int,
                        cap as int,
                        0,
                    );
                    assert((ci as int) < self.api_groups@[gidx as int].connections@.len());
                }
                let ghost gs1 = self.api_groups@;
                let _fresh = self.api_groups[gidx].connections[ci].add_symbols(&[symbol], mode);
                let ghost gs2 = self.api_groups@;
                self.api_groups[gidx].subscribed_symbols.insert(symbol, (ci, mode));
                self.symbol_to_api.insert(symbol, gidx);
                proof {
                    assert(seq![symbol] =~= (&[symbol])@);
                    assert forall|j: int|
                        0 <= j < self.api_groups@.len() && j != gidx implies #[trigger]
                        self.api_groups@[j] == old(self).api_groups@[j] by {
                        assert(gs1[j] == gs0[j] || gs1[j] == old(self).api_groups@[j]);
                        assert(gs2[j] == gs1[j]);
                        assert(self.api_groups@[j] == gs2[j]);
                    }
                    assert(self.wf()) by {
                        assert forall|j: int|
                            0 <= j < self.api_groups@.len() implies (#[trigger]
                        self.api_groups@[j]).wf() && self.api_groups@[j].connections@.len()
                            == self.config.max_connections_per_api && (forall|i: int|
                            0 <= i < self.api_groups@[j].connections@.len() ==> channel_index(
                                (#[trigger] self.api_groups@[j].connections@[i]).id,
                            ) == i) by {
                            if j != gidx {
                                assert(self.api_groups@[j] == old(self).api_groups@[j]);
                            } else {
                                let g1 = self.api_groups@[j];
                                assert(g1.connections@.len() == g0.connections@.len());
                                assert(g1.next_connection_index
                                    == gs1[gidx as int].next_connection_index);
                                assert forall|t: u32| #[trigger]
                                    g1.subscribed_symbols@.contains_key(t) implies (
                                g1.subscribed_symbols@[t].0 as int) < g1.connections@.len() by {
                                    if t != symbol {
                                        assert(g0.subscribed_symbols@.contains_key(t));
                                    }
                                }
                                assert forall|i: int|
                                    0 <= i < g1.connections@.len() implies channel_index(
                                    (#[trigger] g1.connections@[i]).id,
                                ) == i by {
                                    if i != ci {
                                        assert(g1.connections@[i] == g0.connections@[i]);
                                    } else {
                                        assert(g1.connections@[i].id == g0.connections@[i].id);
                                    }
                                }
                            }
                        }
                        assert forall|t: u32| #[trigger]
                            self.symbol_to_api@.contains_key(t) implies (
                        self.symbol_to_api@[t] as int) < self.api_groups@.len() by {
                            if t != symbol {
                                assert(old(self).symbol_to_api@.contains_key(t));
                            }
                        }
                    }
                    // The step is exactly the model's placement transition.
                    let m0 = old(self).model();
                    assert(m0.groups[gidx as int] == g0.model());
                    assert(rr_pick(g0.tables(), g0.next_connection_index as int, cap as int)
                        == Some(ci as int));
                    let stepped = api_place_token(m0, gidx as int, symbol, mode, cap as int);
                    assert(stepped.1);
                    let g1 = self.api_groups@[gidx as int];
                    let t_old = g0.connections@[ci as int].subscribed_symbols@;
                    let t_new = g1.connections@[ci as int].subscribed_symbols@;
                    assert(seq![symbol].contains(symbol)) by {
                        assert(seq![symbol][0] == symbol);
                    }
                    assert forall|k: u32| #[trigger] seq![symbol].contains(k) implies k
                        == symbol by {
                        let j = choose|j: int| 0 <= j < 1 && seq![symbol][j] == k;
                    }
                    if t_old.contains_key(symbol) {
                        assert(t_new =~= t_old);
                    } else {
                        assert(t_new =~= t_old.insert(symbol, mode));
                    }
                    assert(g1.model() == stepped.0.groups[gidx as int]) by {
                        assert(g1.tables() =~= stepped.0.groups[gidx as int].tables) by {
                            assert forall|k: int|
                                0 <= k < g1.tables().len() implies g1.tables()[k]
                                == stepped.0.groups[gidx as int].tables[k] by {
                                if k != ci {
                                    assert(g1.connections@[k].subscribed_symbols@
                                        == g0.connections@[k].subscribed_symbols@);
                                }
                            }
                        }
                        assert(g1.api_key_id == g0.api_key_id);
                        assert(g1.subscribed_symbols@ == stepped.0.groups[gidx as int].index);
                        assert(g1.next_connection_index as int
                            == stepped.0.groups[gidx as int].cursor);
                    }
                    assert(self.model() == stepped.0) by {
                        assert(self.model().groups =~= stepped.0.groups) by {
                            assert forall|j: int|
                                0 <= j < self.model().groups.len() implies self.model().groups[j]
                                == stepped.0.groups[j] by {
                                if j != gidx {
                                    assert(self.api_groups@[j] == old(self).api_groups@[j]);
                                }
                            }
                        }
                        assert(self.model().symbol_to_api =~= stepped.0.symbol_to_api);
                    }
                }
                Ok(())
            },
        }
    }

    /// Subscribe symbols to a named API key, one by one; on a capacity
    /// failure the walk stops and the symbols placed earlier stay placed.
    /// Fails when the manager was never started or the key is unknown;
    /// otherwise the run is exactly the per-group placement fold, and it
    /// succeeds exactly when the fold places every symbol.
    pub fn subscribe_symbols_to_api(&mut self, id: &ApiKeyId, symbols: &[u32], mode: Option<Mode>)
        -> (r: Result<(), String>)
        requires
            old(self).wf(),
        ensures
            final(self).wf(),
            !old(self).started ==> r is Err && *final(self) == *old(self),
            old(self).started ==> final(self).started && final(self).config == old(self).config
                && final(self).api_groups@.len() == old(self).api_groups@.len(),
            old(self).started ==> match first_group_index(old(self).model().groups, id.0@) {
                None => r is Err && *final(self) == *old(self),
                Some(g) => ({
                    let folded = api_subscribe_fold(
                        old(self).model(),
                        g,
                        symbols@,
                        mode.unwrap_or(old(self).config.base_config.default_mode),
                        old(self).config.base_config.max_symbols_per_connection as int,
                    );
                    &&& final(self).model() == folded.0
                    &&& (r is Ok <==> folded.1)
                }),
            },
            old(self).started && r is Ok ==> exists|g: int|
                {
                    &&& 0 <= g < final(self).api_groups@.len()
                    &&& (#[trigger] final(self).api_groups@[g]).api_key_id.0@ == id.0@
                    &&& forall|t: u32|
                        symbols@.contains(t) ==> (#[trigger] final(self).symbol_to_api@.contains_key(t)) && final(self).symbol_to_api@[t] as int
                            == g
                },
    {
        if !self.started {
            return Err(String::from_str("Manager not started"));
        }
        let dmode = match mode {
            Some(m) => m,
            None => self.config.base_config.default_mode,
        };
        let ghost model0 = self.model();
        let ghost cap = self.config.base_config.max_symbols_per_connection as int;
        let gidx = match self.find_group(id) {
            Some(g) => g,
            None => {
                return Err(String::from_str("API key not found"));
            },
        };
        let n = symbols.len();
        let mut i: usize = 0;
        proof {
            assert(symbols@.subrange(0, 0) =~= Seq::<u32>::empty());
            assert(symbols@.skip(0) =~= symbols@);
        }
        while i < n
            invariant
                self.wf(),
                self.started,
                old(self).started,
                i <= n,
                n == symbols@.len(),
                self.config == old(self).config,
                self.api_groups@.len() == old(self).api_groups@.len(),
                (gidx as int) < self.api_groups@.len(),
                self.api_groups@[gidx as int].api_key_id.0@ == id.0@,
                dmode == mode.unwrap_or(old(self).config.base_config.default_mode),
                model0 == old(self).model(),
                cap == old(self).config.base_config.max_symbols_per_connection as int,
                first_group_index(model0.groups, id.0@) == Some(gidx as int),
                ({
                    let fold_full = api_subscribe_fold(model0, gidx as int, symbols@, dmode, cap);
                    let fold_rem = api_subscribe_fold(
                        self.model(),
                        gidx as int,
                        symbols@.skip(i as int),
                        dmode,
                        cap,
                    );
                    fold_full.0 == fold_rem.0 && fold_full.1 == fold_rem.1
                }),
                forall|t: u32|
                    symbols@.subrange(0, i as int).contains(t) ==> (#[trigger]
                    self.symbol_to_api@.contains_key(t)) && self.symbol_to_api@[t] == gidx,
            decreases n - i,
        {
            let ghost sm0 = self.symbol_to_api@;
            let ghost m_before = self.model();
            proof {
                assert(symbols@.skip(i as int)[0] == symbols@[i as int]);
                assert(symbols@.skip(i as int).drop_first() =~= symbols@.skip(i + 1));
                assert(m_before.groups[gidx as int]
                    == self.api_groups@[gidx as int].model());
            }
            match self.subscribe_symbol_to_api(gidx, symbols[i], dmode) {
                Ok(_) => {
                    proof {
                        assert(api_place_token(m_before, gidx as int, symbols@[i as int], dmode, cap).1);
                    }
                },
                Err(e) => {
                    proof {
                        assert(!api_place_token(
                            m_before,
                            gidx as int,
                            symbols@[i as int],
                            dmode,
                            cap,
                        ).1);
                        assert(api_subscribe_fold(
                            m_before,
                            gidx as int,
                            symbols@.skip(i as int),
                            dmode,
                            cap,
                        ) == (m_before, false));
                    }
                    return Err(e);
                },
            }
            proof {
                assert(self.symbol_to_api@ == sm0.insert(symbols@[i as int], gidx));
                assert forall|t: u32|
                    symbols@.subrange(0, i + 1).contains(t) implies (#[trigger]
                self.symbol_to_api@.contains_key(t)) && self.symbol_to_api@[t] == gidx by {
                    crate::ticker::lemma_subrange_contains_step(symbols@, i as int, t);
                }
            }
            i = i + 1;
        }
        proof {
            assert(symbols@.skip(n as int) =~= Seq::<u32>::empty());
        }
        proof {
            assert(symbols@.subrange(0, n as int) =~= symbols@);
            assert(exists|g: int|
                {
                    &&& 0 <= g < self.api_groups@.len()
                    &&& (#[trigger] self.api_groups@[g]).api_key_id.0@ == id.0@
                    &&& forall|t: u32|
                        symbols@.contains(t) ==> (#[trigger] self.symbol_to_api@.contains_key(t))
                            && self.symbol_to_api@[t] as int == g
                }) by {
                let g = gidx as int;
                assert(0 <= g < self.api_groups@.len());
                assert(self.api_groups@[g].api_key_id.0@ == id.0@);
                assert(forall|t: u32|
                    symbols@.contains(t) ==> (#[trigger] self.symbol_to_api@.contains_key(t))
                        && self.symbol_to_api@[t] as int == g);
            }
        }
        Ok(())
    }

    /// Subscribe symbols, distributing new ones round-robin over the API
    /// keys; symbols already subscribed anywhere are skipped. When every
    /// group runs out of room the walk stops and fails, but the symbols
    /// placed earlier stay placed. Fails when the manager was never
    /// started or the distribution strategy is manual; otherwise the run
    /// is exactly the auto-distribution fold, and it succeeds exactly
    /// when the fold places every symbol.
    pub fn subscribe_symbols(&mut self, symbols: &[u32], mode: Option<Mode>) -> (r: Result<
        (),
        String,
    >)
        requires
            old(self).wf(),
        ensures
            final(self).wf(),
            !old(self).started ==> r is Err && *final(self) == *old(self),
            old(self).started ==> final(self).started && final(self).config == old(self).config
                && final(self).api_groups@.len() == old(self).api_groups@.len(),
            old(self).started && old(self).config.distribution_strategy
                == DistributionStrategy::Manual ==> r is Err && *final(self) == *old(self),
            old(self).started && old(self).config.distribution_strategy
                != DistributionStrategy::Manual ==> ({
                let folded = api_auto_fold(
                    old(self).model(),
                    symbols@,
                    mode.unwrap_or(old(self).config.base_config.default_mode),
                    old(self).config.base_config.max_symbols_per_connection as int,
                );
                &&& final(self).model() == folded.0
                &&& (r is Ok <==> folded.1)
            }),
            old(self).started && r is Ok ==> forall|t: u32|
                symbols@.contains(t) ==> #[trigger] final(self).symbol_to_api@.contains_key(t),
    {
        if !self.started {
            return Err(String::from_str("Manager not started"));
        }
        if matches!(self.config.distribution_strategy, DistributionStrategy::Manual) {
            return Err(
                String::from_str(
                    "Cannot use auto-subscribe with Manual distribution strategy. Use subscribe_symbols_to_api instead.",
                ),
            );
        }
        let dmode = match mode {
            Some(m) => m,
            None => self.config.base_config.default_mode,
        };
        let ghost model0 = self.model();
        let ghost cap = self.config.base_config.max_symbols_per_connection as int;
        let n = symbols.len();
        let mut i: usize = 0;
        proof {
            assert(symbols@.subrange(0, 0) =~= Seq::<u32>::empty());
            assert(symbols@.skip(0) =~= symbols@);
        }
        while i < n
            invariant
                self.wf(),
                self.started,
                old(self).started,
                i <= n,
                n == symbols@.len(),
                self.config == old(self).config,
                self.api_groups@.len() == old(self).api_groups@.len(),
                dmode == mode.unwrap_or(old(self).config.base_config.default_mode),
                model0 == old(self).model(),
                cap == old(self).config.base_config.max_symbols_per_connection as int,
                self.config.distribution_strategy != DistributionStrategy::Manual,
                ({
                    let fold_full = api_auto_fold(model0, symbols@, dmode, cap);
                    let fold_rem = api_auto_fold(self.model(), symbols@.skip(i as int), dmode, cap);
                    fold_full.0 == fold_rem.0 && fold_full.1 == fold_rem.1
                }),
                forall|t: u32|
                    symbols@.subrange(0, i as int).contains(t) ==> #[trigger]
                    self.symbol_to_api@.contains_key(t),
            decreases n - i,
        {
            let t = symbols[i];
            let ghost sm0 = self.symbol_to_api@;
            let ghost m_before = self.model();
            proof {
                assert(symbols@.skip(i as int)[0] == symbols@[i as int]);
                assert(symbols@.skip(i as int).drop_first() =~= symbols@.skip(i + 1));
                assert(m_before.symbol_to_api.dom() =~= self.symbol_to_api@.dom());
            }
            if !self.symbol_to_api.contains_key(&t) {
                proof {
                    assert(!m_before.symbol_to_api.contains_key(t));
                }
                let gidx = match self.find_available_api_key() {
                    Ok(g) => g,
                    Err(e) => {
                        proof {
                            assert(api_rr_pick(m_before.groups, m_before.cursor, cap) is None);
                            assert(api_auto_fold(m_before, symbols@.skip(i as int), dmode, cap)
                                == (m_before, false));
                        }
                        return Err(e);
                    },
                };
                let ghost m_adv = MultiModel { cursor: (gidx as int + 1) % (
                    self.api_groups@.len() as int), ..m_before };
                proof {
                    assert(api_rr_pick(m_before.groups, m_before.cursor, cap) == Some(
                        gidx as int,
                    ));
                    lemma_api_rr_scan_props(m_before.groups, m_before.cursor, cap, 0);
                    assert((gidx as int) < self.api_groups@.len());
                    assert(self.model() == m_adv) by {
                        assert(self.model().groups =~= m_adv.groups);
                        assert(self.model().symbol_to_api =~= m_adv.symbol_to_api);
                    }
                    assert(group_has_room(m_adv.groups[gidx as int], cap));
                    assert(m_adv.groups[gidx as int]
                        == self.api_groups@[gidx as int].model());
                }
                match self.subscribe_symbol_to_api(gidx, t, dmode) {
                    Ok(_) => {
                        proof {
                            assert(self.model() == api_place_token(
                                m_adv,
                                gidx as int,
                                t,
                                dmode,
                                cap,
                            ).0);
                        }
                    },
                    Err(e) => {
                        // A group with room never refuses a placement.
                        proof {
                            assert(false);
                        }
                        return Err(e);
                    },
                }
                proof {
                    assert(self.symbol_to_api@ == sm0.insert(t, gidx));
                }
            } else {
                proof {
                    assert(m_before.symbol_to_api.contains_key(t));
                    assert(api_auto_fold(m_before, symbols@.skip(i as int), dmode, cap)
                        == api_auto_fold(m_before, symbols@.skip(i + 1), dmode, cap));
                }
            }
            proof {
                assert forall|t2: u32|
                    symbols@.subrange(0, i + 1).contains(t2) implies #[trigger]
                self.symbol_to_api@.contains_key(t2) by {
                    crate::ticker::lemma_subrange_contains_step(symbols@, i as int, t2);
                }
            }
            i = i + 1;
        }
        proof {
            assert(symbols@.subrange(0, n as int) =~= symbols@);
            assert(symbols@.skip(n as int) =~= Seq::<u32>::empty());
        }
        Ok(())
    }

    /// Unsubscribe symbols: each one leaves its connection's table, its
    /// group's index and the global index; unknown symbols are skipped.
    /// Fails with everything unchanged when the manager was never
    /// started.
    pub fn unsubscribe_symbols(&mut self, symbols: &[u32]) -> (r: Result<(), String>)
        requires
            old(self).wf(),
        ensures
            final(self).wf(),
            !old(self).started ==> r is Err && *final(self) == *old(self),
            old(self).started ==> {
                &&& final(self).started
                &&& final(self).config == old(self).config
                &&& final(self).api_groups@.len() == old(self).api_groups@.len()
                &&& r is Ok
                &&& forall|t: u32|
                    symbols@.contains(t) ==> !(#[trigger] final(self).symbol_to_api@.contains_key(
                        t,
                    ))
                &&& forall|t: u32|
                    !symbols@.contains(t) ==> ((#[trigger] final(self).symbol_to_api@.contains_key(
                        t,
                    )) <==> old(self).symbol_to_api@.contains_key(t))
            },
    {
        if !self.started {
            return Err(String::from_str("Manager not started"));
        }
        let n = symbols.len();
        let mut i: usize = 0;
        proof {
            assert(symbols@.subrange(0, 0) =~= Seq::<u32>::empty());
        }
        while i < n
            invariant
                self.wf(),
                self.started,
                old(self).started,
                i <= n,
                n == symbols@.len(),
                self.config == old(self).config,
                self.api_groups@.len() == old(self).api_groups@.len(),
                forall|t: u32|
                    symbols@.subrange(0, i as int).contains(t) ==> !(#[trigger]
                    self.symbol_to_api@.contains_key(t)),
                forall|t: u32|
                    !symbols@.subrange(0, i as int).contains(t) ==> ((#[trigger]
                    self.symbol_to_api@.contains_key(t)) <==> old(self).symbol_to_api@.contains_key(
                        t,
                    )),
            decreases n - i,
        {
            let t = symbols[i];
            let ghost sm0 = self.symbol_to_api@;
            let gidx_opt = match self.symbol_to_api.get(&t) {
                Some(v) => Some(*v),
                None => None,
            };
            match gidx_opt {
                Some(gidx) => {
                    proof {
                        assert(self.symbol_to_api@.contains_key(t));
                        assert((gidx as int) < self.api_groups@.len());
                    }
                    let ghost g0 = self.api_groups@[gidx as int];
                    let ghost gs0 = self.api_groups@;
                    let ci_opt = match self.api_groups[gidx].subscribed_symbols.get(&t) {
                        Some(v) => Some(*v),
                        None => None,
                    };
                    match ci_opt {
                        Some((ci, _m)) => {
                            proof {
                                assert(g0.subscribed_symbols@.contains_key(t));
                                assert((ci as int) < g0.connections@.len());
                            }
                            let _removed = self.api_groups[gidx].connections[ci].remove_symbols(
                                &[t],
                            );
                            self.api_groups[gidx].subscribed_symbols.remove(&t);
                        },
                        None => {},
                    }
                    self.symbol_to_api.remove(&t);
                    proof {
                        assert(self.wf()) by {
                            assert forall|t2: u32| #[trigger]
                                self.symbol_to_api@.contains_key(t2) implies (
                            self.symbol_to_api@[t2] as int) < self.api_groups@.len() by {
                                assert(sm0.contains_key(t2));
                            }
                        }
                    }
                },
                None => {},
            }
            proof {
                assert forall|t2: u32|
                    symbols@.subrange(0, i + 1).contains(t2) implies !(#[trigger]
                self.symbol_to_api@.contains_key(t2)) by {
                    crate::ticker::lemma_subrange_contains_step(symbols@, i as int, t2);
                }
                assert forall|t2: u32|
                    !symbols@.subrange(0, i + 1).contains(t2) implies ((#[trigger]
                self.symbol_to_api@.contains_key(t2)) <==> old(self).symbol_to_api@.contains_key(
                    t2,
                )) by {
                    crate::ticker::lemma_subrange_contains_step(symbols@, i as int, t2);
                }
            }
            i = i + 1;
        }
        proof {
            assert(symbols@.subrange(0, n as int) =~= symbols@);
        }
        Ok(())
    }

    /// Change the subscription mode of symbols: each subscribed one takes
    /// the new mode on its connection and in its group's index; unknown
    /// symbols are skipped. Fails with everything unchanged when the
    /// manager was never started.
    pub fn change_mode(&mut self, symbols: &[u32], mode: Mode) -> (r: Result<(), String>)
        requires
            old(self).wf(),
        ensures
            final(self).wf(),
            !old(self).started ==> r is Err && *final(self) == *old(self),
            old(self).started ==> final(self).started && final(self).config == old(self).config
                && final(self).api_groups@.len() == old(self).api_groups@.len() && r is Ok,
            old(self).started ==> final(self).symbol_to_api == old(self).symbol_to_api,
            old(self).started ==> forall|t: u32|
                symbols@.contains(t) && (#[trigger] old(self).symbol_to_api@.contains_key(t)) ==> {
                    let g = old(self).symbol_to_api@[t] as int;
                    old(self).api_groups@[g].subscribed_symbols@.contains_key(t) ==> final(self).api_groups@[g].subscribed_symbols@.contains_key(t) && final(self).api_groups@[g].subscribed_symbols@[t].1 == mode
                },
    {
        if !self.started {
            return Err(String::from_str("Manager not started"));
        }
        let n = symbols.len();
        let mut i: usize = 0;
        proof {
            assert(symbols@.subrange(0, 0) =~= Seq::<u32>::empty());
        }
        while i < n
            invariant
                self.wf(),
                self.started,
                old(self).started,
                i <= n,
                n == symbols@.len(),
                self.config == old(self).config,
                self.api_groups@.len() == old(self).api_groups@.len(),
                self.symbol_to_api == old(self).symbol_to_api,
                forall|g: int, t: u32|
                    0 <= g < self.api_groups@.len() && (#[trigger] old(self).api_groups@[g].subscribed_symbols@.contains_key(t))
                        ==> self.api_groups@[g].subscribed_symbols@.contains_key(t),
                forall|t: u32|
                    symbols@.subrange(0, i as int).contains(t) && (#[trigger] old(self).symbol_to_api@.contains_key(t)) ==> {
                        let g = old(self).symbol_to_api@[t] as int;
                        old(self).api_groups@[g].subscribed_symbols@.contains_key(t)
                            ==> self.api_groups@[g].subscribed_symbols@.contains_key(t)
                            && self.api_groups@[g].subscribed_symbols@[t].1 == mode
                    },
            decreases n - i,
        {
            let t = symbols[i];
            let ghost sm0 = self.symbol_to_api@;
            let ghost gs_pre = self.api_groups@;
            let gidx_opt = match self.symbol_to_api.get(&t) {
                Some(v) => Some(*v),
                None => None,
            };
            match gidx_opt {
                Some(gidx) => {
                    proof {
                        assert(self.symbol_to_api@.contains_key(t));
                        assert((gidx as int) < self.api_groups@.len());
                    }
                    let ghost g0 = self.api_groups@[gidx as int];
                    let ghost gs0 = self.api_groups@;
                    let ci_opt = match self.api_groups[gidx].subscribed_symbols.get(&t) {
                        Some(v) => Some(*v),
                        None => None,
                    };
                    match ci_opt {
                        Some((ci, _m)) => {
                            proof {
                                assert(g0.subscribed_symbols@.contains_key(t));
                                assert((ci as int) < g0.connections@.len());
                            }
                            self.api_groups[gidx].connections[ci].subscribed_symbols.insert(
                                t,
                                mode,
                            );
                            self.api_groups[gidx].subscribed_symbols.insert(t, (ci, mode));
                            proof {
                                assert(self.api_groups@[gidx as int].subscribed_symbols@
                                    == g0.subscribed_symbols@.insert(t, (ci, mode)));
                                assert forall|j: int|
                                    0 <= j < self.api_groups@.len() && j != gidx
                                        implies self.api_groups@[j] == gs0[j] by {}
                                assert(self.wf()) by {
                                    let g1 = self.api_groups@[gidx as int];
                                    assert forall|t2: u32| #[trigger]
                                        g1.subscribed_symbols@.contains_key(t2) implies (
                                    g1.subscribed_symbols@[t2].0 as int) < g1.connections@.len() by {
                                        if t2 != t {
                                            assert(g0.subscribed_symbols@.contains_key(t2));
                                        }
                                    }
                                    assert forall|t2: u32| #[trigger]
                                        self.symbol_to_api@.contains_key(t2) implies (
                                    self.symbol_to_api@[t2] as int) < self.api_groups@.len() by {
                                        assert(sm0.contains_key(t2));
                                    }
                                }
                            }
                        },
                        None => {},
                    }
                },
                None => {},
            }
            proof {
                assert forall|g: int, t2: u32|
                    0 <= g < self.api_groups@.len() && (#[trigger] old(self).api_groups@[g].subscribed_symbols@.contains_key(t2))
                        implies self.api_groups@[g].subscribed_symbols@.contains_key(t2) by {
                    assert(gs_pre[g].subscribed_symbols@.contains_key(t2));
                }
                assert forall|t2: u32|
                    symbols@.subrange(0, i + 1).contains(t2) && (#[trigger] old(self).symbol_to_api@.contains_key(t2)) implies {
                    let g = old(self).symbol_to_api@[t2] as int;
                    old(self).api_groups@[g].subscribed_symbols@.contains_key(t2)
                        ==> self.api_groups@[g].subscribed_symbols@.contains_key(t2)
                        && self.api_groups@[g].subscribed_symbols@[t2].1 == mode
                } by {
                    crate::ticker::lemma_subrange_contains_step(symbols@, i as int, t2);
                    let g = old(self).symbol_to_api@[t2] as int;
                    if old(self).api_groups@[g].subscribed_symbols@.contains_key(t2) {
                        if t2 == t {
                            assert(sm0.contains_key(t));
                            assert(sm0[t] as int == g);
                            assert(gs_pre[g].subscribed_symbols@.contains_key(t));
                        } else {
                            assert(symbols@.subrange(0, i as int).contains(t2) ==> {
                                gs_pre[g].subscribed_symbols@.contains_key(t2)
                                    && gs_pre[g].subscribed_symbols@[t2].1 == mode
                            });
                        }
                    }
                }
            }
            i = i + 1;
        }
        proof {
            assert(symbols@.subrange(0, n as int) =~= symbols@);
        }
        Ok(())
    }

    /// The identifiers of all configured API keys, in group order.
    pub fn get_api_keys(&self) -> (r: Vec<ApiKeyId>)
        ensures
            r@.len() == self.api_groups@.len(),
            forall|j: int|
                0 <= j < r@.len() ==> (#[trigger] r@[j]).0@ == self.api_groups@[j].api_key_id.0@,
    {
        let n = self.api_groups.len();
        let mut r: Vec<ApiKeyId> = Vec::new();
        let mut j: usize = 0;
        while j < n
            invariant
                j <= n,
                n == self.api_groups@.len(),
                r@.len() == j,
                forall|k: int|
                    0 <= k < j ==> (#[trigger] r@[k]).0@ == self.api_groups@[k].api_key_id.0@,
            decreases n - j,
        {
            let id = ApiKeyId(self.api_groups[j].api_key_id.0.clone());
            r.push(id);
            j = j + 1;
        }
        r
    }

    /// The number of symbols each API key carries, in group order.
    pub fn get_symbol_distribution(&self) -> (r: Vec<(ApiKeyId, usize)>)
        ensures
            r@.len() == self.api_groups@.len(),
            forall|j: int|
                0 <= j < r@.len() ==> {
                    &&& (#[trigger] r@[j]).0.0@ == self.api_groups@[j].api_key_id.0@
                    &&& r@[j].1 == self.api_groups@[j].subscribed_symbols@.dom().len()
                },
    {
        let n = self.api_groups.len();
        let mut r: Vec<(ApiKeyId, usize)> = Vec::new();
        let mut j: usize = 0;
        while j < n
            invariant
                j <= n,
                n == self.api_groups@.len(),
                r@.len() == j,
                forall|k: int|
                    0 <= k < j ==> {
                        &&& (#[trigger] r@[k]).0.0@ == self.api_groups@[k].api_key_id.0@
                        &&& r@[k].1 == self.api_groups@[k].subscribed_symbols@.dom().len()
                    },
            decreases n - j,
        {
            let id = ApiKeyId(self.api_groups[j].api_key_id.0.clone());
            let cnt = self.api_groups[j].total_symbols();
            r.push((id, cnt));
            j = j + 1;
        }
        r
    }
}


/// If some table has room, the round-robin scan finds one.
proof fn lemma_room_means_pick(tables: Seq<Map<u32, Mode>>, cursor: int, cap: int)
    requires
        0 <= cursor < tables.len(),
        exists|i: int| 0 <= i < tables.len() && (#[trigger] tables[i]).dom().len() < cap,
    ensures
        rr_pick(tables, cursor, cap) is Some,
{
    if rr_pick(tables, cursor, cap) is None {
        crate::connection_manager::lemma_rr_pick_none_all_full(tables, cursor, cap);
    }
}

/// If no table has room, the round-robin scan fails.
proof fn lemma_no_room_means_none(tables: Seq<Map<u32, Mode>>, cursor: int, cap: int, k: int)
    requires
        forall|i: int| 0 <= i < tables.len() ==> (#[trigger] tables[i]).dom().len() >= cap,
        0 <= k,
    ensures
        rr_scan(tables, cursor, cap, k) is None,
    decreases tables.len() - k,
{
    if k < tables.len() {
        vstd::arithmetic::div_mod::lemma_mod_bound(cursor + k, tables.len() as int);
        lemma_no_room_means_none(tables, cursor, cap, k + 1);
    }
}

} // verus!
