use vstd::prelude::*;

use crate::config::ChannelId;
use crate::mode::Mode;
use crate::ticker::{
    fresh_tokens, lemma_subrange_contains_step, present_tokens, table_after_adds,
    table_after_removes,
};
use std::collections::HashMap;

verus! {

broadcast use vstd::std_specs::hash::group_hash_axioms;

/// A token table after an initial subscribe of a list of tokens: the
/// listed tokens are present at the given mode (overwriting any earlier
/// mode), and everything else is untouched.
pub open spec fn table_after_assign(
    m: Map<u32, Mode>,
    m0: Map<u32, Mode>,
    ts: Seq<u32>,
    mode: Mode,
) -> bool {
    &&& forall|t: u32|
        #![trigger m.contains_key(t)]
        #![trigger m0.contains_key(t)]
        #![trigger ts.contains(t)]
        m.contains_key(t) <==> (m0.contains_key(t) || ts.contains(t))
    &&& forall|t: u32|
        #![trigger ts.contains(t)]
        #![trigger m[t]]
        ts.contains(t) ==> m.contains_key(t) && m[t] == mode
    &&& forall|t: u32|
        #![trigger m0.contains_key(t)]
        #![trigger m[t]]
        m0.contains_key(t) && !ts.contains(t) ==> m[t] == m0[t]
}

/// Whether a frame was seen recently enough for the connection to count
/// as alive: some frame has arrived, and not longer ago than the
/// threshold (a clock running behind the last frame also counts as
/// alive).
pub open spec fn frame_live_spec(last_ping: u64, now: u64, threshold: u64) -> bool {
    last_ping > 0 && (now >= last_ping ==> now - last_ping <= threshold)
}

/// Whether a frame arrived within the liveness window, judged at the
/// given time; the free-function form of the liveness rule, for callers
/// that hold the raw numbers.
pub fn frame_live(last_ping: u64, now: u64, threshold: u64) -> (r: bool)
    ensures
        r == frame_live_spec(last_ping, now, threshold),
{
    if last_ping == 0 {
        false
    } else if now >= last_ping {
        now - last_ping <= threshold
    } else {
        true
    }
}

/// One managed WebSocket connection's control state: its channel
/// identifier, its symbol table, its health flag, and the time of the
/// last inbound frame. The session I/O around it lives outside the
/// library; tasks that watch the socket update `healthy` and `last_ping`.
#[derive(Debug)]
pub struct ManagedConnection {
    pub id: ChannelId,
    pub subscribed_symbols: HashMap<u32, Mode>,
    /// True iff the connection currently counts as healthy.
    pub healthy: bool,
    /// Seconds since the epoch of the last inbound frame; zero before any.
    pub last_ping: u64,
    /// Liveness window in seconds.
    pub heartbeat_liveness_threshold: u64,
}

impl ManagedConnection {
    /// The connection's symbol table.
    pub open spec fn table(&self) -> Map<u32, Mode> {
        self.subscribed_symbols@
    }

    /// A fresh connection: empty table, not healthy, no frame seen, the
    /// default 10 s liveness window.
    pub fn new(id: ChannelId) -> (r: Self)
        ensures
            r.id == id,
            r.table() == Map::<u32, Mode>::empty(),
            !r.healthy,
            r.last_ping == 0,
            r.heartbeat_liveness_threshold == 10,
    {
        ManagedConnection {
            id,
            subscribed_symbols: HashMap::new(),
            healthy: false,
            last_ping: 0,
            heartbeat_liveness_threshold: 10,
        }
    }

    /// Initial subscribe on this connection: every listed token enters
    /// the table at the given mode.
    pub fn subscribe_symbols(&mut self, symbols: &[u32], mode: Mode)
        ensures
            table_after_assign(final(self).table(), old(self).table(), symbols@, mode),
            final(self).id == old(self).id,
            final(self).healthy == old(self).healthy,
            final(self).last_ping == old(self).last_ping,
            final(self).heartbeat_liveness_threshold == old(self).heartbeat_liveness_threshold,
    {
        let n = symbols.len();
        proof {
            assert(symbols@.subrange(0, 0) =~= Seq::<u32>::empty());
        }
        for i in 0..n
            invariant
                n == symbols@.len(),
                table_after_assign(
                    self.table(),
                    old(self).table(),
                    symbols@.subrange(0, i as int),
                    mode,
                ),
                self.id == old(self).id,
                self.healthy == old(self).healthy,
                self.last_ping == old(self).last_ping,
                self.heartbeat_liveness_threshold == old(self).heartbeat_liveness_threshold,
            decreases n - i,
        {
            let ghost m_i = self.table();
            let t = symbols[i];
            self.subscribed_symbols.insert(t, mode);
            proof {
                let ghost m_new = self.table();
                assert(m_new =~= m_i.insert(t, mode));
                assert forall|tt: u32|
                    m_new.contains_key(tt) <==> (old(self).table().contains_key(tt)
                        || symbols@.subrange(0, i + 1).contains(tt)) by {
                    lemma_subrange_contains_step(symbols@, i as int, tt);
                }
                assert forall|tt: u32|
                    symbols@.subrange(0, i + 1).contains(tt) implies m_new.contains_key(tt)
                    && m_new[tt] == mode by {
                    lemma_subrange_contains_step(symbols@, i as int, tt);
                }
                assert forall|tt: u32|
                    old(self).table().contains_key(tt) && !symbols@.subrange(0, i + 1).contains(
                        tt,
                    ) implies m_new[tt] == old(self).table()[tt] by {
                    lemma_subrange_contains_step(symbols@, i as int, tt);
                }
                assert(table_after_assign(
                    m_new,
                    old(self).table(),
                    symbols@.subrange(0, i + 1),
                    mode,
                ));
            }
        }
        proof {
            assert(symbols@.subrange(0, n as int) =~= symbols@);
        }
    }

    /// Incremental subscribe: the listed tokens not yet in the table are
    /// adopted at the given mode and returned; tokens already present
    /// keep their mode.
    #[verifier::rlimit(60)]
    pub fn add_symbols(&mut self, symbols: &[u32], mode: Mode) -> (new_tokens: Vec<u32>)
        ensures
            table_after_adds(final(self).table(), old(self).table(), symbols@, mode),
            new_tokens@ == fresh_tokens(old(self).table().dom(), symbols@),
            final(self).id == old(self).id,
            final(self).healthy == old(self).healthy,
            final(self).last_ping == old(self).last_ping,
            final(self).heartbeat_liveness_threshold == old(self).heartbeat_liveness_threshold,
    {
        let ghost dom0 = self.table().dom();
        let mut new_tokens: Vec<u32> = Vec::new();
        let n = symbols.len();
        proof {
            assert(symbols@.skip(0) =~= symbols@);
            assert(symbols@.subrange(0, 0) =~= Seq::<u32>::empty());
            assert(Seq::<u32>::empty() + fresh_tokens(dom0, symbols@) =~= fresh_tokens(
                dom0,
                symbols@,
            ));
        }
        for i in 0..n
            invariant
                n == symbols@.len(),
                fresh_tokens(dom0, symbols@) =~= new_tokens@ + fresh_tokens(
                    self.table().dom(),
                    symbols@.skip(i as int),
                ),
                table_after_adds(
                    self.table(),
                    old(self).table(),
                    symbols@.subrange(0, i as int),
                    mode,
                ),
                dom0 == old(self).table().dom(),
                self.id == old(self).id,
                self.healthy == old(self).healthy,
                self.last_ping == old(self).last_ping,
                self.heartbeat_liveness_threshold == old(self).heartbeat_liveness_threshold,
            decreases n - i,
        {
            let ghost m_i = self.table();
            let ghost dom_i = self.table().dom();
            let ghost nt0 = new_tokens@;
            proof {
                assert(symbols@.skip(i as int)[0] == symbols@[i as int]);
                assert(symbols@.skip(i as int).drop_first() =~= symbols@.skip(i + 1));
                assert(table_after_adds(
                    m_i,
                    old(self).table(),
                    symbols@.subrange(0, i as int),
                    mode,
                ));
            }
            let t = symbols[i];
            if !self.subscribed_symbols.contains_key(&t) {
                self.subscribed_symbols.insert(t, mode);
                new_tokens.push(t);
                proof {
                    assert(self.table().dom() =~= dom_i.insert(t));
                    let rest = fresh_tokens(dom_i.insert(t), symbols@.skip(i + 1));
                    assert(fresh_tokens(dom_i, symbols@.skip(i as int)) == seq![t] + rest);
                    assert(nt0 + (seq![t] + rest) =~= nt0.push(t) + rest);
                }
            } else {
                proof {
                    assert(self.table().dom() =~= dom_i);
                    assert(fresh_tokens(dom_i, symbols@.skip(i as int)) == fresh_tokens(
                        dom_i,
                        symbols@.skip(i + 1),
                    ));
                }
            }
            proof {
                let ghost m_new = self.table();
                assert forall|tt: u32|
                    m_new.contains_key(tt) <==> (dom0.contains(tt) || symbols@.subrange(
                        0,
                        i + 1,
                    ).contains(tt)) by {
                    lemma_subrange_contains_step(symbols@, i as int, tt);
                    assert(dom_i.contains(tt) <==> (dom0.contains(tt) || symbols@.subrange(
                        0,
                        i as int,
                    ).contains(tt)));
                    assert(m_new.contains_key(tt) <==> (dom_i.contains(tt) || tt == t));
                }
                assert forall|tt: u32| old(self).table().contains_key(tt) implies m_new.contains_key(
                    tt,
                ) && m_new[tt] == old(self).table()[tt] by {
                    assert(m_i.contains_key(tt) && m_i[tt] == old(self).table()[tt]) by {
                        assert(table_after_adds(
                            m_i,
                            old(self).table(),
                            symbols@.subrange(0, i as int),
                            mode,
                        ));
                    }
                    assert(dom_i.contains(tt));
                }
                assert forall|tt: u32|
                    m_new.contains_key(tt) && !old(self).table().contains_key(
                        tt,
                    ) implies m_new[tt] == mode by {}
                assert(table_after_adds(
                    m_new,
                    old(self).table(),
                    symbols@.subrange(0, i + 1),
                    mode,
                ));
            }
        }
        proof {
            assert(symbols@.subrange(0, n as int) =~= symbols@);
            assert(symbols@.skip(n as int) =~= Seq::empty());
            assert(new_tokens@ + Seq::<u32>::empty() =~= new_tokens@);
        }
        new_tokens
    }

    /// Incremental unsubscribe: the listed tokens that are in the table
    /// leave it and are returned; the rest of the table is untouched.
    pub fn remove_symbols(&mut self, symbols: &[u32]) -> (removed: Vec<u32>)
        ensures
            table_after_removes(
                final(self).table(),
                old(self).table(),
                present_tokens(old(self).table().dom(), symbols@),
            ),
            removed@ == present_tokens(old(self).table().dom(), symbols@),
            final(self).id == old(self).id,
            final(self).healthy == old(self).healthy,
            final(self).last_ping == old(self).last_ping,
            final(self).heartbeat_liveness_threshold == old(self).heartbeat_liveness_threshold,
    {
        let ghost dom0 = self.table().dom();
        let ghost m0 = self.table();
        let mut removed: Vec<u32> = Vec::new();
        let n = symbols.len();
        proof {
            assert(symbols@.skip(0) =~= symbols@);
            assert(Seq::<u32>::empty() + present_tokens(dom0, symbols@) =~= present_tokens(
                dom0,
                symbols@,
            ));
        }
        for i in 0..n
            invariant
                n == symbols@.len(),
                present_tokens(dom0, symbols@) =~= removed@ + present_tokens(
                    dom0,
                    symbols@.skip(i as int),
                ),
                self.table() == m0,
                m0 == old(self).table(),
                dom0 == old(self).table().dom(),
                self.id == old(self).id,
                self.healthy == old(self).healthy,
                self.last_ping == old(self).last_ping,
                self.heartbeat_liveness_threshold == old(self).heartbeat_liveness_threshold,
            decreases n - i,
        {
            proof {
                assert(symbols@.skip(i as int)[0] == symbols@[i as int]);
                assert(symbols@.skip(i as int).drop_first() =~= symbols@.skip(i + 1));
            }
            if self.subscribed_symbols.contains_key(&symbols[i]) {
                removed.push(symbols[i]);
            }
        }
        proof {
            assert(symbols@.skip(n as int) =~= Seq::empty());
            assert(removed@ + Seq::<u32>::empty() =~= removed@);
            assert(removed@.subrange(0, 0) =~= Seq::<u32>::empty());
        }
        let k = removed.len();
        for i in 0..k
            invariant
                k == removed@.len(),
                table_after_removes(self.table(), m0, removed@.subrange(0, i as int)),
                m0 == old(self).table(),
                self.id == old(self).id,
                self.healthy == old(self).healthy,
                self.last_ping == old(self).last_ping,
                self.heartbeat_liveness_threshold == old(self).heartbeat_liveness_threshold,
            decreases k - i,
        {
            let ghost m_i = self.table();
            let t = removed[i];
            self.subscribed_symbols.remove(&t);
            proof {
                let ghost m_new = self.table();
                assert(m_new =~= m_i.remove(t));
                assert forall|tt: u32|
                    m_new.contains_key(tt) <==> (m0.contains_key(tt) && !removed@.subrange(
                        0,
                        i + 1,
                    ).contains(tt)) by {
                    lemma_subrange_contains_step(removed@, i as int, tt);
                    assert(m_i.contains_key(tt) <==> (m0.contains_key(tt) && !removed@.subrange(
                        0,
                        i as int,
                    ).contains(tt)));
                    assert(m_new.contains_key(tt) <==> (m_i.contains_key(tt) && tt != t));
                }
                assert(table_after_removes(m_new, m0, removed@.subrange(0, i + 1)));
            }
        }
        proof {
            assert(removed@.subrange(0, k as int) =~= removed@);
        }
        removed
    }

    /// Whether this connection can take `count` more symbols under the
    /// per-connection cap.
    pub fn can_accept_symbols(&self, count: usize, max_per_connection: usize) -> (r: bool)
        ensures
            r == (self.table().dom().len() + count <= max_per_connection),
    {
        let len = self.subscribed_symbols.len();
        count <= max_per_connection && len <= max_per_connection - count
    }

    /// The number of symbols this connection carries.
    pub fn symbol_count(&self) -> (r: usize)
        ensures
            r == self.table().dom().len(),
    {
        self.subscribed_symbols.len()
    }

    /// The connection's health flag.
    pub fn is_healthy(&self) -> (r: bool)
        ensures
            r == self.healthy,
    {
        self.healthy
    }

    /// Whether a frame arrived within the liveness window, judged at the
    /// given time (seconds since the epoch). A session that sees only
    /// 1-byte heartbeats stays live, since the frame watcher records
    /// every inbound frame.
    pub fn frame_seen_recently(&self, now: u64) -> (r: bool)
        ensures
            r == frame_live_spec(self.last_ping, now, self.heartbeat_liveness_threshold),
    {
        frame_live(self.last_ping, now, self.heartbeat_liveness_threshold)
    }
}

} // verus!
