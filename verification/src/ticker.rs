use vstd::prelude::*;

use crate::mode::Mode;
use crate::parser::{be_u16_at, read_u16_at};
use crate::request::Request;
use crate::tick::{tick_matches, valid_tick_len, Tick};
use crate::tick_message::TickMessage;
use crate::ticker_message::TickerMessage;
use std::collections::HashMap;
use vstd::std_specs::iter::IteratorSpec;

verus! {

broadcast use vstd::std_specs::hash::group_hash_axioms;

/// The packets a frame holds, walked from a position with a packet count:
/// the (body offset, body length) of each packet whose length the protocol
/// defines, and whether any packet was dropped — for an unrecognized
/// length, or because a length field overran the frame (which stops the
/// walk and drops the rest).
pub open spec fn packets_spec(b: Seq<u8>, i: int, count: int) -> (Seq<(int, int)>, bool)
    decreases count,
{
    if count <= 0 {
        (Seq::empty(), false)
    } else if i + 2 > b.len() {
        (Seq::empty(), true)
    } else {
        let len = be_u16_at(b, i);
        let next = i + 2 + len;
        if next > b.len() {
            (Seq::empty(), true)
        } else {
            let rest = packets_spec(b, next, count - 1);
            if valid_tick_len(len) {
                (seq![(i + 2, len)] + rest.0, rest.1)
            } else {
                (rest.0, true)
            }
        }
    }
}

/// A list of tick messages decodes the given packets of a frame, in
/// order, each message carrying its tick's token.
pub open spec fn ticks_match_packets(msgs: Seq<TickMessage>, ps: Seq<(int, int)>, b: Seq<u8>) -> bool {
    &&& msgs.len() == ps.len()
    &&& forall|k: int|
        0 <= k < ps.len() ==> {
            &&& tick_matches((#[trigger] msgs[k]).content, b.subrange(ps[k].0, ps[k].0 + ps[k].1))
            &&& msgs[k].instrument_token == msgs[k].content.instrument_token
        }
}

/// What processing a binary frame yields: nothing for a short frame or an
/// empty packet count; the decoded ticks when any packet decoded; and,
/// whenever a packet was dropped, a separate error message — after the
/// ticks if there are any, so partial progress is never discarded and the
/// drop is never silent.
pub open spec fn process_binary_post(r: Seq<TickerMessage>, b: Seq<u8>) -> bool {
    if b.len() < 2 {
        r.len() == 0
    } else {
        let num = be_u16_at(b, 0);
        let parsed = packets_spec(b, 2, num);
        if num == 0 {
            r.len() == 0
        } else if parsed.0.len() > 0 && !parsed.1 {
            r.len() == 1 && (r[0] matches TickerMessage::Ticks(msgs) && ticks_match_packets(
                msgs@,
                parsed.0,
                b,
            ))
        } else if parsed.0.len() > 0 && parsed.1 {
            &&& r.len() == 2
            &&& (r[0] matches TickerMessage::Ticks(msgs) && ticks_match_packets(
                msgs@,
                parsed.0,
                b,
            ))
            &&& (r[1] matches TickerMessage::Error(s) && s@ == "Failed to parse tick(s) in frame"@)
        } else if parsed.1 {
            r.len() == 1 && (r[0] matches TickerMessage::Error(s) && s@
                == "Failed to parse tick(s) in frame"@)
        } else {
            r.len() == 0
        }
    }
}

/// Walk the packets of a binary frame and decode each body. Packets of an
/// unrecognized length are dropped; a length field that overruns the frame
/// stops the walk and drops the rest; already-decoded ticks are kept
/// either way. Yields the ticks when any packet decoded, followed by a
/// separate error message whenever a packet was dropped.
pub fn process_binary(binary_message: &[u8]) -> (r: Vec<TickerMessage>)
    ensures
        process_binary_post(r@, binary_message@),
{
    let len = binary_message.len();
    if len < 2 {
        return Vec::new();
    }
    let num_packets = read_u16_at(binary_message, 0) as usize;
    if num_packets == 0 {
        return Vec::new();
    }
    let ghost b = binary_message@;
    let ghost full = packets_spec(b, 2, num_packets as int);
    let mut ticks: Vec<TickMessage> = Vec::new();
    let mut had_error = false;
    let mut overrun = false;
    let mut start: usize = 2;
    let mut k: usize = 0;
    let ghost mut done: Seq<(int, int)> = Seq::empty();
    while k < num_packets && !overrun
        invariant
            b == binary_message@,
            len == b.len(),
            2 <= start <= len,
            len >= 2,
            k <= num_packets,
            full == packets_spec(b, 2, num_packets as int),
            ticks_match_packets(ticks@, done, b),
            !overrun ==> {
                let rem = packets_spec(b, start as int, num_packets - k);
                full.0 == done + rem.0 && full.1 == (had_error || rem.1)
            },
            overrun ==> full.0 == done && full.1 && had_error,
        decreases num_packets - k, 1 - (overrun as int),
    {
        if len - start < 2 {
            overrun = true;
            had_error = true;
        } else {
            let packet_len = read_u16_at(binary_message, start) as usize;
            if packet_len > len - (start + 2) {
                overrun = true;
                had_error = true;
            } else {
                let next_start = start + 2 + packet_len;
                let body = &binary_message[start + 2..next_start];
                let ghost rem = packets_spec(b, start as int, num_packets - k);
                let ghost rest = packets_spec(b, next_start as int, num_packets - k - 1);
                match Tick::try_from(body) {
                    Ok(tick) => {
                        let token = tick.instrument_token;
                        ticks.push(TickMessage::new(token, tick));
                        proof {
                            done = done.push((start + 2, packet_len as int));
                            assert(full.0 == (done.drop_last() + rem.0));
                            assert(done.drop_last() + (seq![
                                (start + 2, packet_len as int),
                            ] + rest.0) =~= done + rest.0);
                        }
                    },
                    Err(_) => {
                        had_error = true;
                    },
                }
                start = next_start;
                k = k + 1;
            }
        }
    }
    proof {
        assert(full.0 == done && full.1 == had_error) by {
            if !overrun {
                assert(packets_spec(b, start as int, 0) == (Seq::<(int, int)>::empty(), false));
                assert(done + Seq::<(int, int)>::empty() =~= done);
            }
        }
    }
    let mut out: Vec<TickerMessage> = Vec::new();
    if ticks.len() > 0 {
        out.push(TickerMessage::Ticks(ticks));
    }
    if had_error {
        out.push(TickerMessage::Error(String::from_str("Failed to parse tick(s) in frame")));
    }
    out
}

/// The tokens of a list that are not yet in a key set, in order of first
/// appearance: a token already seen earlier in the list counts as present.
pub open spec fn fresh_tokens(ks: Set<u32>, ts: Seq<u32>) -> Seq<u32>
    decreases ts.len(),
{
    if ts.len() == 0 {
        Seq::empty()
    } else if ks.contains(ts[0]) {
        fresh_tokens(ks, ts.drop_first())
    } else {
        seq![ts[0]] + fresh_tokens(ks.insert(ts[0]), ts.drop_first())
    }
}

/// The tokens of a list that are in a key set, in order, repeats kept.
pub open spec fn present_tokens(ks: Set<u32>, ts: Seq<u32>) -> Seq<u32>
    decreases ts.len(),
{
    if ts.len() == 0 {
        Seq::empty()
    } else if ks.contains(ts[0]) {
        seq![ts[0]] + present_tokens(ks, ts.drop_first())
    } else {
        present_tokens(ks, ts.drop_first())
    }
}

/// A token is in the present list exactly when it is in both the key set
/// and the input list.
pub proof fn lemma_present_tokens_membership(ks: Set<u32>, ts: Seq<u32>, t: u32)
    ensures
        present_tokens(ks, ts).contains(t) <==> (ks.contains(t) && ts.contains(t)),
    decreases ts.len(),
{
    if ts.len() > 0 {
        lemma_present_tokens_membership(ks, ts.drop_first(), t);
        assert(ts.contains(t) <==> (ts[0] == t || ts.drop_first().contains(t))) by {
            if ts.contains(t) {
                let i = choose|i: int| 0 <= i < ts.len() && ts[i] == t;
                if i > 0 {
                    assert(ts.drop_first()[i - 1] == t);
                }
            }
            if ts.drop_first().contains(t) {
                let i = choose|i: int| 0 <= i < ts.drop_first().len() && ts.drop_first()[i] == t;
                assert(ts[i + 1] == t);
            }
        }
        if ks.contains(ts[0]) {
            assert(present_tokens(ks, ts)[0] == ts[0]);
            if present_tokens(ks, ts).contains(t) {
                let i = choose|i: int|
                    0 <= i < present_tokens(ks, ts).len() && present_tokens(ks, ts)[i] == t;
                if i > 0 {
                    assert(present_tokens(ks, ts.drop_first())[i - 1] == t);
                }
            }
            if ks.contains(t) && ts.contains(t) {
                if t != ts[0] {
                    assert(present_tokens(ks, ts.drop_first()).contains(t));
                    let i = choose|i: int|
                        0 <= i < present_tokens(ks, ts.drop_first()).len() && present_tokens(
                            ks,
                            ts.drop_first(),
                        )[i] == t;
                    assert(present_tokens(ks, ts)[i + 1] == t);
                }
            }
        }
    }
}

/// A token table after adopting a list of tokens: membership grows by the
/// list, old entries keep their mode, adopted entries carry the new mode.
pub open spec fn table_after_adds(
    m: Map<u32, Mode>,
    m0: Map<u32, Mode>,
    added: Seq<u32>,
    dmode: Mode,
) -> bool {
    &&& forall|t: u32|
        #![trigger m.contains_key(t)]
        #![trigger m0.contains_key(t)]
        #![trigger added.contains(t)]
        m.contains_key(t) <==> (m0.contains_key(t) || added.contains(t))
    &&& forall|t: u32|
        #![trigger m0.contains_key(t)]
        #![trigger m[t]]
        m0.contains_key(t) ==> m.contains_key(t) && m[t] == m0[t]
    &&& forall|t: u32|
        #![trigger m.contains_key(t)]
        #![trigger m[t]]
        m.contains_key(t) && !m0.contains_key(t) ==> m[t] == dmode
}

/// A token table after giving up a list of tokens: exactly the listed
/// entries leave, the rest keep their mode.
pub open spec fn table_after_removes(m: Map<u32, Mode>, m0: Map<u32, Mode>, gone: Seq<u32>) -> bool {
    &&& forall|t: u32|
        #![trigger m.contains_key(t)]
        #![trigger m0.contains_key(t)]
        #![trigger gone.contains(t)]
        m.contains_key(t) <==> (m0.contains_key(t) && !gone.contains(t))
    &&& forall|t: u32|
        #![trigger m.contains_key(t)]
        #![trigger m[t]]
        m.contains_key(t) ==> m[t] == m0[t]
}

/// The per-subscription view over a session: remembers which tokens this
/// subscriber owns and in which mode. Its mutators compute the control
/// messages to send; sending them over the session's command channel is
/// the caller's work.
#[derive(Debug)]
pub struct KiteTickerSubscriber {
    subscribed_tokens: HashMap<u32, Mode>,
}

impl KiteTickerSubscriber {
    /// The subscriber's token table.
    pub closed spec fn tokens(&self) -> Map<u32, Mode> {
        self.subscribed_tokens@
    }

    /// A new subscriber owning the given tokens, each at the given mode
    /// (or the default mode).
    pub fn new(tokens: &[u32], mode: Option<Mode>) -> (r: Self)
        ensures
            forall|tk: u32| r.tokens().contains_key(tk) <==> tokens@.contains(tk),
            forall|tk: u32|
                r.tokens().contains_key(tk) ==> r.tokens()[tk] == mode.unwrap_or(Mode::Quote),
    {
        let default_mode = match mode {
            Some(m) => m,
            None => Mode::Quote,
        };
        let mut st: HashMap<u32, Mode> = HashMap::new();
        let n = tokens.len();
        for i in 0..n
            invariant
                n == tokens@.len(),
                forall|t: u32|
                    st@.contains_key(t) <==> tokens@.subrange(0, i as int).contains(t),
                forall|t: u32| st@.contains_key(t) ==> st@[t] == default_mode,
                default_mode == mode.unwrap_or(Mode::Quote),
        {
            st.insert(tokens[i], default_mode);
            proof {
                assert forall|t: u32|
                    st@.contains_key(t) <==> tokens@.subrange(0, i + 1).contains(t) by {
                    lemma_subrange_contains_step(tokens@, i as int, t);
                }
            }
        }
        proof {
            assert(tokens@.subrange(0, n as int) =~= tokens@);
        }
        KiteTickerSubscriber { subscribed_tokens: st }
    }

    /// The tokens this subscriber owns, in no particular order.
    pub fn get_subscribed(&self) -> (r: Vec<u32>)
        ensures
            r@.to_set() == self.tokens().dom(),
            r@.no_duplicates(),
    {
        let mut r: Vec<u32> = Vec::new();
        let ghost gkeys = vstd::std_specs::hash::spec_keys_iter(
            &self.subscribed_tokens,
        ).remaining().unref();
        for k in iter: self.subscribed_tokens.keys()
            invariant
                iter.seq().unref() =~= gkeys,
                iter.index() <= gkeys.len(),
                r@ =~= gkeys.subrange(0, iter.index() as int),
        {
            r.push(*k);
        }
        proof {
            assert(r@ =~= gkeys);
            gkeys.lemma_no_dup_set_cardinality();
        }
        r
    }

    /// The owned tokens among the input; an empty input selects all owned
    /// tokens.
    fn get_subscribed_or(&self, tokens: &[u32]) -> (r: Vec<u32>)
        ensures
            tokens@.len() == 0 ==> r@.to_set() == self.tokens().dom() && r@.no_duplicates(),
            tokens@.len() > 0 ==> r@ == present_tokens(self.tokens().dom(), tokens@),
    {
        if tokens.len() == 0 {
            self.get_subscribed()
        } else {
            let mut r: Vec<u32> = Vec::new();
            let n = tokens.len();
            proof {
                assert(tokens@.skip(0) =~= tokens@);
                assert(Seq::<u32>::empty() + present_tokens(self.tokens().dom(), tokens@)
                    =~= present_tokens(self.tokens().dom(), tokens@));
            }
            for i in 0..n
                invariant
                    n == tokens@.len(),
                    present_tokens(self.tokens().dom(), tokens@) =~= r@ + present_tokens(
                        self.tokens().dom(),
                        tokens@.skip(i as int),
                    ),
            {
                proof {
                    assert(tokens@.skip(i as int)[0] == tokens@[i as int]);
                    assert(tokens@.skip(i as int).drop_first() =~= tokens@.skip(i + 1));
                }
                if self.subscribed_tokens.contains_key(&tokens[i]) {
                    r.push(tokens[i]);
                }
            }
            proof {
                assert(tokens@.skip(n as int) =~= Seq::empty());
                assert(r@ + Seq::<u32>::empty() =~= r@);
            }
            r
        }
    }

    /// Take on new tokens: the input tokens not already owned are adopted
    /// at the given mode (or the default), and the control messages to
    /// send for them are returned — a subscribe message, plus a mode
    /// message when a mode was given. Nothing is returned when every
    /// token was already owned.
    #[verifier::rlimit(60)]
    pub fn subscribe(&mut self, tokens: &[u32], mode: Option<Mode>) -> (r: Vec<Request>)
        ensures
            ({
                let fresh = fresh_tokens(old(self).tokens().dom(), tokens@);
                let dmode = mode.unwrap_or(Mode::Quote);
                &&& table_after_adds(final(self).tokens(), old(self).tokens(), tokens@, dmode)
                &&& fresh.len() == 0 ==> r@.len() == 0
                &&& fresh.len() > 0 && mode is None ==> r@.len() == 1
                &&& fresh.len() > 0 && mode is Some ==> r@.len() == 2
                &&& fresh.len() > 0 ==> (r@[0].a == crate::request::RequestActions::Subscribe
                    && r@[0].tokens@ == fresh && r@[0].mode is None)
                &&& fresh.len() > 0 && mode is Some ==> (r@[1].a
                    == crate::request::RequestActions::Mode && r@[1].tokens@ == fresh && r@[1].mode
                    == mode)
            }),
    {
        let default_mode = match mode {
            Some(m) => m,
            None => Mode::Quote,
        };
        let ghost dom0 = self.tokens().dom();
        let mut new_tokens: Vec<u32> = Vec::new();
        let n = tokens.len();
        proof {
            assert(tokens@.skip(0) =~= tokens@);
            assert(tokens@.subrange(0, 0) =~= Seq::<u32>::empty());
            assert(Seq::<u32>::empty() + fresh_tokens(dom0, tokens@) =~= fresh_tokens(
                dom0,
                tokens@,
            ));
        }
        for i in 0..n
            invariant
                n == tokens@.len(),
                default_mode == mode.unwrap_or(Mode::Quote),
                fresh_tokens(dom0, tokens@) =~= new_tokens@ + fresh_tokens(
                    self.tokens().dom(),
                    tokens@.skip(i as int),
                ),
                table_after_adds(
                    self.tokens(),
                    old(self).tokens(),
                    tokens@.subrange(0, i as int),
                    default_mode,
                ),
                dom0 == old(self).tokens().dom(),
            decreases n - i,
        {
            let ghost dom_i = self.tokens().dom();
            let ghost nt0 = new_tokens@;
            proof {
                assert(tokens@.skip(i as int)[0] == tokens@[i as int]);
                assert(tokens@.skip(i as int).drop_first() =~= tokens@.skip(i + 1));
            }
            let t = tokens[i];
            if !self.subscribed_tokens.contains_key(&t) {
                self.subscribed_tokens.insert(t, default_mode);
                new_tokens.push(t);
                proof {
                    assert(self.tokens().dom() =~= dom_i.insert(t));
                    let rest = fresh_tokens(dom_i.insert(t), tokens@.skip(i + 1));
                    assert(fresh_tokens(dom_i, tokens@.skip(i as int)) == seq![t] + rest);
                    assert(nt0 + (seq![t] + rest) =~= nt0.push(t) + rest);
                }
            } else {
                proof {
                    assert(self.tokens().dom() =~= dom_i);
                    assert(fresh_tokens(dom_i, tokens@.skip(i as int)) == fresh_tokens(
                        dom_i,
                        tokens@.skip(i + 1),
                    ));
                }
            }
            proof {
                let ghost m_new = self.tokens();
                assert forall|tt: u32|
                    m_new.contains_key(tt) <==> (dom0.contains(tt) || tokens@.subrange(
                        0,
                        i + 1,
                    ).contains(tt)) by {
                    lemma_subrange_contains_step(tokens@, i as int, tt);
                    assert(dom_i.contains(tt) <==> (dom0.contains(tt) || tokens@.subrange(
                        0,
                        i as int,
                    ).contains(tt)));
                    assert(m_new.contains_key(tt) <==> (dom_i.contains(tt) || tt == t));
                }
                assert(table_after_adds(
                    m_new,
                    old(self).tokens(),
                    tokens@.subrange(0, i + 1),
                    default_mode,
                ));
            }
        }
        proof {
            assert(tokens@.subrange(0, n as int) =~= tokens@);
            assert(tokens@.skip(n as int) =~= Seq::empty());
            assert(new_tokens@ + Seq::<u32>::empty() =~= new_tokens@);
        }
        let mut r: Vec<Request> = Vec::new();
        if new_tokens.len() > 0 {
            r.push(Request::subscribe(new_tokens.as_slice()));
            if mode.is_some() {
                r.push(Request::mode(default_mode, new_tokens.as_slice()));
            }
        }
        r
    }

    /// Change the mode of owned tokens: the input is narrowed to tokens
    /// this subscriber owns (an empty input selects all of them), their
    /// recorded mode is updated, and the mode message to send is
    /// returned. Nothing is returned when no owned token was selected.
    pub fn set_mode(&mut self, instrument_tokens: &[u32], mode: Mode) -> (r: Vec<Request>)
        ensures
            final(self).tokens().dom() == old(self).tokens().dom(),
            forall|t: u32|
                old(self).tokens().contains_key(t) && !selected_tokens(
                    old(self).tokens().dom(),
                    instrument_tokens@,
                ).contains(t) ==> final(self).tokens()[t] == old(self).tokens()[t],
            forall|t: u32|
                old(self).tokens().contains_key(t) && selected_tokens(
                    old(self).tokens().dom(),
                    instrument_tokens@,
                ).contains(t) ==> final(self).tokens()[t] == mode,
            selected_tokens(old(self).tokens().dom(), instrument_tokens@).len() == 0 ==> r@.len()
                == 0,
            selected_tokens(old(self).tokens().dom(), instrument_tokens@).len() > 0 ==> (r@.len()
                == 1 && r@[0].a == crate::request::RequestActions::Mode && r@[0].mode == Some(mode)
                && r@[0].tokens@.to_set() == selected_tokens(
                old(self).tokens().dom(),
                instrument_tokens@,
            ).to_set()),
    {
        let affected = self.get_subscribed_or(instrument_tokens);
        proof {
            lemma_selected_tokens_agrees(self.tokens().dom(), instrument_tokens@, affected@);
        }
        if affected.len() == 0 {
            return Vec::new();
        }
        let ghost dom0 = self.tokens().dom();
        let ghost m0 = self.tokens();
        let n = affected.len();
        proof {
            assert(affected@.subrange(0, 0) =~= Seq::<u32>::empty());
        }
        for i in 0..n
            invariant
                n == affected@.len(),
                self.tokens().dom() == dom0,
                forall|t: u32| #[trigger]
                    dom0.contains(t) && !affected@.subrange(0, i as int).contains(t)
                        ==> self.tokens()[t] == m0[t],
                forall|t: u32| #[trigger]
                    dom0.contains(t) && affected@.subrange(0, i as int).contains(t)
                        ==> self.tokens()[t] == mode,
                forall|t: u32| affected@.contains(t) ==> dom0.contains(t),
                m0 == old(self).tokens(),
            decreases n - i,
        {
            let t = affected[i];
            self.subscribed_tokens.insert(t, mode);
            proof {
                assert(dom0.contains(t));
                assert(dom0.insert(t) =~= dom0);
                assert forall|tt: u32| #[trigger]
                    dom0.contains(tt) && affected@.subrange(0, i + 1).contains(tt) implies self
                    .tokens()[tt] == mode by {
                    lemma_subrange_contains_step(affected@, i as int, tt);
                }
                assert forall|tt: u32| #[trigger]
                    dom0.contains(tt) && !affected@.subrange(0, i + 1).contains(tt) implies self
                    .tokens()[tt] == m0[tt] by {
                    lemma_subrange_contains_step(affected@, i as int, tt);
                }
            }
        }
        proof {
            assert(affected@.subrange(0, n as int) =~= affected@);
        }
        let mut r: Vec<Request> = Vec::new();
        r.push(Request::mode(mode, affected.as_slice()));
        r
    }

    /// Give up owned tokens: the input is narrowed to tokens this
    /// subscriber owns (an empty input selects all of them), they leave
    /// the table, and the unsubscribe message to send is returned.
    /// Nothing is returned when no owned token was selected.
    pub fn unsubscribe(&mut self, instrument_tokens: &[u32]) -> (r: Vec<Request>)
        ensures
            table_after_removes(
                final(self).tokens(),
                old(self).tokens(),
                selected_tokens(old(self).tokens().dom(), instrument_tokens@),
            ),
            selected_tokens(old(self).tokens().dom(), instrument_tokens@).len() == 0 ==> r@.len()
                == 0,
            selected_tokens(old(self).tokens().dom(), instrument_tokens@).len() > 0 ==> (r@.len()
                == 1 && r@[0].a == crate::request::RequestActions::Unsubscribe && r@[0].mode
                is None && r@[0].tokens@.to_set() == selected_tokens(
                old(self).tokens().dom(),
                instrument_tokens@,
            ).to_set()),
    {
        let affected = self.get_subscribed_or(instrument_tokens);
        proof {
            lemma_selected_tokens_agrees(self.tokens().dom(), instrument_tokens@, affected@);
        }
        if affected.len() == 0 {
            return Vec::new();
        }
        let ghost dom0 = self.tokens().dom();
        let ghost m0 = self.tokens();
        let n = affected.len();
        proof {
            assert(affected@.subrange(0, 0) =~= Seq::<u32>::empty());
        }
        for i in 0..n
            invariant
                n == affected@.len(),
                table_after_removes(self.tokens(), m0, affected@.subrange(0, i as int)),
                m0 == old(self).tokens(),
                dom0 == old(self).tokens().dom(),
            decreases n - i,
        {
            let ghost m_i = self.tokens();
            let t = affected[i];
            self.subscribed_tokens.remove(&t);
            proof {
                let ghost m_new = self.tokens();
                assert(m_new =~= m_i.remove(t));
                assert forall|tt: u32|
                    m_new.contains_key(tt) <==> (m0.contains_key(tt) && !affected@.subrange(
                        0,
                        i + 1,
                    ).contains(tt)) by {
                    lemma_subrange_contains_step(affected@, i as int, tt);
                    assert(m_i.contains_key(tt) <==> (m0.contains_key(tt) && !affected@.subrange(
                        0,
                        i as int,
                    ).contains(tt)));
                    assert(m_new.contains_key(tt) <==> (m_i.contains_key(tt) && tt != t));
                }
                assert(table_after_removes(m_new, m0, affected@.subrange(0, i + 1)));
            }
        }
        proof {
            assert(affected@.subrange(0, n as int) =~= affected@);
            assert(table_after_removes(self.tokens(), m0, affected@));
            let sel = selected_tokens(dom0, instrument_tokens@);
            assert forall|t: u32|
                self.tokens().contains_key(t) <==> (m0.contains_key(t) && !sel.contains(t)) by {
                assert(affected@.contains(t) <==> sel.contains(t));
            }
        }
        let mut r: Vec<Request> = Vec::new();
        r.push(Request::unsubscribe(affected.as_slice()));
        r
    }
}

/// The tokens an operation on a subscriber applies to: the owned tokens
/// among the input, or every owned token when the input is empty.
pub open spec fn selected_tokens(ks: Set<u32>, ts: Seq<u32>) -> Seq<u32> {
    if ts.len() == 0 {
        ks.to_seq()
    } else {
        present_tokens(ks, ts)
    }
}

/// The list `get_subscribed_or` returns has the membership and size of
/// `selected_tokens`.
proof fn lemma_selected_tokens_agrees(ks: Set<u32>, ts: Seq<u32>, r: Seq<u32>)
    requires
        ts.len() == 0 ==> r.to_set() == ks && r.no_duplicates(),
        ts.len() > 0 ==> r == present_tokens(ks, ts),
        ks.finite(),
    ensures
        r.to_set() == selected_tokens(ks, ts).to_set(),
        r.len() == 0 <==> selected_tokens(ks, ts).len() == 0,
        forall|t: u32| r.contains(t) <==> selected_tokens(ks, ts).contains(t),
        forall|t: u32| r.contains(t) ==> ks.contains(t),
{
    assert forall|t: u32| r.contains(t) implies ks.contains(t) by {
        if ts.len() == 0 {
            assert(r.to_set().contains(t));
        } else {
            lemma_present_tokens_membership(ks, ts, t);
        }
    }
    broadcast use vstd::set_lib::lemma_set_empty_equivalency_len;

    if ts.len() == 0 {
        ks.lemma_to_seq_to_set_id();
        assert(selected_tokens(ks, ts) == ks.to_seq());
        assert(ks.to_seq().to_set() =~= ks);
        assert(r.to_set() == ks);
        if r.len() == 0 {
            assert(r.to_set() =~= Set::empty());
            assert(ks =~= Set::empty());
            assert(ks.to_seq().len() == 0);
        }
        if ks.to_seq().len() == 0 {
            assert(ks.to_seq().to_set() =~= Set::empty());
            assert(ks =~= Set::empty());
            r.lemma_cardinality_of_empty_set_is_0();
        }
        assert forall|t: u32| r.contains(t) <==> selected_tokens(ks, ts).contains(t) by {
            assert(r.contains(t) <==> r.to_set().contains(t));
            assert(ks.to_seq().contains(t) <==> ks.to_seq().to_set().contains(t));
        }
    } else {
        assert(r.to_set() =~= selected_tokens(ks, ts).to_set());
    }
}

/// Membership in a one-longer prefix of a list is membership in the old
/// prefix or equality with the new element.
pub(crate) proof fn lemma_subrange_contains_step(ts: Seq<u32>, i: int, t: u32)
    requires
        0 <= i < ts.len(),
    ensures
        ts.subrange(0, i + 1).contains(t) <==> (ts.subrange(0, i).contains(t) || t == ts[i]),
{
    if ts.subrange(0, i + 1).contains(t) {
        let j = choose|j: int| #![trigger ts.subrange(0, i + 1)[j]] 0 <= j < i + 1 && ts.subrange(0, i + 1)[j] == t;
        if j < i {
            assert(ts.subrange(0, i)[j] == t);
        }
    }
    if ts.subrange(0, i).contains(t) {
        let j = choose|j: int| #![trigger ts.subrange(0, i)[j]] 0 <= j < i && ts.subrange(0, i)[j] == t;
        assert(ts.subrange(0, i + 1)[j] == t);
    }
    if t == ts[i] {
        assert(ts.subrange(0, i + 1)[i] == t);
    }
}

/// The body range of the first full-quote (184-byte) packet found walking
/// a frame from a position, stopping at any length field that overruns.
pub open spec fn first_full_payload(b: Seq<u8>, i: int, count: int) -> Option<(int, int)>
    decreases count,
{
    if count <= 0 {
        None
    } else if i + 2 > b.len() {
        None
    } else {
        let len = be_u16_at(b, i);
        let next = i + 2 + len;
        if next > b.len() {
            None
        } else if len == 184 {
            Some((i + 2, next))
        } else {
            first_full_payload(b, next, count - 1)
        }
    }
}

/// The body ranges of up to `limit` full-quote (184-byte) packets found
/// walking a frame from a position.
pub open spec fn full_payloads(b: Seq<u8>, i: int, count: int, limit: int) -> Seq<(int, int)>
    decreases count,
{
    if count <= 0 || limit <= 0 {
        Seq::empty()
    } else if i + 2 > b.len() {
        Seq::empty()
    } else {
        let len = be_u16_at(b, i);
        let next = i + 2 + len;
        if next > b.len() {
            Seq::empty()
        } else if len == 184 {
            seq![(i + 2, next)] + full_payloads(b, next, count - 1, limit - 1)
        } else {
            full_payloads(b, next, count - 1, limit)
        }
    }
}

/// Borrow the first 184-byte full-quote payload of a frame, if the frame
/// holds one. No bytes are copied.
pub fn extract_first_full_payload<'a>(frame: &'a [u8]) -> (r: Option<&'a [u8]>)
    ensures
        frame@.len() < 2 ==> r is None,
        frame@.len() >= 2 ==> match first_full_payload(frame@, 2, be_u16_at(frame@, 0)) {
            Some(range) => r matches Some(s) && s@ == frame@.subrange(range.0, range.1),
            None => r is None,
        },
{
    let len = frame.len();
    if len < 2 {
        return None;
    }
    let num_packets = read_u16_at(frame, 0) as usize;
    let ghost b = frame@;
    let mut start: usize = 2;
    let mut k: usize = 0;
    while k < num_packets
        invariant
            b == frame@,
            len == b.len(),
            2 <= start <= len,
            k <= num_packets,
            num_packets == be_u16_at(b, 0),
            first_full_payload(b, 2, num_packets as int) == first_full_payload(
                b,
                start as int,
                num_packets - k,
            ),
        decreases num_packets - k,
    {
        if len - start < 2 {
            return None;
        }
        let packet_len = read_u16_at(frame, start) as usize;
        if packet_len > len - (start + 2) {
            return None;
        }
        let next_start = start + 2 + packet_len;
        if packet_len == 184 {
            return Some(&frame[start + 2..next_start]);
        }
        start = next_start;
        k = k + 1;
    }
    None
}

/// Append up to `limit` 184-byte full-quote payloads of a frame to `out`,
/// each copied out of the frame. Entries already in `out` stay put.
pub fn extract_all_full_payloads(frame: &[u8], limit: usize, out: &mut Vec<Vec<u8>>)
    ensures
        ({
            let ps = if frame@.len() >= 2 {
                full_payloads(frame@, 2, be_u16_at(frame@, 0), limit as int)
            } else {
                Seq::<(int, int)>::empty()
            };
            &&& final(out)@.len() == old(out)@.len() + ps.len()
            &&& forall|k: int| 0 <= k < old(out)@.len() ==> final(out)@[k] == old(out)@[k]
            &&& forall|k: int|
                0 <= k < ps.len() ==> (#[trigger] final(out)@[old(out)@.len() + k])@ == frame@
                    .subrange(ps[k].0, ps[k].1)
        }),
{
    let len = frame.len();
    if len < 2 || limit == 0 {
        proof {
            if frame@.len() >= 2 {
                assert(full_payloads(frame@, 2, be_u16_at(frame@, 0), 0) =~= Seq::<(int,
                int)>::empty());
            }
        }
        return ;
    }
    let num_packets = read_u16_at(frame, 0) as usize;
    let ghost b = frame@;
    let ghost full = full_payloads(b, 2, num_packets as int, limit as int);
    let ghost base = out@.len() as int;
    let mut start: usize = 2;
    let mut k: usize = 0;
    let mut cnt: usize = 0;
    let mut stopped = false;
    while k < num_packets && cnt < limit && !stopped
        invariant
            b == frame@,
            len == b.len(),
            len >= 2,
            2 <= start <= len,
            k <= num_packets,
            cnt <= limit,
            base == old(out)@.len(),
            out@.len() == base + cnt,
            forall|j: int| 0 <= j < base ==> out@[j] == old(out)@[j],
            full == full_payloads(b, 2, num_packets as int, limit as int),
            !stopped ==> {
                let rem = full_payloads(b, start as int, num_packets - k, limit - cnt);
                full.len() == cnt + rem.len() && (forall|j: int|
                    0 <= j < cnt ==> (#[trigger] out@[base + j])@ == b.subrange(
                        full[j].0,
                        full[j].1,
                    )) && (forall|j: int| cnt <= j < full.len() ==> full[j] == rem[j - cnt])
            },
            stopped ==> full.len() == cnt && (forall|j: int|
                0 <= j < cnt ==> (#[trigger] out@[base + j])@ == b.subrange(full[j].0, full[j].1)),
        decreases num_packets - k, 1 - (stopped as int),
    {
        if len - start < 2 {
            stopped = true;
        } else {
            let packet_len = read_u16_at(frame, start) as usize;
            if packet_len > len - (start + 2) {
                stopped = true;
            } else {
                let next_start = start + 2 + packet_len;
                if packet_len == 184 {
                    let body = vstd::slice::slice_to_vec(&frame[start + 2..next_start]);
                    out.push(body);
                    cnt = cnt + 1;
                }
                start = next_start;
                k = k + 1;
            }
        }
    }
    proof {
        if !stopped {
            assert(full_payloads(b, start as int, num_packets - k, limit - cnt).len() == 0) by {
                if k < num_packets && cnt < limit {
                } else {
                    assert(num_packets - k <= 0 || limit - cnt <= 0);
                }
            }
        }
    }
}

} // verus!
