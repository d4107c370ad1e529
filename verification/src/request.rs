use vstd::prelude::*;

use crate::decimal::{
    dec_chars, is_digit_char, lemma_dec_chars_val, lemma_parse_number_of_dec, parse_number,
    to_decimal,
};
use crate::mode::{mode_label, Mode};
use vstd::slice::slice_to_vec;

verus! {

/// The actions a WebSocket control message can carry.
#[derive(Debug, Clone, Copy, PartialEq, Eq, Structural)]
pub enum RequestActions {
    Subscribe,
    Unsubscribe,
    Mode,
}

/// One control message to the broker: an action, the tokens it applies
/// to, and for a mode change the requested mode.
#[derive(Debug, Clone, PartialEq, Eq)]
pub struct Request {
    pub a: RequestActions,
    pub mode: Option<Mode>,
    pub tokens: Vec<u32>,
}

/// A request carries a mode exactly when its action is a mode change.
pub open spec fn request_wf(r: Request) -> bool {
    (r.a == RequestActions::Mode) <==> (r.mode is Some)
}

/// The text of a comma-separated token list.
pub open spec fn tokens_text(tokens: Seq<u32>) -> Seq<char>
    decreases tokens.len(),
{
    if tokens.len() == 0 {
        Seq::empty()
    } else if tokens.len() == 1 {
        dec_chars(tokens[0] as int)
    } else {
        dec_chars(tokens[0] as int) + seq![','] + tokens_text(tokens.drop_first())
    }
}

/// The JSON text of a subscribe request.
pub open spec fn subscribe_text(tokens: Seq<u32>) -> Seq<char> {
    "{\"a\":\"subscribe\",\"v\":["@ + tokens_text(tokens) + "]}"@
}

/// The JSON text of an unsubscribe request.
pub open spec fn unsubscribe_text(tokens: Seq<u32>) -> Seq<char> {
    "{\"a\":\"unsubscribe\",\"v\":["@ + tokens_text(tokens) + "]}"@
}

/// The JSON text of a mode-change request.
pub open spec fn mode_text(mode: Mode, tokens: Seq<u32>) -> Seq<char> {
    "{\"a\":\"mode\",\"v\":[\""@ + mode_label(mode) + "\",["@ + tokens_text(tokens) + "]]}"@
}

/// The JSON text of any request.
pub open spec fn request_text(a: RequestActions, mode: Option<Mode>, tokens: Seq<u32>) -> Seq<
    char,
> {
    match a {
        RequestActions::Subscribe => subscribe_text(tokens),
        RequestActions::Unsubscribe => unsubscribe_text(tokens),
        RequestActions::Mode => mode_text(mode.unwrap_or(Mode::Quote), tokens),
    }
}

impl Request {
    /// Subscribe to a list of instrument tokens.
    pub fn subscribe(instrument_tokens: &[u32]) -> (r: Request)
        ensures
            r.a == RequestActions::Subscribe,
            r.mode is None,
            r.tokens@ == instrument_tokens@,
            request_wf(r),
    {
        Request {
            a: RequestActions::Subscribe,
            mode: None,
            tokens: slice_to_vec(instrument_tokens),
        }
    }

    /// Change the mode of a list of instrument tokens.
    pub fn mode(mode: Mode, instrument_tokens: &[u32]) -> (r: Request)
        ensures
            r.a == RequestActions::Mode,
            r.mode == Some(mode),
            r.tokens@ == instrument_tokens@,
            request_wf(r),
    {
        Request {
            a: RequestActions::Mode,
            mode: Some(mode),
            tokens: slice_to_vec(instrument_tokens),
        }
    }

    /// Unsubscribe from a list of instrument tokens.
    pub fn unsubscribe(instrument_tokens: &[u32]) -> (r: Request)
        ensures
            r.a == RequestActions::Unsubscribe,
            r.mode is None,
            r.tokens@ == instrument_tokens@,
            request_wf(r),
    {
        Request {
            a: RequestActions::Unsubscribe,
            mode: None,
            tokens: slice_to_vec(instrument_tokens),
        }
    }

    /// Render the request as the JSON text frame the broker expects.
    pub fn to_json(&self) -> (r: String)
        requires
            request_wf(*self),
        ensures
            r@ == request_text(self.a, self.mode, self.tokens@),
    {
        let mut s = String::new();
        match self.a {
            RequestActions::Subscribe => {
                s.append("{\"a\":\"subscribe\",\"v\":[");
            },
            RequestActions::Unsubscribe => {
                s.append("{\"a\":\"unsubscribe\",\"v\":[");
            },
            RequestActions::Mode => {
                s.append("{\"a\":\"mode\",\"v\":[\"");
                match self.mode {
                    Some(m) => s.append(m.to_websocket_string()),
                    None => (),
                }
                s.append("\",[");
            },
        }
        let ghost head: Seq<char> = s@;
        let mut i: usize = 0;
        while i < self.tokens.len()
            invariant
                i <= self.tokens@.len(),
                s@ == head + tokens_text(self.tokens@.subrange(0, i as int)),
            decreases self.tokens@.len() - i,
        {
            if i > 0 {
                s.append(",");
            }
            s.append(to_decimal(self.tokens[i] as u64).as_str());
            proof {
                reveal_strlit(",");
                lemma_tokens_text_snoc(self.tokens@.subrange(0, i as int), self.tokens@[i as int]);
                assert(self.tokens@.subrange(0, i as int).push(self.tokens@[i as int]) =~= self
                    .tokens@.subrange(0, i + 1));
            }
            i += 1;
        }
        proof {
            assert(self.tokens@.subrange(0, self.tokens@.len() as int) =~= self.tokens@);
        }
        match self.a {
            RequestActions::Mode => s.append("]]}"),
            _ => s.append("]}"),
        }
        s
    }
}

/// Whether a string begins with a prefix.
pub open spec fn starts_with(s: Seq<char>, p: Seq<char>) -> bool {
    s.len() >= p.len() && s.subrange(0, p.len() as int) == p
}

/// A comma-separated token list read at position `i`: the numbers parsed
/// greedily, and the position just past the last one.
pub open spec fn parse_token_list(s: Seq<char>, i: int) -> Option<(Seq<u32>, int)>
    decreases s.len() - i,
{
    match parse_number(s, i) {
        None => None,
        Some((n, j)) => if j < s.len() && s[j] == ',' {
            match parse_token_list(s, j + 1) {
                None => None,
                Some((rest, k)) => Some((seq![n] + rest, k)),
            }
        } else {
            Some((seq![n], j))
        },
    }
}

/// A mode label read at position `i`.
pub open spec fn parse_mode_label(s: Seq<char>, i: int) -> Option<(Mode, int)> {
    if s.len() >= i + 3 && s.subrange(i, i + 3) == "ltp"@ {
        Some((Mode::LTP, i + 3))
    } else if s.len() >= i + 5 && s.subrange(i, i + 5) == "quote"@ {
        Some((Mode::Quote, i + 5))
    } else if s.len() >= i + 4 && s.subrange(i, i + 4) == "full"@ {
        Some((Mode::Full, i + 4))
    } else {
        None
    }
}

/// The request a JSON control-message text denotes: the action, the mode
/// of a mode change, and the token list. Anything else reads as `None`.
pub open spec fn parse_request_spec(s: Seq<char>) -> Option<
    (RequestActions, Option<Mode>, Seq<u32>),
> {
    let sub_p = "{\"a\":\"subscribe\",\"v\":["@;
    let unsub_p = "{\"a\":\"unsubscribe\",\"v\":["@;
    let mode_p = "{\"a\":\"mode\",\"v\":[\""@;
    if starts_with(s, sub_p) {
        match parse_token_list(s, sub_p.len() as int) {
            Some((toks, j)) => if s.subrange(j, s.len() as int) == "]}"@ {
                Some((RequestActions::Subscribe, None, toks))
            } else {
                None
            },
            None => None,
        }
    } else if starts_with(s, unsub_p) {
        match parse_token_list(s, unsub_p.len() as int) {
            Some((toks, j)) => if s.subrange(j, s.len() as int) == "]}"@ {
                Some((RequestActions::Unsubscribe, None, toks))
            } else {
                None
            },
            None => None,
        }
    } else if starts_with(s, mode_p) {
        match parse_mode_label(s, mode_p.len() as int) {
            Some((m, j)) => if s.len() >= j + 3 && s.subrange(j, j + 3) == "\",["@ {
                match parse_token_list(s, j + 3) {
                    Some((toks, k)) => if s.subrange(k, s.len() as int) == "]]}"@ {
                        Some((RequestActions::Mode, Some(m), toks))
                    } else {
                        None
                    },
                    None => None,
                }
            } else {
                None
            },
            None => None,
        }
    } else {
        None
    }
}

/// Reading a token list where one was written yields the same tokens, and
/// ends at the closing bracket that follows them.
proof fn lemma_parse_tokens(s: Seq<char>, i: int, ts: Seq<u32>, j: int)
    requires
        0 <= i <= j <= s.len(),
        s.subrange(i, j) == tokens_text(ts),
        ts.len() >= 1,
        j < s.len(),
        s[j] == ']',
    ensures
        parse_token_list(s, i) == Some((ts, j)),
    decreases ts.len(),
{
    assert(!is_digit_char(']'));
    assert(']' != ',');
    if ts.len() == 1 {
        assert(tokens_text(ts) == dec_chars(ts[0] as int));
        lemma_parse_number_of_dec(s, i, ts[0], j);
        assert(seq![ts[0]] =~= ts);
    } else {
        let d = dec_chars(ts[0] as int);
        lemma_dec_chars_val(ts[0] as int);
        let rest = ts.drop_first();
        let body = tokens_text(ts);
        assert(body == d + seq![','] + tokens_text(rest));
        let m = i + d.len();
        assert(m < j) by {
            lemma_tokens_text_len(rest);
        }
        assert forall|k: int| i <= k < j implies s[k] == body[k - i] by {
            assert(s.subrange(i, j)[k - i] == s[k]);
        }
        assert(s.subrange(i, m) =~= d);
        assert(s[m] == ',');
        assert(!is_digit_char(','));
        lemma_parse_number_of_dec(s, i, ts[0], m);
        assert(s.subrange(m + 1, j) =~= tokens_text(rest));
        lemma_parse_tokens(s, m + 1, rest, j);
        assert(seq![ts[0]] + rest =~= ts);
    }
}

/// The text of a non-empty token list is non-empty.
proof fn lemma_tokens_text_len(ts: Seq<u32>)
    ensures
        ts.len() >= 1 ==> tokens_text(ts).len() >= 1,
    decreases ts.len(),
{
    if ts.len() >= 1 {
        lemma_dec_chars_val(ts[0] as int);
        if ts.len() > 1 {
            lemma_tokens_text_len(ts.drop_first());
        }
    }
}

/// A subscribe message parses back to the tokens it was built from.
pub proof fn lemma_subscribe_round_trip(tokens: Seq<u32>)
    requires
        tokens.len() >= 1,
    ensures
        parse_request_spec(subscribe_text(tokens)) == Some(
            (RequestActions::Subscribe, None::<Mode>, tokens),
        ),
{
    reveal_strlit("{\"a\":\"subscribe\",\"v\":[");
    reveal_strlit("]}");
    let s = subscribe_text(tokens);
    let p = "{\"a\":\"subscribe\",\"v\":["@;
    let body = tokens_text(tokens);
    let j = p.len() + body.len();
    assert(s.subrange(0, p.len() as int) =~= p);
    assert(s.subrange(p.len() as int, j as int) =~= body);
    assert(s[j as int] == ']');
    lemma_parse_tokens(s, p.len() as int, tokens, j as int);
    assert(s.subrange(j as int, s.len() as int) =~= "]}"@);
}

/// An unsubscribe message parses back to the tokens it was built from.
pub proof fn lemma_unsubscribe_round_trip(tokens: Seq<u32>)
    requires
        tokens.len() >= 1,
    ensures
        parse_request_spec(unsubscribe_text(tokens)) == Some(
            (RequestActions::Unsubscribe, None::<Mode>, tokens),
        ),
{
    reveal_strlit("{\"a\":\"subscribe\",\"v\":[");
    reveal_strlit("{\"a\":\"unsubscribe\",\"v\":[");
    reveal_strlit("]}");
    let s = unsubscribe_text(tokens);
    let sub_p = "{\"a\":\"subscribe\",\"v\":["@;
    let p = "{\"a\":\"unsubscribe\",\"v\":["@;
    let body = tokens_text(tokens);
    let j = p.len() + body.len();
    assert(s.subrange(0, p.len() as int) =~= p);
    assert(!starts_with(s, sub_p)) by {
        if s.len() >= sub_p.len() && s.subrange(0, sub_p.len() as int) == sub_p {
            assert(s.subrange(0, sub_p.len() as int)[6] == s[6]);
            assert(s[6] == p[6]);
        }
    }
    assert(s.subrange(p.len() as int, j as int) =~= body);
    assert(s[j as int] == ']');
    lemma_parse_tokens(s, p.len() as int, tokens, j as int);
    assert(s.subrange(j as int, s.len() as int) =~= "]}"@);
}

/// A mode-change message parses back to the mode and tokens it was built
/// from.
pub proof fn lemma_mode_round_trip(mode: Mode, tokens: Seq<u32>)
    requires
        tokens.len() >= 1,
    ensures
        parse_request_spec(mode_text(mode, tokens)) == Some(
            (RequestActions::Mode, Some(mode), tokens),
        ),
{
    reveal_strlit("{\"a\":\"subscribe\",\"v\":[");
    reveal_strlit("{\"a\":\"unsubscribe\",\"v\":[");
    reveal_strlit("{\"a\":\"mode\",\"v\":[\"");
    reveal_strlit("\",[");
    reveal_strlit("]]}");
    reveal_strlit("ltp");
    reveal_strlit("quote");
    reveal_strlit("full");
    let s = mode_text(mode, tokens);
    let sub_p = "{\"a\":\"subscribe\",\"v\":["@;
    let unsub_p = "{\"a\":\"unsubscribe\",\"v\":["@;
    let p = "{\"a\":\"mode\",\"v\":[\""@;
    let label = mode_label(mode);
    let body = tokens_text(tokens);
    let lj = p.len() + label.len();
    let i = lj + 3;
    let k = i + body.len();
    assert(s.subrange(0, p.len() as int) =~= p);
    assert(!starts_with(s, sub_p)) by {
        if s.len() >= sub_p.len() && s.subrange(0, sub_p.len() as int) == sub_p {
            assert(s.subrange(0, sub_p.len() as int)[6] == s[6]);
            assert(s[6] == p[6]);
        }
    }
    assert(!starts_with(s, unsub_p)) by {
        if s.len() >= unsub_p.len() && s.subrange(0, unsub_p.len() as int) == unsub_p {
            assert(s.subrange(0, unsub_p.len() as int)[6] == s[6]);
            assert(s[6] == p[6]);
        }
    }
    assert(s.subrange(p.len() as int, lj as int) =~= label);
    match mode {
        Mode::LTP => {
            assert(parse_mode_label(s, p.len() as int) == Some((Mode::LTP, lj as int)));
        },
        Mode::Quote => {
            assert(s.subrange(p.len() as int, p.len() as int + 3) != "ltp"@) by {
                assert(s[p.len() as int] == 'q');
            }
            assert(parse_mode_label(s, p.len() as int) == Some((Mode::Quote, lj as int)));
        },
        Mode::Full => {
            assert(s.subrange(p.len() as int, p.len() as int + 3) != "ltp"@) by {
                assert(s[p.len() as int] == 'f');
            }
            if s.len() >= p.len() + 5 {
                assert(s.subrange(p.len() as int, p.len() as int + 5) != "quote"@) by {
                    assert(s.subrange(p.len() as int, p.len() as int + 5)[0] == s[p.len() as int]);
                    assert(s[p.len() as int] == 'f');
                }
            }
            assert(parse_mode_label(s, p.len() as int) == Some((Mode::Full, lj as int)));
        },
    }
    assert(s.subrange(lj as int, i as int) =~= "\",["@);
    assert(s.subrange(i as int, k as int) =~= body);
    assert(s[k as int] == ']');
    lemma_parse_tokens(s, i as int, tokens, k as int);
    assert(s.subrange(k as int, s.len() as int) =~= "]]}"@);
}

/// Appending one token to a list appends a comma (when the list was
/// non-empty) and the token's rendering to the list's text.
pub proof fn lemma_tokens_text_snoc(tokens: Seq<u32>, t: u32)
    ensures
        tokens.len() == 0 ==> tokens_text(tokens.push(t)) == dec_chars(t as int),
        tokens.len() >= 1 ==> tokens_text(tokens.push(t)) =~= tokens_text(tokens) + seq![',']
            + dec_chars(t as int),
    decreases tokens.len(),
{
    let p = tokens.push(t);
    if tokens.len() == 0 {
        assert(p.len() == 1);
        assert(p[0] == t);
    } else if tokens.len() == 1 {
        assert(p.len() == 2);
        assert(p[0] == tokens[0]);
        assert(p.drop_first() =~= seq![t]);
        assert(tokens_text(seq![t]) == dec_chars(t as int));
    } else {
        lemma_tokens_text_snoc(tokens.drop_first(), t);
        assert(p.drop_first() =~= tokens.drop_first().push(t));
        assert(p[0] == tokens[0]);
    }
}

} // verus!
