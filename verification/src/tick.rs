use vstd::prelude::*;

use crate::decimal::dec_chars;
use crate::decimal::to_decimal;
use crate::depth::{depth_level, Depth, DepthItem};
use crate::errors::ParseTickError;
use crate::exchange::{exchange_from_code, Exchange};
use crate::mode::Mode;
use crate::ohlc::{ohlc_at, ohlc_index_at, OHLC};
use crate::parser::{be_i32_at, be_u32_at, read_i32_at, read_u32_at};

verus! {

/// One decoded quote. Prices are wire-scaled signed integers; the real
/// value is each price divided by the venue's divisor. Timestamps are
/// seconds since the epoch.
#[derive(Debug, Clone, PartialEq, Eq)]
pub struct Tick {
    pub mode: Mode,
    pub instrument_token: u32,
    pub exchange: Exchange,
    pub is_tradable: bool,
    pub is_index: bool,
    pub last_traded_qty: Option<u32>,
    pub avg_traded_price: Option<i32>,
    pub last_price: Option<i32>,
    pub volume_traded: Option<u32>,
    pub total_buy_qty: Option<u32>,
    pub total_sell_qty: Option<u32>,
    pub ohlc: Option<OHLC>,
    pub last_traded_timestamp: Option<u32>,
    pub oi: Option<u32>,
    pub oi_day_high: Option<u32>,
    pub oi_day_low: Option<u32>,
    pub exchange_timestamp: Option<u32>,
    pub net_change: Option<i64>,
    pub depth: Option<Depth>,
}

/// The packet body lengths the wire protocol defines.
pub open spec fn valid_tick_len(l: int) -> bool {
    l == 8 || l == 28 || l == 32 || l == 44 || l == 184
}

/// The venue a token encodes: its low eight bits are the venue's wire code.
pub open spec fn token_exchange(token: int) -> Exchange {
    exchange_from_code(token % 256)
}

/// The derived price change of a tradable full tick: last price minus the
/// day's close, absent when either input is absent or the close is zero.
pub open spec fn net_change_spec(last_price: Option<i32>, ohlc: Option<OHLC>) -> Option<i64> {
    match (last_price, ohlc) {
        (Some(lp), Some(o)) => if o.close == 0 {
            None
        } else {
            Some((lp - o.close) as i64)
        },
        _ => None,
    }
}

/// The tick an index packet body decodes to (every field but the depth,
/// which an index packet never carries).
pub open spec fn index_tick_spec(b: Seq<u8>, base: Tick) -> Tick {
    let quote = if b.len() >= 28 {
        Tick {
            mode: Mode::Quote,
            ohlc: Some(ohlc_index_at(b, 8)),
            net_change: Some(be_i32_at(b, 24) as i64),
            ..base
        }
    } else {
        base
    };
    if b.len() >= 32 {
        Tick { mode: Mode::Full, exchange_timestamp: Some(be_u32_at(b, 28) as u32), ..quote }
    } else {
        quote
    }
}

/// The tick a tradable packet body decodes to (every field but the depth,
/// which is stated by `tick_depth_spec`).
pub open spec fn tradable_tick_spec(b: Seq<u8>, base: Tick) -> Tick {
    let quote = if b.len() >= 44 {
        Tick {
            mode: Mode::Quote,
            last_traded_qty: Some(be_u32_at(b, 8) as u32),
            avg_traded_price: Some(be_i32_at(b, 12) as i32),
            volume_traded: Some(be_u32_at(b, 16) as u32),
            total_buy_qty: Some(be_u32_at(b, 20) as u32),
            total_sell_qty: Some(be_u32_at(b, 24) as u32),
            ohlc: Some(ohlc_at(b, 28)),
            ..base
        }
    } else {
        base
    };
    if b.len() >= 184 {
        Tick {
            mode: Mode::Full,
            net_change: net_change_spec(quote.last_price, quote.ohlc),
            last_traded_timestamp: Some(be_u32_at(b, 44) as u32),
            oi: Some(be_u32_at(b, 48) as u32),
            oi_day_high: Some(be_u32_at(b, 52) as u32),
            oi_day_low: Some(be_u32_at(b, 56) as u32),
            exchange_timestamp: Some(be_u32_at(b, 60) as u32),
            ..quote
        }
    } else {
        quote
    }
}

/// Every field of the tick a packet body decodes to, except the depth.
pub open spec fn tick_spec(b: Seq<u8>) -> Tick {
    let token = be_u32_at(b, 0);
    let exchange = token_exchange(token);
    let base = Tick {
        mode: Mode::LTP,
        instrument_token: token as u32,
        exchange: exchange,
        is_tradable: exchange != Exchange::INDICES,
        is_index: exchange == Exchange::INDICES,
        last_traded_qty: None,
        avg_traded_price: None,
        last_price: Some(be_i32_at(b, 4) as i32),
        volume_traded: None,
        total_buy_qty: None,
        total_sell_qty: None,
        ohlc: None,
        last_traded_timestamp: None,
        oi: None,
        oi_day_high: None,
        oi_day_low: None,
        exchange_timestamp: None,
        net_change: None,
        depth: None,
    };
    if exchange == Exchange::INDICES {
        index_tick_spec(b, base)
    } else {
        tradable_tick_spec(b, base)
    }
}

/// The depth book a packet body decodes to: five buy and five sell levels
/// for a 184-byte tradable body, absent otherwise.
pub open spec fn tick_depth_spec(b: Seq<u8>) -> Option<(Seq<DepthItem>, Seq<DepthItem>)> {
    if token_exchange(be_u32_at(b, 0)) != Exchange::INDICES && b.len() >= 184 {
        Some(
            (
                Seq::new(5, |i: int| depth_level(b, 64, i)),
                Seq::new(5, |i: int| depth_level(b, 124, i)),
            ),
        )
    } else {
        None
    }
}

/// A tick is the decode of a packet body: every plain field equals
/// `tick_spec`, and the depth matches `tick_depth_spec`.
pub open spec fn tick_matches(t: Tick, b: Seq<u8>) -> bool {
    let s = tick_spec(b);
    &&& t.mode == s.mode
    &&& t.instrument_token == s.instrument_token
    &&& t.exchange == s.exchange
    &&& t.is_tradable == s.is_tradable
    &&& t.is_index == s.is_index
    &&& t.last_traded_qty == s.last_traded_qty
    &&& t.avg_traded_price == s.avg_traded_price
    &&& t.last_price == s.last_price
    &&& t.volume_traded == s.volume_traded
    &&& t.total_buy_qty == s.total_buy_qty
    &&& t.total_sell_qty == s.total_sell_qty
    &&& t.ohlc == s.ohlc
    &&& t.last_traded_timestamp == s.last_traded_timestamp
    &&& t.oi == s.oi
    &&& t.oi_day_high == s.oi_day_high
    &&& t.oi_day_low == s.oi_day_low
    &&& t.exchange_timestamp == s.exchange_timestamp
    &&& t.net_change == s.net_change
    &&& match (t.depth, tick_depth_spec(b)) {
        (Some(d), Some(levels)) => d.buy@ =~= levels.0 && d.sell@ =~= levels.1,
        (None, None) => true,
        _ => false,
    }
}

impl Tick {
    /// Decode a packet body of one of the recognized lengths.
    pub fn from_bytes(input: &[u8]) -> (r: Tick)
        requires
            valid_tick_len(input@.len() as int),
        ensures
            tick_matches(r, input@),
    {
        let token = read_u32_at(input, 0);
        let code = (token % 256) as usize;
        let exchange = Exchange::from(code);
        let is_index = !exchange.is_tradable();
        let base = Tick {
            mode: Mode::LTP,
            instrument_token: token,
            exchange: exchange,
            is_tradable: !is_index,
            is_index: is_index,
            last_traded_qty: None,
            avg_traded_price: None,
            last_price: Some(read_i32_at(input, 4)),
            volume_traded: None,
            total_buy_qty: None,
            total_sell_qty: None,
            ohlc: None,
            last_traded_timestamp: None,
            oi: None,
            oi_day_high: None,
            oi_day_low: None,
            exchange_timestamp: None,
            net_change: None,
            depth: None,
        };
        if is_index {
            if input.len() >= 28 {
                let quote = Tick {
                    mode: Mode::Quote,
                    ohlc: Some(
                        OHLC {
                            open: read_i32_at(input, 16),
                            high: read_i32_at(input, 8),
                            low: read_i32_at(input, 12),
                            close: read_i32_at(input, 20),
                        },
                    ),
                    net_change: Some(read_i32_at(input, 24) as i64),
                    ..base
                };
                if input.len() >= 32 {
                    Tick {
                        mode: Mode::Full,
                        exchange_timestamp: Some(read_u32_at(input, 28)),
                        ..quote
                    }
                } else {
                    quote
                }
            } else {
                base
            }
        } else {
            if input.len() >= 44 {
                let quote = Tick {
                    mode: Mode::Quote,
                    last_traded_qty: Some(read_u32_at(input, 8)),
                    avg_traded_price: Some(read_i32_at(input, 12)),
                    volume_traded: Some(read_u32_at(input, 16)),
                    total_buy_qty: Some(read_u32_at(input, 20)),
                    total_sell_qty: Some(read_u32_at(input, 24)),
                    ohlc: Some(
                        OHLC {
                            open: read_i32_at(input, 28),
                            high: read_i32_at(input, 32),
                            low: read_i32_at(input, 36),
                            close: read_i32_at(input, 40),
                        },
                    ),
                    ..base
                };
                if input.len() >= 184 {
                    let net_change: Option<i64> = match (quote.last_price, &quote.ohlc) {
                        (Some(lp), Some(o)) => if o.close == 0 {
                            None
                        } else {
                            Some((lp as i64) - (o.close as i64))
                        },
                        _ => None,
                    };
                    let depth = match Depth::from(&input[64..184]) {
                        Some(d) => d,
                        None => Depth { buy: Vec::new(), sell: Vec::new() },
                    };
                    proof {
                        lemma_depth_slice(input@);
                    }
                    Tick {
                        mode: Mode::Full,
                        net_change: net_change,
                        last_traded_timestamp: Some(read_u32_at(input, 44)),
                        oi: Some(read_u32_at(input, 48)),
                        oi_day_high: Some(read_u32_at(input, 52)),
                        oi_day_low: Some(read_u32_at(input, 56)),
                        exchange_timestamp: Some(read_u32_at(input, 60)),
                        depth: Some(depth),
                        ..quote
                    }
                } else {
                    quote
                }
            } else {
                base
            }
        }
    }

    /// Decode a packet body, rejecting any length the protocol does not
    /// define.
    pub fn try_from(value: &[u8]) -> (r: Result<Tick, ParseTickError>)
        ensures
            r is Ok <==> valid_tick_len(value@.len() as int),
            r matches Ok(t) ==> tick_matches(t, value@),
            r matches Err(e) ==> e.0@ == "invalid tick size: "@ + dec_chars(value@.len() as int),
    {
        let len = value.len();
        if len == 8 || len == 28 || len == 32 || len == 44 || len == 184 {
            Ok(Tick::from_bytes(value))
        } else {
            let mut msg = String::from_str("invalid tick size: ");
            msg.append(to_decimal(len as u64).as_str());
            Err(ParseTickError(msg))
        }
    }
}

/// A decoded tick's venue is named by the low eight bits of its token, and
/// exactly one of its index and tradable flags is set.
pub proof fn lemma_tick_exchange_consistent(t: Tick, b: Seq<u8>)
    requires
        tick_matches(t, b),
    ensures
        t.exchange == exchange_from_code((t.instrument_token & 0xFF) as int),
        t.is_index != t.is_tradable,
        t.is_index == (t.exchange == Exchange::INDICES),
{
    let token = t.instrument_token;
    assert(token & 0xFF == token % 256) by (bit_vector);
    assert(be_u32_at(b, 0) % 256 == (be_u32_at(b, 0) as u32) % 256);
}

/// For a tradable full decode whose day close is not zero, the net change
/// is the last price minus the close.
pub proof fn lemma_full_net_change(t: Tick, b: Seq<u8>)
    requires
        tick_matches(t, b),
        b.len() == 184,
        t.is_tradable,
    ensures
        t.ohlc is Some,
        t.last_price is Some,
        t.ohlc matches Some(o) ==> {
            &&& o.close != 0 ==> t.net_change == Some((t.last_price.unwrap() - o.close) as i64)
            &&& o.close == 0 ==> t.net_change is None
        },
{
}

/// Depth levels read from the 120-byte tail of a 184-byte body equal the
/// levels read from the body at the same absolute offsets.
proof fn lemma_depth_slice(b: Seq<u8>)
    requires
        b.len() >= 184,
    ensures
        forall|i: int|
            0 <= i < 5 ==> #[trigger] depth_level(b.subrange(64, 184), 0, i) == depth_level(
                b,
                64,
                i,
            ),
        forall|i: int|
            0 <= i < 5 ==> #[trigger] depth_level(b.subrange(64, 184), 60, i) == depth_level(
                b,
                124,
                i,
            ),
{
    let sub = b.subrange(64, 184);
    assert forall|i: int| 0 <= i < 5 implies #[trigger] depth_level(sub, 0, i) == depth_level(
        b,
        64,
        i,
    ) by {
        assert(sub[i * 12] == b[64 + i * 12]);
        assert(sub[i * 12 + 1] == b[64 + i * 12 + 1]);
        assert(sub[i * 12 + 2] == b[64 + i * 12 + 2]);
        assert(sub[i * 12 + 3] == b[64 + i * 12 + 3]);
        assert(sub[i * 12 + 4] == b[64 + i * 12 + 4]);
        assert(sub[i * 12 + 5] == b[64 + i * 12 + 5]);
        assert(sub[i * 12 + 6] == b[64 + i * 12 + 6]);
        assert(sub[i * 12 + 7] == b[64 + i * 12 + 7]);
        assert(sub[i * 12 + 8] == b[64 + i * 12 + 8]);
        assert(sub[i * 12 + 9] == b[64 + i * 12 + 9]);
    }
    assert forall|i: int| 0 <= i < 5 implies #[trigger] depth_level(sub, 60, i) == depth_level(
        b,
        124,
        i,
    ) by {
        assert(sub[60 + i * 12] == b[124 + i * 12]);
        assert(sub[60 + i * 12 + 1] == b[124 + i * 12 + 1]);
        assert(sub[60 + i * 12 + 2] == b[124 + i * 12 + 2]);
        assert(sub[60 + i * 12 + 3] == b[124 + i * 12 + 3]);
        assert(sub[60 + i * 12 + 4] == b[124 + i * 12 + 4]);
        assert(sub[60 + i * 12 + 5] == b[124 + i * 12 + 5]);
        assert(sub[60 + i * 12 + 6] == b[124 + i * 12 + 6]);
        assert(sub[60 + i * 12 + 7] == b[124 + i * 12 + 7]);
        assert(sub[60 + i * 12 + 8] == b[124 + i * 12 + 8]);
        assert(sub[60 + i * 12 + 9] == b[124 + i * 12 + 9]);
    }
}

} // verus!
