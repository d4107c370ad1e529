use vstd::prelude::*;

use crate::depth::{depth_level, DepthItem};
use crate::exchange::Exchange;
use crate::parser::{be_i32_at, be_u16_at, be_u32_at, read_i32_at, read_u16_at, read_u32_at};
use crate::tick::{tick_matches, tick_spec, token_exchange, Tick};

verus! {

/// Size of a full quote packet body (not counting the 2-byte length
/// prefix): a 64-byte header followed by a 120-byte depth block.
pub const TICK_FULL_SIZE: usize = 184;

/// Size of an index quote snapshot packet body.
pub const INDEX_QUOTE_SIZE: usize = 32;

/// Size of an instrument header without depth.
pub const INST_HEADER_SIZE: usize = 64;

/// Borrow a slice as a fixed 184-byte array, for callers that prefer
/// arrays. Pure length validation; no bytes are copied.
///
/// Relies on `<&[u8; 184] as TryFrom<&[u8]>>::try_from` of std: it succeeds
/// exactly when the slice has length 184 and borrows the same bytes.
#[verifier::external_body]
pub fn as_184(slice: &[u8]) -> (r: Option<&[u8; 184]>)
    ensures
        r is Some <==> slice@.len() == 184,
        r matches Some(a) ==> a@ == slice@,
{
    <&[u8; 184]>::try_from(slice).ok()
}

/// Zero-copy view over a 184-byte full quote packet body. Field accessors
/// read big-endian values on demand; the view owns no memory.
#[derive(Debug, Clone, Copy)]
pub struct TickRaw<'a> {
    bytes: &'a [u8],
}

/// Zero-copy view over a 32-byte index quote snapshot body.
#[derive(Debug, Clone, Copy)]
pub struct IndexQuoteRaw32<'a> {
    bytes: &'a [u8],
}

/// Zero-copy view over a 64-byte instrument header body.
#[derive(Debug, Clone, Copy)]
pub struct InstHeaderRaw64<'a> {
    bytes: &'a [u8],
}

/// View a slice as a full quote packet. Pure length validation: succeeds
/// exactly when the slice is 184 bytes, and borrows them without copying.
pub fn as_tick_raw<'a>(slice: &'a [u8]) -> (r: Option<TickRaw<'a>>)
    ensures
        r is Some <==> slice@.len() == 184,
        r matches Some(v) ==> v.data() == slice@,
{
    if slice.len() == 184 {
        Some(TickRaw { bytes: slice })
    } else {
        None
    }
}

/// View a slice as an index quote snapshot. Pure length validation:
/// succeeds exactly when the slice is 32 bytes.
pub fn as_index_quote_32<'a>(slice: &'a [u8]) -> (r: Option<IndexQuoteRaw32<'a>>)
    ensures
        r is Some <==> slice@.len() == 32,
        r matches Some(v) ==> v.data() == slice@,
{
    if slice.len() == 32 {
        Some(IndexQuoteRaw32 { bytes: slice })
    } else {
        None
    }
}

/// View a slice as an instrument header. Pure length validation: succeeds
/// exactly when the slice is 64 bytes.
pub fn as_inst_header_64<'a>(slice: &'a [u8]) -> (r: Option<InstHeaderRaw64<'a>>)
    ensures
        r is Some <==> slice@.len() == 64,
        r matches Some(v) ==> v.data() == slice@,
{
    if slice.len() == 64 {
        Some(InstHeaderRaw64 { bytes: slice })
    } else {
        None
    }
}

impl<'a> TickRaw<'a> {
    /// The bytes behind the view.
    pub closed spec fn data(&self) -> Seq<u8> {
        self.bytes@
    }

    /// A view made by `as_tick_raw` always sees exactly 184 bytes.
    pub open spec fn wf(&self) -> bool {
        self.data().len() == 184
    }

    /// The borrowed packet body.
    pub fn as_slice(&self) -> (r: &'a [u8])
        ensures
            r@ == self.data(),
    {
        self.bytes
    }

    pub fn instrument_token(&self) -> (r: u32)
        requires
            self.wf(),
        ensures
            r == be_u32_at(self.data(), 0),
    {
        read_u32_at(self.bytes, 0)
    }

    pub fn last_price(&self) -> (r: i32)
        requires
            self.wf(),
        ensures
            r == be_i32_at(self.data(), 4),
    {
        read_i32_at(self.bytes, 4)
    }

    pub fn last_traded_qty(&self) -> (r: u32)
        requires
            self.wf(),
        ensures
            r == be_u32_at(self.data(), 8),
    {
        read_u32_at(self.bytes, 8)
    }

    pub fn avg_traded_price(&self) -> (r: i32)
        requires
            self.wf(),
        ensures
            r == be_i32_at(self.data(), 12),
    {
        read_i32_at(self.bytes, 12)
    }

    pub fn volume_traded(&self) -> (r: u32)
        requires
            self.wf(),
        ensures
            r == be_u32_at(self.data(), 16),
    {
        read_u32_at(self.bytes, 16)
    }

    pub fn total_buy_qty(&self) -> (r: u32)
        requires
            self.wf(),
        ensures
            r == be_u32_at(self.data(), 20),
    {
        read_u32_at(self.bytes, 20)
    }

    pub fn total_sell_qty(&self) -> (r: u32)
        requires
            self.wf(),
        ensures
            r == be_u32_at(self.data(), 24),
    {
        read_u32_at(self.bytes, 24)
    }

    pub fn last_traded_ts(&self) -> (r: u32)
        requires
            self.wf(),
        ensures
            r == be_u32_at(self.data(), 44),
    {
        read_u32_at(self.bytes, 44)
    }

    pub fn oi(&self) -> (r: u32)
        requires
            self.wf(),
        ensures
            r == be_u32_at(self.data(), 48),
    {
        read_u32_at(self.bytes, 48)
    }

    pub fn oi_day_high(&self) -> (r: u32)
        requires
            self.wf(),
        ensures
            r == be_u32_at(self.data(), 52),
    {
        read_u32_at(self.bytes, 52)
    }

    pub fn oi_day_low(&self) -> (r: u32)
        requires
            self.wf(),
        ensures
            r == be_u32_at(self.data(), 56),
    {
        read_u32_at(self.bytes, 56)
    }

    pub fn exchange_ts(&self) -> (r: u32)
        requires
            self.wf(),
        ensures
            r == be_u32_at(self.data(), 60),
    {
        read_u32_at(self.bytes, 60)
    }

    /// One buy level of the depth block, top of book first.
    pub fn buy_level(&self, i: usize) -> (r: DepthItem)
        requires
            self.wf(),
            i < 5,
        ensures
            r == depth_level(self.data(), 64, i as int),
    {
        DepthItem {
            qty: read_u32_at(self.bytes, 64 + i * 12),
            price: read_i32_at(self.bytes, 64 + i * 12 + 4),
            orders: read_u16_at(self.bytes, 64 + i * 12 + 8),
        }
    }

    /// One sell level of the depth block, top of book first.
    pub fn sell_level(&self, i: usize) -> (r: DepthItem)
        requires
            self.wf(),
            i < 5,
        ensures
            r == depth_level(self.data(), 124, i as int),
    {
        DepthItem {
            qty: read_u32_at(self.bytes, 124 + i * 12),
            price: read_i32_at(self.bytes, 124 + i * 12 + 4),
            orders: read_u16_at(self.bytes, 124 + i * 12 + 8),
        }
    }
}

impl<'a> IndexQuoteRaw32<'a> {
    /// The bytes behind the view.
    pub closed spec fn data(&self) -> Seq<u8> {
        self.bytes@
    }

    /// A view made by `as_index_quote_32` always sees exactly 32 bytes.
    pub open spec fn wf(&self) -> bool {
        self.data().len() == 32
    }

    /// The borrowed packet body.
    pub fn as_slice(&self) -> (r: &'a [u8])
        ensures
            r@ == self.data(),
    {
        self.bytes
    }

    pub fn token(&self) -> (r: u32)
        requires
            self.wf(),
        ensures
            r == be_u32_at(self.data(), 0),
    {
        read_u32_at(self.bytes, 0)
    }

    pub fn ltp(&self) -> (r: i32)
        requires
            self.wf(),
        ensures
            r == be_i32_at(self.data(), 4),
    {
        read_i32_at(self.bytes, 4)
    }

    pub fn high(&self) -> (r: i32)
        requires
            self.wf(),
        ensures
            r == be_i32_at(self.data(), 8),
    {
        read_i32_at(self.bytes, 8)
    }

    pub fn low(&self) -> (r: i32)
        requires
            self.wf(),
        ensures
            r == be_i32_at(self.data(), 12),
    {
        read_i32_at(self.bytes, 12)
    }

    pub fn open(&self) -> (r: i32)
        requires
            self.wf(),
        ensures
            r == be_i32_at(self.data(), 16),
    {
        read_i32_at(self.bytes, 16)
    }

    pub fn close(&self) -> (r: i32)
        requires
            self.wf(),
        ensures
            r == be_i32_at(self.data(), 20),
    {
        read_i32_at(self.bytes, 20)
    }

    pub fn price_change(&self) -> (r: i32)
        requires
            self.wf(),
        ensures
            r == be_i32_at(self.data(), 24),
    {
        read_i32_at(self.bytes, 24)
    }

    pub fn exch_ts(&self) -> (r: u32)
        requires
            self.wf(),
        ensures
            r == be_u32_at(self.data(), 28),
    {
        read_u32_at(self.bytes, 28)
    }
}

impl<'a> InstHeaderRaw64<'a> {
    /// The bytes behind the view.
    pub closed spec fn data(&self) -> Seq<u8> {
        self.bytes@
    }

    /// A view made by `as_inst_header_64` always sees exactly 64 bytes.
    pub open spec fn wf(&self) -> bool {
        self.data().len() == 64
    }

    /// The borrowed packet body.
    pub fn as_slice(&self) -> (r: &'a [u8])
        ensures
            r@ == self.data(),
    {
        self.bytes
    }

    pub fn instrument_token(&self) -> (r: u32)
        requires
            self.wf(),
        ensures
            r == be_u32_at(self.data(), 0),
    {
        read_u32_at(self.bytes, 0)
    }

    pub fn ltp(&self) -> (r: i32)
        requires
            self.wf(),
        ensures
            r == be_i32_at(self.data(), 4),
    {
        read_i32_at(self.bytes, 4)
    }

    pub fn ltq(&self) -> (r: u32)
        requires
            self.wf(),
        ensures
            r == be_u32_at(self.data(), 8),
    {
        read_u32_at(self.bytes, 8)
    }

    pub fn atp(&self) -> (r: i32)
        requires
            self.wf(),
        ensures
            r == be_i32_at(self.data(), 12),
    {
        read_i32_at(self.bytes, 12)
    }

    pub fn vol(&self) -> (r: u32)
        requires
            self.wf(),
        ensures
            r == be_u32_at(self.data(), 16),
    {
        read_u32_at(self.bytes, 16)
    }

    pub fn tbq(&self) -> (r: u32)
        requires
            self.wf(),
        ensures
            r == be_u32_at(self.data(), 20),
    {
        read_u32_at(self.bytes, 20)
    }

    pub fn tsq(&self) -> (r: u32)
        requires
            self.wf(),
        ensures
            r == be_u32_at(self.data(), 24),
    {
        read_u32_at(self.bytes, 24)
    }

    pub fn open(&self) -> (r: i32)
        requires
            self.wf(),
        ensures
            r == be_i32_at(self.data(), 28),
    {
        read_i32_at(self.bytes, 28)
    }

    pub fn high(&self) -> (r: i32)
        requires
            self.wf(),
        ensures
            r == be_i32_at(self.data(), 32),
    {
        read_i32_at(self.bytes, 32)
    }

    pub fn low(&self) -> (r: i32)
        requires
            self.wf(),
        ensures
            r == be_i32_at(self.data(), 36),
    {
        read_i32_at(self.bytes, 36)
    }

    pub fn close(&self) -> (r: i32)
        requires
            self.wf(),
        ensures
            r == be_i32_at(self.data(), 40),
    {
        read_i32_at(self.bytes, 40)
    }

    pub fn last_traded_ts(&self) -> (r: u32)
        requires
            self.wf(),
        ensures
            r == be_u32_at(self.data(), 44),
    {
        read_u32_at(self.bytes, 44)
    }

    pub fn oi(&self) -> (r: u32)
        requires
            self.wf(),
        ensures
            r == be_u32_at(self.data(), 48),
    {
        read_u32_at(self.bytes, 48)
    }

    pub fn oi_day_high(&self) -> (r: u32)
        requires
            self.wf(),
        ensures
            r == be_u32_at(self.data(), 52),
    {
        read_u32_at(self.bytes, 52)
    }

    pub fn oi_day_low(&self) -> (r: u32)
        requires
            self.wf(),
        ensures
            r == be_u32_at(self.data(), 56),
    {
        read_u32_at(self.bytes, 56)
    }

    pub fn exch_ts(&self) -> (r: u32)
        requires
            self.wf(),
        ensures
            r == be_u32_at(self.data(), 60),
    {
        read_u32_at(self.bytes, 60)
    }
}

/// The zero-copy view and the allocating decoder agree: on a 184-byte
/// tradable body, each header accessor of the view reads the same value
/// that the parsed tick holds, and each depth level matches.
pub proof fn lemma_raw_view_matches_tick(v: TickRaw<'_>, t: Tick)
    requires
        v.wf(),
        tick_matches(t, v.data()),
        token_exchange(be_u32_at(v.data(), 0)) != Exchange::INDICES,
    ensures
        t.instrument_token == be_u32_at(v.data(), 0),
        t.last_price == Some((be_i32_at(v.data(), 4)) as i32),
        t.last_traded_qty == Some((be_u32_at(v.data(), 8)) as u32),
        t.avg_traded_price == Some((be_i32_at(v.data(), 12)) as i32),
        t.volume_traded == Some((be_u32_at(v.data(), 16)) as u32),
        t.total_buy_qty == Some((be_u32_at(v.data(), 20)) as u32),
        t.total_sell_qty == Some((be_u32_at(v.data(), 24)) as u32),
        t.last_traded_timestamp == Some((be_u32_at(v.data(), 44)) as u32),
        t.oi == Some((be_u32_at(v.data(), 48)) as u32),
        t.exchange_timestamp == Some((be_u32_at(v.data(), 60)) as u32),
        t.depth matches Some(d) ==> forall|i: int|
            0 <= i < 5 ==> d.buy@[i] == depth_level(v.data(), 64, i) && d.sell@[i] == depth_level(
                v.data(),
                124,
                i,
            ),
{
}

} // verus!
