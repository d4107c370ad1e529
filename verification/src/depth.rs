use vstd::prelude::*;

use crate::parser::{be_i32_at, be_u16_at, be_u32_at, read_i32_at, read_u16_at, read_u32_at};

verus! {

/// One level of the limit-order book: quantity, wire-scaled price, and
/// order count.
#[derive(Debug, Clone, Copy, PartialEq, Eq, Structural)]
pub struct DepthItem {
    pub qty: u32,
    pub price: i32,
    pub orders: u16,
}

/// Five bid and five ask levels, as the venue produced them.
#[derive(Debug, Clone, PartialEq, Eq)]
pub struct Depth {
    pub buy: Vec<DepthItem>,
    pub sell: Vec<DepthItem>,
}

/// The depth entry read at an offset: four bytes of quantity, four of
/// price, two of order count (two trailing pad bytes are not read).
pub open spec fn depth_item_at(b: Seq<u8>, off: int) -> DepthItem {
    DepthItem {
        qty: be_u32_at(b, off) as u32,
        price: be_i32_at(b, off + 4) as i32,
        orders: be_u16_at(b, off + 8) as u16,
    }
}

/// A well-formed depth book: exactly five levels on each side.
pub open spec fn depth_wf(d: Depth) -> bool {
    d.buy@.len() == 5 && d.sell@.len() == 5
}

/// The full 120-byte depth block read at an offset: five 12-byte buy
/// entries, then five 12-byte sell entries.
pub open spec fn depth_level(b: Seq<u8>, off: int, i: int) -> DepthItem {
    depth_item_at(b, off + i * 12)
}

impl DepthItem {
    /// Parse one depth entry from ten bytes.
    pub fn from(input: &[u8]) -> (r: Option<Self>)
        ensures
            r matches Some(d) ==> input@.len() >= 10 && d == depth_item_at(input@, 0),
            r is None <==> input@.len() < 10,
    {
        if input.len() >= 10 {
            Some(
                DepthItem {
                    qty: read_u32_at(input, 0),
                    price: read_i32_at(input, 4),
                    orders: read_u16_at(input, 8),
                },
            )
        } else {
            None
        }
    }
}

impl Default for DepthItem {
    /// An empty book level.
    fn default() -> (r: Self)
        ensures
            r == (DepthItem { qty: 0, price: 0, orders: 0 }),
    {
        DepthItem { qty: 0, price: 0, orders: 0 }
    }
}

impl Depth {
    /// Parse a 120-byte depth block: five buy entries then five sell
    /// entries, 12 bytes each.
    pub fn from(input: &[u8]) -> (r: Option<Self>)
        ensures
            r matches Some(d) ==> {
                &&& input@.len() >= 120
                &&& depth_wf(d)
                &&& forall|i: int| 0 <= i < 5 ==> d.buy@[i] == depth_level(input@, 0, i)
                &&& forall|i: int| 0 <= i < 5 ==> d.sell@[i] == depth_level(input@, 60, i)
            },
            r is None <==> input@.len() < 120,
    {
        if input.len() >= 120 {
            let mut buy: Vec<DepthItem> = Vec::new();
            let mut sell: Vec<DepthItem> = Vec::new();
            for i in 0..5usize
                invariant
                    input@.len() >= 120,
                    buy@.len() == i,
                    forall|j: int| 0 <= j < i ==> buy@[j] == depth_level(input@, 0, j),
            {
                buy.push(
                    DepthItem {
                        qty: read_u32_at(input, i * 12),
                        price: read_i32_at(input, i * 12 + 4),
                        orders: read_u16_at(input, i * 12 + 8),
                    },
                );
            }
            for i in 0..5usize
                invariant
                    input@.len() >= 120,
                    buy@.len() == 5,
                    forall|j: int| 0 <= j < 5 ==> buy@[j] == depth_level(input@, 0, j),
                    sell@.len() == i,
                    forall|j: int| 0 <= j < i ==> sell@[j] == depth_level(input@, 60, j),
            {
                sell.push(
                    DepthItem {
                        qty: read_u32_at(input, 60 + i * 12),
                        price: read_i32_at(input, 60 + i * 12 + 4),
                        orders: read_u16_at(input, 60 + i * 12 + 8),
                    },
                );
            }
            Some(Depth { buy, sell })
        } else {
            None
        }
    }
}

} // verus!
