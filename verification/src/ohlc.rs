use vstd::prelude::*;

use crate::parser::{be_i32_at, read_i32_at};

verus! {

/// Day prices of one instrument, as wire-scaled signed integers. The real
/// price is each field divided by the venue's divisor.
#[derive(Debug, Clone, Copy, PartialEq, Eq, Structural)]
pub struct OHLC {
    pub open: i32,
    pub high: i32,
    pub low: i32,
    pub close: i32,
}

/// The OHLC block read at an offset in tradable field order: open, high,
/// low, close.
pub open spec fn ohlc_at(b: Seq<u8>, off: int) -> OHLC {
    OHLC {
        open: be_i32_at(b, off) as i32,
        high: be_i32_at(b, off + 4) as i32,
        low: be_i32_at(b, off + 8) as i32,
        close: be_i32_at(b, off + 12) as i32,
    }
}

/// The OHLC block read at an offset in index field order: high, low, open,
/// close.
pub open spec fn ohlc_index_at(b: Seq<u8>, off: int) -> OHLC {
    OHLC {
        open: be_i32_at(b, off + 8) as i32,
        high: be_i32_at(b, off) as i32,
        low: be_i32_at(b, off + 4) as i32,
        close: be_i32_at(b, off + 12) as i32,
    }
}

impl OHLC {
    /// Parse sixteen bytes in tradable field order: open, high, low, close.
    pub fn from(value: &[u8]) -> (r: Option<Self>)
        ensures
            r matches Some(o) ==> value@.len() >= 16 && o == ohlc_at(value@, 0),
            r is None <==> value@.len() < 16,
    {
        if value.len() >= 16 {
            Some(
                OHLC {
                    open: read_i32_at(value, 0),
                    high: read_i32_at(value, 4),
                    low: read_i32_at(value, 8),
                    close: read_i32_at(value, 12),
                },
            )
        } else {
            None
        }
    }

    /// Parse sixteen bytes in index field order: high, low, open, close.
    pub fn from_index(value: &[u8]) -> (r: Option<Self>)
        ensures
            r matches Some(o) ==> value@.len() >= 16 && o == ohlc_index_at(value@, 0),
            r is None <==> value@.len() < 16,
    {
        if value.len() >= 16 {
            Some(
                OHLC {
                    open: read_i32_at(value, 8),
                    high: read_i32_at(value, 0),
                    low: read_i32_at(value, 4),
                    close: read_i32_at(value, 12),
                },
            )
        } else {
            None
        }
    }
}

impl Default for OHLC {
    /// All four prices zero.
    fn default() -> (r: Self)
        ensures
            r == (OHLC { open: 0, high: 0, low: 0, close: 0 }),
    {
        OHLC { open: 0, high: 0, low: 0, close: 0 }
    }
}

} // verus!
