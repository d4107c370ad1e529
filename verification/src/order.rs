use vstd::prelude::*;

verus! {

/// Side of an order.
#[derive(Debug, Clone, Copy, PartialEq, Eq, Structural)]
pub enum OrderTransactionType {
    Buy,
    Sell,
}

/// How long an order stays valid.
#[derive(Debug, Clone, Copy, PartialEq, Eq, Structural)]
pub enum OrderValidity {
    DAY,
    IOC,
    TTL,
}

/// Lifecycle states an order postback can report.
#[derive(Debug, Clone, Copy, PartialEq, Eq, Structural)]
pub enum OrderStatus {
    COMPLETE,
    REJECTED,
    CANCELLED,
    UPDATE,
}

/// A point in time as seconds since the epoch. Order postbacks carry
/// timestamps in `YYYY-MM-DD HH:MM:SS` text; converting that text to
/// seconds is calendar work left to the order decoder outside the
/// library.
#[derive(Debug, Clone, Copy, PartialEq, Eq, Structural)]
pub struct TimeStamp(pub i64);

impl TimeStamp {
    /// Wrap a count of seconds since the epoch.
    pub fn new(secs: i64) -> (r: Self)
        ensures
            r.0 == secs,
    {
        TimeStamp(secs)
    }

    /// The seconds since the epoch.
    pub fn secs(&self) -> (r: i64)
        ensures
            r == self.0,
    {
        self.0
    }
}

} // verus!
