use vstd::prelude::*;

use crate::tick::Tick;

verus! {

/// One parsed quote paired with the token it belongs to.
#[derive(Debug, Clone, PartialEq, Eq)]
pub struct TickMessage {
    pub instrument_token: u32,
    pub content: Tick,
}

impl TickMessage {
    /// Pair a token with its parsed quote.
    pub fn new(instrument_token: u32, content: Tick) -> (r: Self)
        ensures
            r.instrument_token == instrument_token,
            r.content == content,
    {
        Self { instrument_token, content }
    }
}

} // verus!
