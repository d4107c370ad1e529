use vstd::prelude::*;

verus! {

/// Error raised when a packet body cannot be decoded into a tick.
#[derive(Debug, Clone)]
pub struct ParseTickError(pub String);

impl ParseTickError {
    /// The error's text, for callers that render it.
    pub fn message(&self) -> (r: &String)
        ensures
            r@ == self.0@,
    {
        &self.0
    }
}

} // verus!
