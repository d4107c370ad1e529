use vstd::prelude::*;

use crate::decimal::{dec_chars, to_decimal};

verus! {

/// Subscription level of an instrument: controls which packet size the
/// broker streams for it.
#[derive(Debug, Clone, Copy, PartialEq, Eq, Structural)]
pub enum Mode {
    LTP,
    Quote,
    Full,
}

/// The canonical text label of a mode, used in control messages.
pub open spec fn mode_label(m: Mode) -> Seq<char> {
    match m {
        Mode::LTP => "ltp"@,
        Mode::Quote => "quote"@,
        Mode::Full => "full"@,
    }
}

/// The mode that a packet body length implies: 8 is an LTP packet,
/// 28 and 44 are quote packets, 32 and 184 are full packets.
pub open spec fn mode_for_body_len(len: int) -> Option<Mode> {
    if len == 8 {
        Some(Mode::LTP)
    } else if len == 28 || len == 44 {
        Some(Mode::Quote)
    } else if len == 32 || len == 184 {
        Some(Mode::Full)
    } else {
        None
    }
}

impl Mode {
    /// The mode's label for WebSocket control messages.
    pub fn to_websocket_string(&self) -> (r: &'static str)
        ensures
            r@ == mode_label(*self),
    {
        match self {
            Mode::LTP => "ltp",
            Mode::Quote => "quote",
            Mode::Full => "full",
        }
    }

    /// The mode a packet body length implies, or an error naming the
    /// unrecognized length.
    pub fn try_from(value: usize) -> (r: Result<Self, String>)
        ensures
            r matches Ok(m) ==> mode_for_body_len(value as int) == Some(m),
            r is Err <==> mode_for_body_len(value as int) is None,
            r matches Err(e) ==> e@ == "invalid packet size: "@ + dec_chars(value as int),
    {
        match value {
            8 => Ok(Self::LTP),
            28 => Ok(Self::Quote),
            44 => Ok(Self::Quote),
            32 => Ok(Self::Full),
            184 => Ok(Self::Full),
            _ => {
                let mut msg = String::from_str("invalid packet size: ");
                msg.append(to_decimal(value as u64).as_str());
                Err(msg)
            },
        }
    }
}

impl Default for Mode {
    /// The default subscription level is Quote.
    fn default() -> (r: Self)
        ensures
            r == Mode::Quote,
    {
        Mode::Quote
    }
}

} // verus!
