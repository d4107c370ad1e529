use vstd::prelude::*;

verus! {

/// Trading venues. The low 8 bits of an instrument token name one of these.
#[derive(Debug, Clone, Copy, PartialEq, Eq, Structural)]
pub enum Exchange {
    NSE,
    NFO,
    CDS,
    BSE,
    BFO,
    BCD,
    MCX,
    MCXSX,
    INDICES,
}

/// The wire code of each venue.
pub open spec fn exchange_code(e: Exchange) -> int {
    match e {
        Exchange::NSE => 1,
        Exchange::NFO => 2,
        Exchange::CDS => 3,
        Exchange::BSE => 4,
        Exchange::BFO => 5,
        Exchange::BCD => 6,
        Exchange::MCX => 7,
        Exchange::MCXSX => 8,
        Exchange::INDICES => 9,
    }
}

/// Venue for a wire code; codes outside 1..=9 fall back to NSE.
pub open spec fn exchange_from_code(value: int) -> Exchange {
    if value == 9 {
        Exchange::INDICES
    } else if value == 8 {
        Exchange::MCXSX
    } else if value == 7 {
        Exchange::MCX
    } else if value == 6 {
        Exchange::BCD
    } else if value == 5 {
        Exchange::BFO
    } else if value == 4 {
        Exchange::BSE
    } else if value == 3 {
        Exchange::CDS
    } else if value == 2 {
        Exchange::NFO
    } else {
        Exchange::NSE
    }
}

/// The price divisor of each venue: wire prices are signed 32-bit integers
/// scaled by this factor.
pub open spec fn divisor_spec(e: Exchange) -> int {
    match e {
        Exchange::CDS => 1_000_000,
        Exchange::BCD => 1_000,
        _ => 100,
    }
}

impl Exchange {
    /// Scale factor dividing wire prices for this venue.
    pub fn divisor(&self) -> (r: u32)
        ensures
            r == divisor_spec(*self),
    {
        match self {
            Exchange::CDS => 1_000_000,
            Exchange::BCD => 1_000,
            _ => 100,
        }
    }

    /// Every venue but INDICES carries tradable instruments.
    pub fn is_tradable(&self) -> (r: bool)
        ensures
            r == (*self != Exchange::INDICES),
    {
        !matches!(self, Exchange::INDICES)
    }

    /// The venue's name, as the broker spells it.
    pub fn name(&self) -> (r: &'static str)
        ensures
            r@ == exchange_name(*self),
    {
        match self {
            Exchange::NSE => "NSE",
            Exchange::NFO => "NFO",
            Exchange::CDS => "CDS",
            Exchange::BSE => "BSE",
            Exchange::BFO => "BFO",
            Exchange::BCD => "BCD",
            Exchange::MCX => "MCX",
            Exchange::MCXSX => "MCXSX",
            Exchange::INDICES => "INDICES",
        }
    }
}

/// The broker's spelling of each venue.
pub open spec fn exchange_name(e: Exchange) -> Seq<char> {
    match e {
        Exchange::NSE => "NSE"@,
        Exchange::NFO => "NFO"@,
        Exchange::CDS => "CDS"@,
        Exchange::BSE => "BSE"@,
        Exchange::BFO => "BFO"@,
        Exchange::BCD => "BCD"@,
        Exchange::MCX => "MCX"@,
        Exchange::MCXSX => "MCXSX"@,
        Exchange::INDICES => "INDICES"@,
    }
}

impl From<usize> for Exchange {
    /// Venue for a wire code; codes outside 1..=9 fall back to NSE.
    fn from(value: usize) -> (r: Self) {
        match value {
            9 => Self::INDICES,
            8 => Self::MCXSX,
            7 => Self::MCX,
            6 => Self::BCD,
            5 => Self::BFO,
            4 => Self::BSE,
            3 => Self::CDS,
            2 => Self::NFO,
            1 => Self::NSE,
            _ => Self::NSE,
        }
    }
}

impl vstd::std_specs::convert::FromSpecImpl<usize> for Exchange {
    open spec fn obeys_from_spec() -> bool {
        true
    }

    open spec fn from_spec(value: usize) -> Exchange {
        exchange_from_code(value as int)
    }
}

impl Default for Exchange {
    /// The default venue is NSE, as on the wire code fallback.
    fn default() -> (r: Self)
        ensures
            r == Exchange::NSE,
    {
        Exchange::NSE
    }
}

} // verus!
