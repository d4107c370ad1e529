use vstd::prelude::*;

verus! {

/// Value of two bytes read big-endian.
pub open spec fn be_u16_spec(b0: u8, b1: u8) -> int {
    b0 * 0x100 + b1
}

/// Value of four bytes read big-endian, as an unsigned integer.
pub open spec fn be_u32_spec(b0: u8, b1: u8, b2: u8, b3: u8) -> int {
    b0 * 0x1000000 + b1 * 0x10000 + b2 * 0x100 + b3
}

/// Value of four bytes read big-endian, reinterpreted as a two's-complement
/// signed 32-bit integer.
pub open spec fn be_i32_spec(b0: u8, b1: u8, b2: u8, b3: u8) -> int {
    if be_u32_spec(b0, b1, b2, b3) < 0x8000_0000 {
        be_u32_spec(b0, b1, b2, b3)
    } else {
        be_u32_spec(b0, b1, b2, b3) - 0x1_0000_0000
    }
}

/// Big-endian u32 at an offset of a byte sequence (the sequence must reach
/// four bytes past the offset for this to be meaningful).
pub open spec fn be_u32_at(b: Seq<u8>, off: int) -> int {
    be_u32_spec(b[off], b[off + 1], b[off + 2], b[off + 3])
}

/// Big-endian u16 at an offset of a byte sequence.
pub open spec fn be_u16_at(b: Seq<u8>, off: int) -> int {
    be_u16_spec(b[off], b[off + 1])
}

/// Big-endian signed 32-bit value at an offset of a byte sequence.
pub open spec fn be_i32_at(b: Seq<u8>, off: int) -> int {
    be_i32_spec(b[off], b[off + 1], b[off + 2], b[off + 3])
}

/// Read a big-endian u32 from the first four bytes of the input, if present.
pub fn value(input: &[u8]) -> (r: Option<u32>)
    ensures
        r matches Some(v) ==> input@.len() >= 4 && v == be_u32_at(input@, 0),
        r is None <==> input@.len() < 4,
{
    if input.len() >= 4 {
        Some(
            (input[0] as u32) * 0x1000000 + (input[1] as u32) * 0x10000 + (input[2] as u32) * 0x100
                + (input[3] as u32),
        )
    } else {
        None
    }
}

/// Read a big-endian u16 from the first two bytes of the input, if present.
pub fn value_short(input: &[u8]) -> (r: Option<u16>)
    ensures
        r matches Some(v) ==> input@.len() >= 2 && v == be_u16_at(input@, 0),
        r is None <==> input@.len() < 2,
{
    if input.len() >= 2 {
        Some((input[0] as u16) * 0x100 + (input[1] as u16))
    } else {
        None
    }
}

/// Read a big-endian signed 32-bit scaled price from the first four bytes.
pub fn value_signed(input: &[u8]) -> (r: Option<i32>)
    ensures
        r matches Some(v) ==> input@.len() >= 4 && v == be_i32_at(input@, 0),
        r is None <==> input@.len() < 4,
{
    if input.len() >= 4 {
        let u: u32 = (input[0] as u32) * 0x1000000 + (input[1] as u32) * 0x10000 + (
        input[2] as u32) * 0x100 + (input[3] as u32);
        if u < 0x8000_0000 {
            Some(u as i32)
        } else {
            let mag: i64 = 0x1_0000_0000i64 - (u as i64);
            Some((-mag) as i32)
        }
    } else {
        None
    }
}

/// Read the big-endian u32 at an offset; the slice must reach four bytes
/// past it.
pub fn read_u32_at(b: &[u8], off: usize) -> (r: u32)
    requires
        off + 4 <= b@.len(),
    ensures
        r == be_u32_at(b@, off as int),
{
    (b[off] as u32) * 0x1000000 + (b[off + 1] as u32) * 0x10000 + (b[off + 2] as u32) * 0x100 + (
    b[off + 3] as u32)
}

/// Read the big-endian u16 at an offset; the slice must reach two bytes
/// past it.
pub fn read_u16_at(b: &[u8], off: usize) -> (r: u16)
    requires
        off + 2 <= b@.len(),
    ensures
        r == be_u16_at(b@, off as int),
{
    (b[off] as u16) * 0x100 + (b[off + 1] as u16)
}

/// Read the big-endian signed 32-bit value at an offset.
pub fn read_i32_at(b: &[u8], off: usize) -> (r: i32)
    requires
        off + 4 <= b@.len(),
    ensures
        r == be_i32_at(b@, off as int),
{
    let u: u32 = read_u32_at(b, off);
    if u < 0x8000_0000 {
        u as i32
    } else {
        let mag: i64 = 0x1_0000_0000i64 - (u as i64);
        (-mag) as i32
    }
}

/// Length prefix of a packet: the big-endian u16 at the start of the slice,
/// or zero when fewer than two bytes remain.
pub fn packet_length(bs: &[u8]) -> (r: usize)
    ensures
        r == if bs@.len() >= 2 {
            be_u16_at(bs@, 0)
        } else {
            0
        },
{
    if bs.len() >= 2 {
        ((bs[0] as u16) * 0x100 + (bs[1] as u16)) as usize
    } else {
        0
    }
}

} // verus!
