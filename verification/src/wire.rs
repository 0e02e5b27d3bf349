use vstd::prelude::*;

verus! {

/// The little-endian 32-bit integer held by the four bytes of `bytes` that
/// start at `at`.
pub open spec fn le_u32(bytes: Seq<u8>, at: int) -> u32
    recommends
        0 <= at,
        at + 4 <= bytes.len(),
{
    (bytes[at] + bytes[at + 1] * 0x100 + bytes[at + 2] * 0x1_0000 + bytes[at + 3] * 0x100_0000) as u32
}

/// Whether four bytes can be read from `bytes` at `at`.
pub open spec fn has_u32(bytes: Seq<u8>, at: int) -> bool {
    0 <= at && at + 4 <= bytes.len()
}

/// Reads a little-endian 32-bit integer at `at`; `None` where fewer than four
/// bytes are left there.
pub fn ru32(stream: &[u8], at: usize) -> (result: Option<u32>)
    ensures
        result.is_some() == has_u32(stream@, at as int),
        result matches Some(v) ==> v == le_u32(stream@, at as int),
{
    let len: usize = stream.len();
    if len < 4 || at > len - 4 {
        return None;
    }
    let b0: u32 = stream[at] as u32;
    let b1: u32 = stream[at + 1] as u32;
    let b2: u32 = stream[at + 2] as u32;
    let b3: u32 = stream[at + 3] as u32;
    Some(b0 + b1 * 0x100 + b2 * 0x1_0000 + b3 * 0x100_0000)
}

} // verus!
