use vstd::prelude::*;

verus! {

/// The state that follows `state`: `state * 7 + 3`, reduced to 32 bits.
pub open spec fn next_state(state: u32) -> u32 {
    ((state * 7 + 3) % 0x1_0000_0000) as u32
}

/// The state reached from `state` by `n` advances.
pub open spec fn state_after(state: u32, n: nat) -> u32
    decreases n,
{
    if n == 0 {
        state
    } else {
        next_state(state_after(state, (n - 1) as nat))
    }
}

/// Byte `index` (0 is the lowest) of the 32-bit word `key`.
pub open spec fn key_byte(key: u32, index: int) -> u8 {
    ((key >> ((8 * index) as u32)) & 0xff) as u8
}

/// Steps the generator once: hands out the state it held and leaves the next
/// one in its place. Overflow of the recurrence wraps.
pub fn advance_magic(magic: &mut u32) -> (value: u32)
    ensures
        value == *old(magic),
        *final(magic) == next_state(*old(magic)),
{
    let value: u32 = *magic;
    *magic = value.wrapping_mul(7).wrapping_add(3);
    value
}

/// Picks byte `index` out of `key`.
pub fn byte_of(key: u32, index: u32) -> (b: u8)
    requires
        index < 4,
    ensures
        b == key_byte(key, index as int),
{
    let shift: u32 = 8 * index;
    let masked: u32 = (key >> shift) & 0xff;
    assert(masked <= 0xff) by (bit_vector)
        requires
            masked == (key >> shift) & 0xff,
    ;
    masked as u8
}

/// Replaying advances: `n` steps and then `m` more reach the state that
/// `n + m` steps reach, so the sequence of states is fixed by the seed.
pub proof fn lemma_state_after_add(state: u32, n: nat, m: nat)
    ensures
        state_after(state_after(state, n), m) == state_after(state, n + m),
    decreases m,
{
    if m > 0 {
        lemma_state_after_add(state, n, (m - 1) as nat);
    }
}

} // verus!
