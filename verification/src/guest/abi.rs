//! How a module and its host hand each other bytes: a place and a length in the module's memory.
use vstd::prelude::*;

verus! {

/// The size of the buffer for input: the most that the host hands over at once.
pub const ARENA: u32 = 0x10_0000;

/// Whether a module has room for an input.
pub fn alloc_accepts(len: i32) -> (r: bool)
    ensures
        r == (0 <= len <= ARENA),
{
    len >= 0 && len as u32 <= ARENA
}

/// The bits of a number of 32 bits.
pub open spec fn word(n: i32) -> u32 {
    n as u32
}

/// A place and a length in one number: the place above, the length below.
pub open spec fn is_packed(r: i64, ptr: i32, len: i32) -> bool {
    &&& (r as u64) >> 32 == word(ptr) as u64
    &&& (r as u64) & 0xffff_ffff == word(len) as u64
}

/// A place and a length in one number.
pub fn packed(ptr: i32, len: i32) -> (r: i64)
    ensures
        is_packed(r, ptr, len),
{
    let p: u32 = ptr as u32;
    let n: u32 = len as u32;
    let r: i64 = ((p as i64) << 32) | (n as i64);
    assert(((((p as i64) << 32) | (n as i64)) as u64) >> 32 == p as u64 && ((((p as i64) << 32) | (
    n as i64)) as u64) & 0xffff_ffff == n as u64) by (bit_vector);
    r
}

/// Two packed numbers are the same only for the same place and length.
pub proof fn lemma_packed_tells_both(r: i64, p: i32, n: i32, q: i32, m: i32)
    requires
        is_packed(r, p, n),
        is_packed(r, q, m),
    ensures
        p == q,
        n == m,
{
    assert(p as u32 == q as u32 ==> p == q) by (bit_vector);
    assert(n as u32 == m as u32 ==> n == m) by (bit_vector);
}

/// Whether an input lies in the buffer that begins at `base`.
pub open spec fn within(base: int, at: int, len: int) -> bool {
    0 <= len && base <= at && at + len <= base + ARENA
}

/// Whether an input lies in the buffer that begins at `base`.
pub fn input_within(base: u32, ptr: i32, len: i32) -> (r: bool)
    requires
        base + ARENA <= u32::MAX,
    ensures
        r == within(base as int, word(ptr) as int, len as int),
{
    let p: u32 = ptr as u32;
    if len < 0 || p < base {
        return false;
    }
    let end: u64 = p as u64 + len as u64;
    end <= base as u64 + ARENA as u64
}

} // verus!
