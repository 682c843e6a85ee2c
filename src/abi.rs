//! The packed 64-bit result of buffer-returning calls: the offset in the low
//! 32 bits, the length in the high 32 bits.
use vstd::prelude::*;

verus! {

/// 2 to the 32nd.
pub open spec fn two32() -> int {
    4294967296
}

/// The low word that `ptr` occupies: its 32-bit two's-complement pattern.
pub open spec fn low_word(ptr: i32) -> int {
    if ptr < 0 { ptr + two32() } else { ptr as int }
}

/// The packed value of an (offset, length) pair.
pub open spec fn packed(ptr: i32, len: i32) -> int {
    len * two32() + low_word(ptr)
}

/// Packs `ptr` into the low and `len` into the high 32 bits.
pub fn pack_i64(ptr: i32, len: i32) -> (r: i64)
    ensures
        r == packed(ptr, len),
{
    let low: i64 = if ptr < 0 { ptr as i64 + 4294967296 } else { ptr as i64 };
    len as i64 * 4294967296 + low
}

/// Splits a packed value into its (offset, length) pair.
pub fn unpack_i64_result(value: i64) -> (r: (i32, i32))
    ensures
        packed(r.0, r.1) == value,
{
    let m: i64 = value % 4294967296;
    let low: i64 = if m < 0 { m + 4294967296 } else { m };
    let high: i64 = (value - low) / 4294967296;
    assert(value - low == high * 4294967296);
    let ptr: i32 = if low >= 2147483648 { (low - 4294967296) as i32 } else { low as i32 };
    (ptr, high as i32)
}

/// A pair survives packing: distinct pairs pack to distinct values, so
/// unpacking a packed pair gives the pair back.
pub proof fn lemma_pack_round_trip(ptr: i32, len: i32, ptr2: i32, len2: i32)
    requires
        packed(ptr, len) == packed(ptr2, len2),
    ensures
        ptr == ptr2,
        len == len2,
{
    assert(0 <= low_word(ptr) < two32());
    assert(0 <= low_word(ptr2) < two32());
    if len < len2 {
        assert(len * two32() + two32() <= len2 * two32()) by (nonlinear_arith)
            requires
                len < len2,
        ;
    } else if len2 < len {
        assert(len2 * two32() + two32() <= len * two32()) by (nonlinear_arith)
            requires
                len2 < len,
        ;
    }
}

} // verus!
