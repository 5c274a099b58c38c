//! Lane-wise operations on a 128-bit vector of two 64-bit lanes.
//!
//! The functions carry the names of the `simd128` instructions whose behaviour they have.

use vstd::prelude::*;

verus! {

/// A 128-bit vector, seen as two 64-bit lanes.
#[derive(Clone, Copy, Debug, PartialEq, Eq)]
pub struct V128 {
    pub lane0: u64,
    pub lane1: u64,
}

impl V128 {
    /// Lane `i` of the vector.
    pub open spec fn lane(self, i: int) -> u64 {
        if i == 0 {
            self.lane0
        } else {
            self.lane1
        }
    }

    /// Whether each lane of the vector is the image under `f` of the same lane of `a`.
    pub open spec fn is_map(self, a: V128, f: spec_fn(u64) -> u64) -> bool {
        self.lane0 == f(a.lane0) && self.lane1 == f(a.lane1)
    }

    /// Whether each lane of the vector is the image under `f` of the same lanes of `a` and `b`.
    pub open spec fn is_zip(self, a: V128, b: V128, f: spec_fn(u64, u64) -> u64) -> bool {
        self.lane0 == f(a.lane0, b.lane0) && self.lane1 == f(a.lane1, b.lane1)
    }
}

/// The sum of two lanes, without what overflows.
pub open spec fn wrapped_sum(x: u64, y: u64) -> u64 {
    if x + y >= 0x1_0000_0000_0000_0000 {
        (x + y - 0x1_0000_0000_0000_0000) as u64
    } else {
        (x + y) as u64
    }
}

/// The difference of two lanes, without what overflows.
pub open spec fn wrapped_difference(x: u64, y: u64) -> u64 {
    if x < y {
        (x - y + 0x1_0000_0000_0000_0000) as u64
    } else {
        (x - y) as u64
    }
}

/// A lane read as a signed integer in two's complement.
pub open spec fn signed(x: u64) -> int {
    if x >= 0x8000_0000_0000_0000 {
        x - 0x1_0000_0000_0000_0000
    } else {
        x as int
    }
}

/// The low half of a lane.
pub open spec fn low32(x: u64) -> int {
    x as int % 0x1_0000_0000
}

/// The high half of a lane.
pub open spec fn high32(x: u64) -> int {
    x as int / 0x1_0000_0000
}

/// A lane made of two 32-bit halves.
pub open spec fn from_halves(low: int, high: int) -> u64 {
    (low + high * 0x1_0000_0000) as u64
}

/// 32-bit lane `i` of the pair of vectors `a`, `b`: lanes `0..4` are those of `a`.
pub open spec fn half_lane(a: V128, b: V128, i: int) -> int {
    let x: u64 = if i < 2 {
        a.lane0
    } else if i < 4 {
        a.lane1
    } else if i < 6 {
        b.lane0
    } else {
        b.lane1
    };
    if i % 2 == 0 {
        low32(x)
    } else {
        high32(x)
    }
}

/// 64-bit lane `i` of the pair of vectors `a`, `b`: lanes `0..2` are those of `a`.
pub open spec fn pair_lane(a: V128, b: V128, i: int) -> u64 {
    if i < 2 {
        a.lane(i)
    } else {
        b.lane(i - 2)
    }
}

/// Adds the lanes, modulo `2^64`.
pub fn i64x2_add(a: V128, b: V128) -> (r: V128)
    ensures
        r.is_zip(a, b, |x: u64, y: u64| wrapped_sum(x, y)),
{
    V128 { lane0: a.lane0.wrapping_add(b.lane0), lane1: a.lane1.wrapping_add(b.lane1) }
}

/// Subtracts the lanes, modulo `2^64`.
pub fn i64x2_sub(a: V128, b: V128) -> (r: V128)
    ensures
        r.is_zip(a, b, |x: u64, y: u64| wrapped_difference(x, y)),
{
    V128 { lane0: a.lane0.wrapping_sub(b.lane0), lane1: a.lane1.wrapping_sub(b.lane1) }
}

/// Whether `x` is greater than `y` when both are read as signed integers.
fn signed_gt(x: u64, y: u64) -> (r: bool)
    ensures
        r == (signed(x) > signed(y)),
{
    let x_negative: bool = x >= 0x8000_0000_0000_0000;
    let y_negative: bool = y >= 0x8000_0000_0000_0000;
    if x_negative == y_negative {
        x > y
    } else {
        y_negative
    }
}

/// Compares the lanes as signed integers: a lane of ones where `a` is greater, else of zeros.
pub fn i64x2_gt(a: V128, b: V128) -> (r: V128)
    ensures
        r.is_zip(a, b, |x: u64, y: u64| if signed(x) > signed(y) { u64::MAX } else { 0u64 }),
{
    V128 {
        lane0: if signed_gt(a.lane0, b.lane0) { u64::MAX } else { 0 },
        lane1: if signed_gt(a.lane1, b.lane1) { u64::MAX } else { 0 },
    }
}

/// Shifts each lane left, without what overflows. The amount is taken modulo 64.
pub fn i64x2_shl(a: V128, amount: u32) -> (r: V128)
    ensures
        r.is_map(a, |x: u64| x << ((amount % 64) as u64)),
{
    let n: u64 = (amount % 64) as u64;
    V128 { lane0: a.lane0 << n, lane1: a.lane1 << n }
}

/// Shifts each lane right, filling with zeros. The amount is taken modulo 64.
pub fn u64x2_shr(a: V128, amount: u32) -> (r: V128)
    ensures
        r.is_map(a, |x: u64| x >> ((amount % 64) as u64)),
{
    let n: u64 = (amount % 64) as u64;
    V128 { lane0: a.lane0 >> n, lane1: a.lane1 >> n }
}

/// A vector with the same value in both lanes.
pub fn u64x2_splat(x: u64) -> (r: V128)
    ensures
        r.lane0 == x,
        r.lane1 == x,
{
    V128 { lane0: x, lane1: x }
}

/// The bits that are set in both vectors.
pub fn v128_and(a: V128, b: V128) -> (r: V128)
    ensures
        r.is_zip(a, b, |x: u64, y: u64| x & y),
{
    V128 { lane0: a.lane0 & b.lane0, lane1: a.lane1 & b.lane1 }
}

/// The bits that are set in `a` and not in `b`.
pub fn v128_andnot(a: V128, b: V128) -> (r: V128)
    ensures
        r.is_zip(a, b, |x: u64, y: u64| x & !y),
{
    V128 { lane0: a.lane0 & !b.lane0, lane1: a.lane1 & !b.lane1 }
}

/// The bits that are set in one vector at least.
pub fn v128_or(a: V128, b: V128) -> (r: V128)
    ensures
        r.is_zip(a, b, |x: u64, y: u64| x | y),
{
    V128 { lane0: a.lane0 | b.lane0, lane1: a.lane1 | b.lane1 }
}

/// The bits that are set in exactly one of the vectors.
pub fn v128_xor(a: V128, b: V128) -> (r: V128)
    ensures
        r.is_zip(a, b, |x: u64, y: u64| x ^ y),
{
    V128 { lane0: a.lane0 ^ b.lane0, lane1: a.lane1 ^ b.lane1 }
}

/// One of the eight 32-bit lanes of a pair of vectors.
fn u32_lane(a: V128, b: V128, i: usize) -> (r: u64)
    requires
        i < 8,
    ensures
        r == half_lane(a, b, i as int),
        r < 0x1_0000_0000,
{
    let x: u64 = if i < 2 {
        a.lane0
    } else if i < 4 {
        a.lane1
    } else if i < 6 {
        b.lane0
    } else {
        b.lane1
    };
    if i % 2 == 0 {
        x % 0x1_0000_0000
    } else {
        x / 0x1_0000_0000
    }
}

/// Selects four of the eight 32-bit lanes of a pair of vectors.
pub fn i32x4_shuffle<const I0: usize, const I1: usize, const I2: usize, const I3: usize>(
    a: V128,
    b: V128,
) -> (r: V128)
    requires
        I0 < 8,
        I1 < 8,
        I2 < 8,
        I3 < 8,
    ensures
        r.lane0 == from_halves(half_lane(a, b, I0 as int), half_lane(a, b, I1 as int)),
        r.lane1 == from_halves(half_lane(a, b, I2 as int), half_lane(a, b, I3 as int)),
{
    V128 {
        lane0: u32_lane(a, b, I0) + u32_lane(a, b, I1) * 0x1_0000_0000,
        lane1: u32_lane(a, b, I2) + u32_lane(a, b, I3) * 0x1_0000_0000,
    }
}

/// Selects two of the four 64-bit lanes of a pair of vectors.
pub fn i64x2_shuffle<const I0: usize, const I1: usize>(a: V128, b: V128) -> (r: V128)
    requires
        I0 < 4,
        I1 < 4,
    ensures
        r.lane0 == pair_lane(a, b, I0 as int),
        r.lane1 == pair_lane(a, b, I1 as int),
{
    V128 { lane0: u64_lane(a, b, I0), lane1: u64_lane(a, b, I1) }
}

/// One of the four 64-bit lanes of a pair of vectors.
fn u64_lane(a: V128, b: V128, i: usize) -> (r: u64)
    requires
        i < 4,
    ensures
        r == pair_lane(a, b, i as int),
{
    if i == 0 {
        a.lane0
    } else if i == 1 {
        a.lane1
    } else if i == 2 {
        b.lane0
    } else {
        b.lane1
    }
}

/// The product of two 32-bit numbers.
fn product32(x: u64, y: u64) -> (r: u64)
    requires
        x < 0x1_0000_0000,
        y < 0x1_0000_0000,
    ensures
        r == x * y,
        r <= 0xFFFF_FFFF * 0xFFFF_FFFF,
{
    assert(0 <= x * y <= 0xFFFF_FFFF * 0xFFFF_FFFF) by (nonlinear_arith)
        requires
            x <= 0xFFFF_FFFF,
            y <= 0xFFFF_FFFF,
    ;
    x * y
}

/// The full products of the two low 32-bit lanes of each vector, read as unsigned integers.
pub fn i64x2_extmul_low_u32x4(a: V128, b: V128) -> (r: V128)
    ensures
        r.lane0 == low32(a.lane0) * low32(b.lane0),
        r.lane1 == high32(a.lane0) * high32(b.lane0),
{
    V128 {
        lane0: product32(u32_lane(a, a, 0), u32_lane(b, b, 0)),
        lane1: product32(u32_lane(a, a, 1), u32_lane(b, b, 1)),
    }
}

// LAWS
// ================================================================================================

/// Lanes are added and subtracted modulo `2^64`, and the signed integer that a lane is read as
/// differs from it by a multiple of `2^64`.
pub proof fn law_wrapping(x: u64, y: u64)
    ensures
        wrapped_sum(x, y) as int == (x + y) % 0x1_0000_0000_0000_0000,
        wrapped_difference(x, y) as int == (x - y) % 0x1_0000_0000_0000_0000,
        -0x8000_0000_0000_0000 <= signed(x) < 0x8000_0000_0000_0000,
        (signed(x) - x) % 0x1_0000_0000_0000_0000 == 0,
{
}

/// A lane is made of its two halves, and two halves are those of the lane that is made of them.
pub proof fn law_halves(x: u64, low: int, high: int)
    ensures
        x == low32(x) + high32(x) * 0x1_0000_0000,
        0 <= low32(x) < 0x1_0000_0000,
        0 <= high32(x) < 0x1_0000_0000,
        0 <= low < 0x1_0000_0000 && 0 <= high < 0x1_0000_0000 ==> from_halves(low, high) == low
            + high * 0x1_0000_0000,
{
}

/// The lanes of a pair of vectors are those of the first vector followed by those of the second
/// one, each with its low half first.
pub proof fn law_lanes(a: V128, b: V128)
    ensures
        a.lane(0) == a.lane0,
        a.lane(1) == a.lane1,
        pair_lane(a, b, 0) == a.lane0,
        pair_lane(a, b, 1) == a.lane1,
        pair_lane(a, b, 2) == b.lane0,
        pair_lane(a, b, 3) == b.lane1,
        half_lane(a, b, 0) == a.lane0 as int % 0x1_0000_0000,
        half_lane(a, b, 1) == a.lane0 as int / 0x1_0000_0000,
        half_lane(a, b, 2) == a.lane1 as int % 0x1_0000_0000,
        half_lane(a, b, 3) == a.lane1 as int / 0x1_0000_0000,
        half_lane(a, b, 4) == b.lane0 as int % 0x1_0000_0000,
        half_lane(a, b, 5) == b.lane0 as int / 0x1_0000_0000,
        half_lane(a, b, 6) == b.lane1 as int % 0x1_0000_0000,
        half_lane(a, b, 7) == b.lane1 as int / 0x1_0000_0000,
{
}

/// A vector is the image of others under a function where each of its two lanes is the image of
/// theirs.
pub proof fn law_images(
    r: V128,
    a: V128,
    b: V128,
    f: spec_fn(u64) -> u64,
    g: spec_fn(u64, u64) -> u64,
)
    ensures
        r.is_map(a, f) <==> r == (V128 { lane0: f(a.lane0), lane1: f(a.lane1) }),
        r.is_zip(a, b, g) <==> r == (V128 {
            lane0: g(a.lane0, b.lane0),
            lane1: g(a.lane1, b.lane1),
        }),
{
}

} // verus!
