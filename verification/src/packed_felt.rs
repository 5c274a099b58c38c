//! Two field elements side by side, with arithmetic on both at once.
//!
//! The lanes of a [`PackedFelt`] hold any representatives of their elements. Where an operation
//! has to find out whether an unsigned sum or difference left the 64-bit range, it works on lanes
//! that are shifted by `2^63`, on which a signed comparison orders as an unsigned one does on the
//! lanes themselves.

use crate::felt;
use crate::felt::Felt;
use crate::simd;
use crate::simd::{
    i32x4_shuffle, i64x2_add, i64x2_extmul_low_u32x4, i64x2_gt, i64x2_shl, i64x2_shuffle,
    i64x2_sub, u64x2_shr, u64x2_splat, v128_and, v128_andnot, v128_or, v128_xor, V128,
};
use core::ops::{Add, Mul, Neg, Sub};
use vstd::prelude::*;
use vstd::std_specs::convert::FromSpecImpl;
use vstd::std_specs::ops::{AddSpecImpl, MulSpecImpl, NegSpecImpl, SubSpecImpl};

verus! {

/// The number of lanes.
pub const WIDTH: usize = 2;

/// `2^32 - 1`, which `2^64` is congruent to.
pub const EPSILON: u64 = 0xFFFF_FFFF;

/// `2^63`, the bit that holds the sign of a lane.
pub const SIGN_BIT: u64 = 0x8000_0000_0000_0000;

/// The order of the field, shifted by `2^63`.
pub const SHIFTED_FIELD_ORDER: u64 = 0x7FFF_FFFF_0000_0001;

/// Half of one more than the order of the field: the inverse of two.
pub const HALF: u64 = 0x7FFF_FFFF_8000_0001;

// LANES
// ================================================================================================

/// A lane shifted by `2^63`.
pub open spec fn shifted(x: u64) -> u64 {
    if x < SIGN_BIT {
        (x + SIGN_BIT) as u64
    } else {
        (x - SIGN_BIT) as u64
    }
}

/// The canonical representative of the element that a lane represents.
pub open spec fn canonical(x: u64) -> u64 {
    felt::reduced(x as int) as u64
}

/// The sum of two lanes, with what overflows carried back in as `2^32 - 1`.
pub open spec fn carried_sum(x: u64, y: u64) -> u64 {
    if x + y >= 0x1_0000_0000_0000_0000 {
        simd::wrapped_sum(simd::wrapped_sum(x, y), EPSILON)
    } else {
        (x + y) as u64
    }
}

/// The difference of two lanes, with what is borrowed taken off again as `2^32 - 1`.
pub open spec fn borrowed_difference(x: u64, y: u64) -> u64 {
    if x < y {
        simd::wrapped_difference(simd::wrapped_difference(x, y), EPSILON)
    } else {
        (x - y) as u64
    }
}

/// The representative that a lane of a sum holds.
pub open spec fn lane_sum(x: u64, y: u64) -> u64 {
    carried_sum(x, canonical(y))
}

/// The representative that a lane of a difference holds.
pub open spec fn lane_difference(x: u64, y: u64) -> u64 {
    borrowed_difference(x, canonical(y))
}

/// The representative that a lane of a negation holds.
pub open spec fn lane_negation(y: u64) -> u64 {
    (felt::order() - canonical(y)) as u64
}

/// The representative that a 128-bit number is reduced to. It uses that `2^64` is congruent to
/// `2^32 - 1` and `2^96` to `-1`.
pub open spec fn lane_reduction(hi: u64, lo: u64) -> u64 {
    carried_sum(
        borrowed_difference(lo, simd::high32(hi) as u64),
        (simd::low32(hi) * EPSILON) as u64,
    )
}

/// The upper half of the product of two lanes.
pub open spec fn product_high(x: u64, y: u64) -> u64 {
    (x * y / 0x1_0000_0000_0000_0000) as u64
}

/// The lower half of the product of two lanes.
pub open spec fn product_low(x: u64, y: u64) -> u64 {
    (x * y % 0x1_0000_0000_0000_0000) as u64
}

/// The representative that a lane of a product holds.
pub open spec fn lane_product(x: u64, y: u64) -> u64 {
    lane_reduction(product_high(x, y), product_low(x, y))
}

/// The representative that a lane of a half holds.
pub open spec fn lane_half(x: u64) -> u64 {
    if x % 2 == 0 {
        x / 2
    } else {
        (x / 2 + HALF) as u64
    }
}

proof fn lemma_shift(x: u64)
    ensures
        x ^ SIGN_BIT == shifted(x),
        shifted(shifted(x)) == x,
        simd::signed(shifted(x)) == x - SIGN_BIT,
        simd::signed(x) == shifted(x) - SIGN_BIT,
{
    assert(x ^ 0x8000_0000_0000_0000 == (if x < 0x8000_0000_0000_0000 {
        (x + 0x8000_0000_0000_0000) as u64
    } else {
        (x - 0x8000_0000_0000_0000) as u64
    })) by (bit_vector);
}

proof fn lemma_masks()
    ensures
        EPSILON & !u64::MAX == 0,
        EPSILON & !0u64 == EPSILON,
        u64::MAX >> 32u64 == EPSILON,
        0u64 >> 32u64 == 0,
{
    assert(0xFFFF_FFFFu64 & !u64::MAX == 0) by (bit_vector);
    assert(0xFFFF_FFFFu64 & !0u64 == 0xFFFF_FFFF) by (bit_vector);
    assert(u64::MAX >> 32u64 == 0xFFFF_FFFF) by (bit_vector);
    assert(0u64 >> 32u64 == 0) by (bit_vector);
}

proof fn lemma_halves(x: u64)
    ensures
        x >> 32u64 == simd::high32(x),
        x & EPSILON == simd::low32(x),
        (x & EPSILON) << 32u64 == simd::low32(x) * 0x1_0000_0000,
        simd::high32(x) < 0x1_0000_0000,
        0 <= simd::low32(x) < 0x1_0000_0000,
        x == simd::low32(x) + simd::high32(x) * 0x1_0000_0000,
{
    assert(x >> 32u64 == x / 0x1_0000_0000) by (bit_vector);
    assert(x & 0xFFFF_FFFF == x % 0x1_0000_0000) by (bit_vector);
    assert((x & 0xFFFF_FFFF) << 32u64 == (x % 0x1_0000_0000) * 0x1_0000_0000) by (bit_vector);
}

proof fn lemma_or_of_halves(x: u64, y: u64)
    ensures
        (x & EPSILON) | ((y & EPSILON) << 32u64) == simd::low32(x) + simd::low32(y) * 0x1_0000_0000,
{
    assert((x & 0xFFFF_FFFF) | ((y & 0xFFFF_FFFF) << 32u64) == x % 0x1_0000_0000 + (y
        % 0x1_0000_0000) * 0x1_0000_0000) by (bit_vector);
}

/// A lane of a sum represents the sum of the elements.
pub proof fn lemma_lane_sum(x: u64, y: u64)
    ensures
        felt::reduced(lane_sum(x, y) as int) == felt::reduced(x + y),
{
    let c: u64 = canonical(y);
    felt::lemma_reduce_operands(x as int, y as int);
    if x + c >= 0x1_0000_0000_0000_0000 {
        felt::lemma_congruent(lane_sum(x, y) as int, x + c, -1);
    }
}

/// A lane of a difference represents the difference of the elements.
pub proof fn lemma_lane_difference(x: u64, y: u64)
    ensures
        felt::reduced(lane_difference(x, y) as int) == felt::reduced(x - y),
{
    let c: u64 = canonical(y);
    felt::lemma_reduce_operands(x as int, y as int);
    if x < c {
        felt::lemma_congruent(lane_difference(x, y) as int, x - c, 1);
    }
}

/// A lane of a negation represents the negation of the element.
pub proof fn lemma_lane_negation(y: u64)
    ensures
        felt::reduced(lane_negation(y) as int) == felt::reduced(-(y as int)),
{
    felt::lemma_reduce_operands(0, y as int);
    felt::lemma_congruent(lane_negation(y) as int, -(canonical(y) as int), 1);
}

/// A reduced 128-bit number is congruent to it.
pub proof fn lemma_lane_reduction(hi: u64, lo: u64)
    ensures
        felt::reduced(lane_reduction(hi, lo) as int) == felt::reduced(
            hi * 0x1_0000_0000_0000_0000 + lo,
        ),
{
    lemma_halves(hi);
    let h: int = simd::high32(hi);
    let l: int = simd::low32(hi);
    let a: u64 = borrowed_difference(lo, h as u64);
    let t: int = l * EPSILON;
    let ka: int = if lo < h {
        1
    } else {
        0
    };
    let kr: int = if a + t >= 0x1_0000_0000_0000_0000 {
        1
    } else {
        0
    };
    assert(lane_reduction(hi, lo) == lo - h + t + (ka - kr) * felt::order());
    assert(hi * 0x1_0000_0000_0000_0000 + lo == lo - h + t + (h * 0x1_0000_0001 + l)
        * felt::order());
    felt::lemma_congruent(lane_reduction(hi, lo) as int, lo - h + t, ka - kr);
    felt::lemma_congruent(hi * 0x1_0000_0000_0000_0000 + lo, lo - h + t, h * 0x1_0000_0001 + l);
}

/// A lane of a product represents the product of the elements.
pub proof fn lemma_lane_product(x: u64, y: u64)
    ensures
        felt::reduced(lane_product(x, y) as int) == felt::reduced(x * y),
{
    assert(0 <= x * y <= u64::MAX * u64::MAX) by (nonlinear_arith)
        requires
            x <= u64::MAX,
            y <= u64::MAX,
    ;
    lemma_lane_reduction(product_high(x, y), product_low(x, y));
}

/// A lane of a half represents the element that gives the given one when it is doubled.
pub proof fn lemma_lane_half(x: u64)
    ensures
        felt::reduced(2 * lane_half(x)) == felt::reduced(x as int),
{
    if x % 2 != 0 {
        felt::lemma_congruent(2 * lane_half(x), x as int, 1);
    }
}

// SHIFTED ARITHMETIC
// ================================================================================================

/// Shifts both lanes by `2^63`. Shifting twice gives the lanes back.
fn shift(x: V128) -> (r: V128)
    ensures
        r.is_map(x, |a: u64| shifted(a)),
{
    proof {
        lemma_shift(x.lane0);
        lemma_shift(x.lane1);
    }
    v128_xor(x, u64x2_splat(SIGN_BIT))
}

/// Makes shifted lanes canonical: one that stands for the field order or more has `2^32 - 1`
/// added, which takes the order off modulo `2^64`.
fn canonicalize_s(x_s: V128) -> (r: V128)
    ensures
        r.is_map(x_s, |a: u64| shifted(canonical(shifted(a)))),
{
    proof {
        lemma_shift(x_s.lane0);
        lemma_shift(x_s.lane1);
        lemma_masks();
    }
    let mask: V128 = i64x2_gt(u64x2_splat(SHIFTED_FIELD_ORDER), x_s);
    let wrapback_amt: V128 = v128_andnot(u64x2_splat(EPSILON), mask);
    i64x2_add(x_s, wrapback_amt)
}

/// Adds plain lanes to shifted ones. A sum of lanes of which the shifted one is canonical
/// overflows once at most.
fn add_no_double_overflow_64_64s_s(x: V128, y_s: V128) -> (r: V128)
    ensures
        r.is_zip(x, y_s, |a: u64, b: u64| shifted(carried_sum(a, shifted(b)))),
{
    proof {
        lemma_shift(y_s.lane0);
        lemma_shift(y_s.lane1);
        lemma_masks();
    }
    let res_wrapped_s: V128 = i64x2_add(x, y_s);
    let mask: V128 = i64x2_gt(y_s, res_wrapped_s);
    let wrapback_amt: V128 = u64x2_shr(mask, 32);
    i64x2_add(res_wrapped_s, wrapback_amt)
}

/// Adds field elements lane by lane.
fn add(x: V128, y: V128) -> (r: V128)
    ensures
        r.is_zip(x, y, |a: u64, b: u64| lane_sum(a, b)),
{
    proof {
        lemma_shift(y.lane0);
        lemma_shift(y.lane1);
        lemma_shift(canonical(y.lane0));
        lemma_shift(canonical(y.lane1));
        lemma_shift(lane_sum(x.lane0, y.lane0));
        lemma_shift(lane_sum(x.lane1, y.lane1));
    }
    let y_s: V128 = shift(y);
    let res_s: V128 = add_no_double_overflow_64_64s_s(x, canonicalize_s(y_s));
    shift(res_s)
}

/// Subtracts field elements lane by lane.
fn sub(x: V128, y: V128) -> (r: V128)
    ensures
        r.is_zip(x, y, |a: u64, b: u64| lane_difference(a, b)),
{
    proof {
        lemma_shift(x.lane0);
        lemma_shift(x.lane1);
        lemma_shift(y.lane0);
        lemma_shift(y.lane1);
        lemma_shift(canonical(y.lane0));
        lemma_shift(canonical(y.lane1));
        lemma_masks();
    }
    let y_s: V128 = canonicalize_s(shift(y));
    let x_s: V128 = shift(x);
    let mask: V128 = i64x2_gt(y_s, x_s);
    let wrapback_amt: V128 = u64x2_shr(mask, 32);
    let res_wrapped: V128 = i64x2_sub(x_s, y_s);
    i64x2_sub(res_wrapped, wrapback_amt)
}

/// Negates field elements lane by lane.
fn neg(y: V128) -> (r: V128)
    ensures
        r.is_map(y, |a: u64| lane_negation(a)),
{
    proof {
        lemma_shift(y.lane0);
        lemma_shift(y.lane1);
    }
    let y_s: V128 = shift(y);
    i64x2_sub(u64x2_splat(SHIFTED_FIELD_ORDER), canonicalize_s(y_s))
}

// MULTIPLICATION
// ================================================================================================

/// Packs the low halves of the two lanes into the first lane.
fn lo32(a: V128) -> (r: V128)
    ensures
        simd::low32(r.lane0) == simd::low32(a.lane0),
        simd::high32(r.lane0) == simd::low32(a.lane1),
{
    i32x4_shuffle::<0, 2, 0, 0>(a, a)
}

/// Packs the high halves of the two lanes into the first lane.
fn hi32(a: V128) -> (r: V128)
    ensures
        simd::low32(r.lane0) == simd::high32(a.lane0),
        simd::high32(r.lane0) == simd::high32(a.lane1),
{
    i32x4_shuffle::<1, 3, 0, 0>(a, a)
}

/// Multiplies the 32-bit numbers that are packed in the first lanes.
fn mul_u32_lanes(a_packed: V128, b_packed: V128) -> (r: V128)
    ensures
        r.lane0 == simd::low32(a_packed.lane0) * simd::low32(b_packed.lane0),
        r.lane1 == simd::high32(a_packed.lane0) * simd::high32(b_packed.lane0),
{
    i64x2_extmul_low_u32x4(a_packed, b_packed)
}

/// The schoolbook product of two lanes, from the products of their halves.
proof fn lemma_schoolbook(x: u64, y: u64, ll: u64, lh: u64, hl: u64, hh: u64)
    requires
        ll == simd::low32(x) * simd::low32(y),
        lh == simd::low32(x) * simd::high32(y),
        hl == simd::high32(x) * simd::low32(y),
        hh == simd::high32(x) * simd::high32(y),
    ensures
        x * y == ll + (lh + hl) * 0x1_0000_0000 + hh * 0x1_0000_0000_0000_0000,
        ll <= 0xFFFF_FFFF * 0xFFFF_FFFF,
        lh <= 0xFFFF_FFFF * 0xFFFF_FFFF,
        hl <= 0xFFFF_FFFF * 0xFFFF_FFFF,
        hh <= 0xFFFF_FFFF * 0xFFFF_FFFF,
{
    lemma_halves(x);
    lemma_halves(y);
    let xl: int = simd::low32(x);
    let xh: int = simd::high32(x);
    let yl: int = simd::low32(y);
    let yh: int = simd::high32(y);
    assert((xl + xh * 0x1_0000_0000) * (yl + yh * 0x1_0000_0000) == xl * yl + (xl * yh + xh * yl)
        * 0x1_0000_0000 + (xh * yh) * 0x1_0000_0000_0000_0000) by (nonlinear_arith);
    assert(xl * yl <= 0xFFFF_FFFF * 0xFFFF_FFFF && xl * yh <= 0xFFFF_FFFF * 0xFFFF_FFFF && xh * yl
        <= 0xFFFF_FFFF * 0xFFFF_FFFF && xh * yh <= 0xFFFF_FFFF * 0xFFFF_FFFF) by (nonlinear_arith)
        requires
            0 <= xl <= 0xFFFF_FFFF,
            0 <= xh <= 0xFFFF_FFFF,
            0 <= yl <= 0xFFFF_FFFF,
            0 <= yh <= 0xFFFF_FFFF,
    ;
}

/// The 128-bit products of the lanes, as `(hi, lo)`.
fn mul64_64(x: V128, y: V128) -> (r: (V128, V128))
    ensures
        r.0.is_zip(x, y, |a: u64, b: u64| product_high(a, b)),
        r.1.is_zip(x, y, |a: u64, b: u64| product_low(a, b)),
        forall|i: int|
            #![trigger r.0.lane(i)]
            r.0.lane(i) * 0x1_0000_0000_0000_0000 + r.1.lane(i) == x.lane(i) * y.lane(i),
{
    let x_lo: V128 = lo32(x);
    let x_hi: V128 = hi32(x);
    let y_lo: V128 = lo32(y);
    let y_hi: V128 = hi32(y);

    let ll: V128 = mul_u32_lanes(x_lo, y_lo);
    let lh: V128 = mul_u32_lanes(x_lo, y_hi);
    let hl: V128 = mul_u32_lanes(x_hi, y_lo);
    let hh: V128 = mul_u32_lanes(x_hi, y_hi);
    proof {
        lemma_schoolbook(x.lane0, y.lane0, ll.lane0, lh.lane0, hl.lane0, hh.lane0);
        lemma_schoolbook(x.lane1, y.lane1, ll.lane1, lh.lane1, hl.lane1, hh.lane1);
        lemma_halves(ll.lane0);
        lemma_halves(ll.lane1);
    }

    let ll_hi: V128 = u64x2_shr(ll, 32);
    let t0: V128 = i64x2_add(hl, ll_hi);
    proof {
        lemma_halves(t0.lane0);
        lemma_halves(t0.lane1);
    }
    let t0_lo: V128 = v128_and(t0, u64x2_splat(EPSILON));
    let t0_hi: V128 = u64x2_shr(t0, 32);
    let t1: V128 = i64x2_add(lh, t0_lo);
    proof {
        lemma_halves(t1.lane0);
        lemma_halves(t1.lane1);
    }
    let t2: V128 = i64x2_add(hh, t0_hi);
    let t1_hi: V128 = u64x2_shr(t1, 32);
    let res_hi: V128 = i64x2_add(t2, t1_hi);

    let ll_lo32: V128 = v128_and(ll, u64x2_splat(EPSILON));
    let t1_lo32: V128 = v128_and(t1, u64x2_splat(EPSILON));
    let t1_shifted: V128 = i64x2_shl(t1_lo32, 32);
    let res_lo: V128 = v128_or(ll_lo32, t1_shifted);
    proof {
        lemma_or_of_halves(ll.lane0, t1.lane0);
        lemma_or_of_halves(ll.lane1, t1.lane1);
        lemma_product_halves(x.lane0, y.lane0, res_hi.lane0, res_lo.lane0);
        lemma_product_halves(x.lane1, y.lane1, res_hi.lane1, res_lo.lane1);
    }

    (res_hi, res_lo)
}

/// A product that is written as two lanes is made of its upper and its lower half.
proof fn lemma_product_halves(x: u64, y: u64, hi: u64, lo: u64)
    requires
        x * y == hi * 0x1_0000_0000_0000_0000 + lo,
    ensures
        hi == product_high(x, y),
        lo == product_low(x, y),
{
}

/// Adds plain lanes that are small, such as the product of two halves, to shifted ones.
fn add_small_64s_64_s(x_s: V128, y: V128) -> (r: V128)
    ensures
        r.is_zip(x_s, y, |a: u64, b: u64| shifted(carried_sum(shifted(a), b))),
{
    proof {
        lemma_shift(x_s.lane0);
        lemma_shift(x_s.lane1);
        lemma_masks();
    }
    let res_wrapped_s: V128 = i64x2_add(x_s, y);
    let mask: V128 = i64x2_gt(x_s, res_wrapped_s);
    let wrapback_amt: V128 = u64x2_shr(mask, 32);
    i64x2_add(res_wrapped_s, wrapback_amt)
}

/// Subtracts plain lanes that are small from shifted ones.
fn sub_small_64s_64_s(x_s: V128, y: V128) -> (r: V128)
    ensures
        r.is_zip(x_s, y, |a: u64, b: u64| shifted(borrowed_difference(shifted(a), b))),
{
    proof {
        lemma_shift(x_s.lane0);
        lemma_shift(x_s.lane1);
        lemma_masks();
    }
    let res_wrapped_s: V128 = i64x2_sub(x_s, y);
    let mask: V128 = i64x2_gt(res_wrapped_s, x_s);
    let wrapback_amt: V128 = u64x2_shr(mask, 32);
    i64x2_sub(res_wrapped_s, wrapback_amt)
}

/// Reduces the 128-bit numbers `hi * 2^64 + lo` modulo the order of the field. The results fit in
/// their lanes and need not be canonical.
fn reduce128(hi: V128, lo: V128) -> (r: V128)
    ensures
        r.is_zip(hi, lo, |a: u64, b: u64| lane_reduction(a, b)),
{
    proof {
        lemma_halves(hi.lane0);
        lemma_halves(hi.lane1);
        lemma_shift(lo.lane0);
        lemma_shift(lo.lane1);
        lemma_shift(borrowed_difference(lo.lane0, simd::high32(hi.lane0) as u64));
        lemma_shift(borrowed_difference(lo.lane1, simd::high32(hi.lane1) as u64));
        lemma_shift(lane_reduction(hi.lane0, lo.lane0));
        lemma_shift(lane_reduction(hi.lane1, lo.lane1));
    }
    let lo_s: V128 = shift(lo);
    let hi_hi: V128 = u64x2_shr(hi, 32);
    let lo1_s: V128 = sub_small_64s_64_s(lo_s, hi_hi);

    let hi_lo32: V128 = v128_and(hi, u64x2_splat(EPSILON));
    let hi_lo32_shifted: V128 = i64x2_shl(hi_lo32, 32);
    let t1: V128 = i64x2_sub(hi_lo32_shifted, hi_lo32);

    let lo2_s: V128 = add_small_64s_64_s(lo1_s, t1);
    shift(lo2_s)
}

/// Multiplies field elements lane by lane.
fn mul(x: V128, y: V128) -> (r: V128)
    ensures
        r.is_zip(x, y, |a: u64, b: u64| lane_product(a, b)),
{
    let (hi, lo) = mul64_64(x, y);
    reduce128(hi, lo)
}

/// Halves field elements lane by lane.
fn halve(input: V128) -> (r: V128)
    ensures
        r.is_map(input, |a: u64| lane_half(a)),
{
    proof {
        lemma_half_lane(input.lane0);
        lemma_half_lane(input.lane1);
    }
    let one: V128 = u64x2_splat(1);
    let zero: V128 = u64x2_splat(0);
    let half_v: V128 = u64x2_splat(HALF);
    let least_bit: V128 = v128_and(input, one);
    let t: V128 = u64x2_shr(input, 1);
    let neg_least_bit: V128 = i64x2_sub(zero, least_bit);
    let maybe_half: V128 = v128_and(half_v, neg_least_bit);
    i64x2_add(t, maybe_half)
}

proof fn lemma_half_lane(x: u64)
    ensures
        x & 1 == x % 2,
        x >> 1u64 == x / 2,
        HALF & 0 == 0,
        HALF & u64::MAX == HALF,
{
    assert(x & 1 == x % 2) by (bit_vector);
    assert(x >> 1u64 == x / 2) by (bit_vector);
    assert(0x7FFF_FFFF_8000_0001u64 & 0 == 0) by (bit_vector);
    assert(0x7FFF_FFFF_8000_0001u64 & u64::MAX == 0x7FFF_FFFF_8000_0001) by (bit_vector);
}

/// Squares field elements lane by lane.
fn square(x: V128) -> (r: V128)
    ensures
        r.is_map(x, |a: u64| lane_product(a, a)),
{
    self::mul(x, x)
}

/// Interleaves the lanes of two vectors: `[a0, a1]` and `[b0, b1]` give `[a0, b0]` and `[a1, b1]`.
fn interleave_u64(v0: V128, v1: V128) -> (r: (V128, V128))
    ensures
        r.0 == (V128 { lane0: v0.lane0, lane1: v1.lane0 }),
        r.1 == (V128 { lane0: v0.lane1, lane1: v1.lane1 }),
{
    let r0: V128 = i64x2_shuffle::<0, 2>(v0, v1);
    let r1: V128 = i64x2_shuffle::<1, 3>(v0, v1);
    (r0, r1)
}

// PACKED FIELD ELEMENTS
// ================================================================================================

/// Two field elements that are computed with at once.
#[derive(Clone, Copy, Debug, Default, PartialEq, Eq)]
#[must_use]
pub struct PackedFelt(pub [Felt; 2]);

impl View for PackedFelt {
    type V = Seq<int>;

    /// The field elements in the two lanes.
    open spec fn view(&self) -> Seq<int> {
        seq![self.0[0]@, self.0[1]@]
    }
}

impl PackedFelt {
    /// The vector of the representatives that the lanes hold.
    pub open spec fn vector(self) -> V128 {
        V128 { lane0: self.0[0].value, lane1: self.0[1].value }
    }

    /// The packed elements whose lanes hold the lanes of a vector.
    pub open spec fn of_vector(v: V128) -> PackedFelt {
        PackedFelt([Felt { value: v.lane0 }, Felt { value: v.lane1 }])
    }

    /// Packed elements are what their lanes hold.
    pub proof fn lemma_of_vector(self, v: V128)
        ensures
            Self::of_vector(v).vector() == v,
            self.vector() == v ==> self == Self::of_vector(v),
    {
        if self.vector() == v {
            assert(self.0 =~= Self::of_vector(v).0);
        }
    }

    /// The lanes as a vector.
    fn to_vector(self) -> (r: V128)
        ensures
            r == self.vector(),
    {
        V128 { lane0: self.0[0].value, lane1: self.0[1].value }
    }

    /// The packed elements whose lanes are those of the vector.
    fn from_vector(vector: V128) -> (r: PackedFelt)
        ensures
            r == Self::of_vector(vector),
            r.vector() == vector,
    {
        PackedFelt([Felt { value: vector.lane0 }, Felt { value: vector.lane1 }])
    }

    /// The same element in both lanes.
    pub fn broadcast(value: Felt) -> (r: PackedFelt)
        ensures
            r.0@ == seq![value, value],
            r@ == seq![value@, value@],
            r == Self::of_vector(V128 { lane0: value.value, lane1: value.value }),
    {
        PackedFelt([value, value])
    }

    /// The elements in the lanes.
    pub fn as_array(&self) -> (r: &[Felt; 2])
        ensures
            *r == self.0,
    {
        &self.0
    }

    /// The elements in the lanes, as a slice.
    pub fn as_slice(&self) -> (r: &[Felt])
        ensures
            r@ == self.0@,
    {
        self.0.as_slice()
    }

    /// The packed elements whose lanes are the two elements of a slice.
    pub fn from_slice(slice: &[Felt]) -> (r: PackedFelt)
        requires
            slice@.len() == WIDTH,
        ensures
            r.0@ == slice@,
    {
        let r: PackedFelt = PackedFelt([slice[0], slice[1]]);
        assert(r.0@ =~= slice@);
        r
    }

    /// The packed elements with zero in both lanes.
    pub fn zero() -> (r: PackedFelt)
        ensures
            r.0@ == seq![felt::felt(0), felt::felt(0)],
            r@ == seq![0int, 0int],
    {
        Self::broadcast(Felt::zero())
    }

    /// The packed elements with one in both lanes.
    pub fn one() -> (r: PackedFelt)
        ensures
            r.0@ == seq![felt::felt(1), felt::felt(1)],
            r@ == seq![1int, 1int],
    {
        Self::broadcast(Felt::one())
    }

    /// The packed elements with two in both lanes.
    pub fn two() -> (r: PackedFelt)
        ensures
            r.0@ == seq![felt::felt(2), felt::felt(2)],
            r@ == seq![2int, 2int],
    {
        Self::broadcast(Felt::two())
    }

    /// The packed elements with minus one in both lanes.
    pub fn neg_one() -> (r: PackedFelt)
        ensures
            r.0@ == seq![felt::felt(-1), felt::felt(-1)],
            r@ == seq![felt::order() - 1, felt::order() - 1],
    {
        Self::broadcast(Felt::neg_one())
    }

    /// An element of the prime subfield in both lanes.
    pub fn from_prime_subfield(f: Felt) -> (r: PackedFelt)
        ensures
            r.0@ == seq![f, f],
    {
        Self::broadcast(f)
    }

    /// The packed elements that give `self` when they are added to themselves.
    pub fn halve(&self) -> (r: PackedFelt)
        ensures
            r.vector().is_map(self.vector(), |a: u64| lane_half(a)),
            forall|i: int|
                0 <= i < WIDTH ==> felt::reduced(#[trigger] r@[i] + r@[i]) == self@[i],
    {
        proof {
            lemma_half_element(self.0[0].value);
            lemma_half_element(self.0[1].value);
        }
        Self::from_vector(halve(self.to_vector()))
    }

    /// The square of each element.
    pub fn square(&self) -> (r: PackedFelt)
        ensures
            r.vector().is_map(self.vector(), |a: u64| lane_product(a, a)),
            forall|i: int| 0 <= i < WIDTH ==> #[trigger] r@[i] == felt::reduced(self@[i] * self@[i]),
    {
        proof {
            lemma_lane_product(self.0[0].value, self.0[0].value);
            lemma_lane_product(self.0[1].value, self.0[1].value);
            felt::lemma_reduce_operands(self.0[0].value as int, self.0[0].value as int);
            felt::lemma_reduce_operands(self.0[1].value as int, self.0[1].value as int);
        }
        Self::from_vector(square(self.to_vector()))
    }

    /// A vector of `len` packed zeros.
    pub fn zero_vec(len: usize) -> (r: Vec<PackedFelt>)
        ensures
            r@.len() == len,
            forall|i: int| 0 <= i < len ==> (#[trigger] r@[i])@ == seq![0int, 0int],
    {
        let mut r: Vec<PackedFelt> = Vec::new();
        for i in 0..len
            invariant
                r@.len() == i,
                forall|j: int| 0 <= j < i ==> (#[trigger] r@[j])@ == seq![0int, 0int],
        {
            r.push(Self::zero());
        }
        r
    }

    /// Interleaves blocks of `block_len` lanes of two packed values.
    ///
    /// With blocks of one lane, `[a0, a1]` and `[b0, b1]` give `[a0, b0]` and `[a1, b1]`. A block
    /// of two lanes is a whole value, so there both values stay as they are.
    pub fn interleave(&self, other: PackedFelt, block_len: usize) -> (r: (PackedFelt, PackedFelt))
        requires
            block_len == 1 || block_len == 2,
        ensures
            block_len == 1 ==> r == interleaved(*self, other),
            block_len == 1 ==> r.0.0[0] == self.0[0] && r.0.0[1] == other.0[0],
            block_len == 1 ==> r.1.0[0] == self.0[1] && r.1.0[1] == other.0[1],
            block_len == 2 ==> r == (*self, other),
    {
        let (v0, v1) = (self.to_vector(), other.to_vector());
        let (res0, res1) = if block_len == 1 {
            interleave_u64(v0, v1)
        } else {
            (v0, v1)
        };
        let r: (PackedFelt, PackedFelt) = (Self::from_vector(res0), Self::from_vector(res1));
        proof {
            self.lemma_of_vector(self.vector());
            other.lemma_of_vector(other.vector());
            if block_len == 1 {
                assert(r.0.0 =~= interleaved(*self, other).0.0);
                assert(r.1.0 =~= interleaved(*self, other).1.0);
            }
        }
        r
    }
}

/// Two packed values with their lanes interleaved: the first lanes of both, and the second lanes.
pub open spec fn interleaved(a: PackedFelt, b: PackedFelt) -> (PackedFelt, PackedFelt) {
    (PackedFelt([a.0[0], b.0[0]]), PackedFelt([a.0[1], b.0[1]]))
}

/// Interleaving two packed values puts their first lanes into the first result and their second
/// lanes into the second one, those of the first value in front.
pub proof fn law_interleaved(a: PackedFelt, b: PackedFelt)
    ensures
        interleaved(a, b).0.0[0] == a.0[0],
        interleaved(a, b).0.0[1] == b.0[0],
        interleaved(a, b).1.0[0] == a.0[1],
        interleaved(a, b).1.0[1] == b.0[1],
        interleaved(a, b).0@ == seq![a@[0], b@[0]],
        interleaved(a, b).1@ == seq![a@[1], b@[1]],
{
}

/// Interleaving twice gives back what it was started with.
pub proof fn law_interleave_twice(a: PackedFelt, b: PackedFelt)
    ensures
        ({
            let (c, d): (PackedFelt, PackedFelt) = interleaved(a, b);
            interleaved(c, d) == (a, b)
        }),
{
    let (c, d): (PackedFelt, PackedFelt) = interleaved(a, b);
    assert(interleaved(c, d).0.0 =~= a.0);
    assert(interleaved(c, d).1.0 =~= b.0);
}

proof fn lemma_half_element(x: u64)
    ensures
        felt::reduced(
            felt::reduced(lane_half(x) as int) + felt::reduced(lane_half(x) as int),
        ) == felt::reduced(x as int),
{
    lemma_lane_half(x);
    felt::lemma_reduce_operands(lane_half(x) as int, lane_half(x) as int);
}

impl FromSpecImpl<Felt> for PackedFelt {
    open spec fn obeys_from_spec() -> bool {
        true
    }

    open spec fn from_spec(x: Felt) -> PackedFelt {
        PackedFelt::of_vector(V128 { lane0: x.value, lane1: x.value })
    }
}

impl From<Felt> for PackedFelt {
    /// The same element in both lanes.
    fn from(x: Felt) -> (r: PackedFelt)
        ensures
            r@ == seq![x@, x@],
    {
        Self::broadcast(x)
    }
}

impl AddSpecImpl for PackedFelt {
    open spec fn obeys_add_spec() -> bool {
        true
    }

    open spec fn add_req(self, rhs: PackedFelt) -> bool {
        true
    }

    open spec fn add_spec(self, rhs: PackedFelt) -> PackedFelt {
        PackedFelt::of_vector(
            V128 {
                lane0: lane_sum(self.0[0].value, rhs.0[0].value),
                lane1: lane_sum(self.0[1].value, rhs.0[1].value),
            },
        )
    }
}

impl Add for PackedFelt {
    type Output = PackedFelt;

    /// The sums of the elements in each lane.
    fn add(self, rhs: PackedFelt) -> (r: PackedFelt)
        ensures
            forall|i: int| 0 <= i < WIDTH ==> #[trigger] r@[i] == felt::reduced(self@[i] + rhs@[i]),
    {
        proof {
            lemma_lane_sum(self.0[0].value, rhs.0[0].value);
            lemma_lane_sum(self.0[1].value, rhs.0[1].value);
            felt::lemma_reduce_operands(self.0[0].value as int, rhs.0[0].value as int);
            felt::lemma_reduce_operands(self.0[1].value as int, rhs.0[1].value as int);
        }
        Self::from_vector(self::add(self.to_vector(), rhs.to_vector()))
    }
}

impl SubSpecImpl for PackedFelt {
    open spec fn obeys_sub_spec() -> bool {
        true
    }

    open spec fn sub_req(self, rhs: PackedFelt) -> bool {
        true
    }

    open spec fn sub_spec(self, rhs: PackedFelt) -> PackedFelt {
        PackedFelt::of_vector(
            V128 {
                lane0: lane_difference(self.0[0].value, rhs.0[0].value),
                lane1: lane_difference(self.0[1].value, rhs.0[1].value),
            },
        )
    }
}

impl Sub for PackedFelt {
    type Output = PackedFelt;

    /// The differences of the elements in each lane.
    fn sub(self, rhs: PackedFelt) -> (r: PackedFelt)
        ensures
            forall|i: int| 0 <= i < WIDTH ==> #[trigger] r@[i] == felt::reduced(self@[i] - rhs@[i]),
    {
        proof {
            lemma_lane_difference(self.0[0].value, rhs.0[0].value);
            lemma_lane_difference(self.0[1].value, rhs.0[1].value);
            felt::lemma_reduce_operands(self.0[0].value as int, rhs.0[0].value as int);
            felt::lemma_reduce_operands(self.0[1].value as int, rhs.0[1].value as int);
        }
        Self::from_vector(self::sub(self.to_vector(), rhs.to_vector()))
    }
}

impl NegSpecImpl for PackedFelt {
    open spec fn obeys_neg_spec() -> bool {
        true
    }

    open spec fn neg_req(self) -> bool {
        true
    }

    open spec fn neg_spec(self) -> PackedFelt {
        PackedFelt::of_vector(
            V128 {
                lane0: lane_negation(self.0[0].value),
                lane1: lane_negation(self.0[1].value),
            },
        )
    }
}

impl Neg for PackedFelt {
    type Output = PackedFelt;

    /// The negations of the elements in each lane.
    fn neg(self) -> (r: PackedFelt)
        ensures
            forall|i: int| 0 <= i < WIDTH ==> #[trigger] r@[i] == felt::reduced(-self@[i]),
    {
        proof {
            lemma_lane_negation(self.0[0].value);
            lemma_lane_negation(self.0[1].value);
            felt::lemma_reduce_operands(0, self.0[0].value as int);
            felt::lemma_reduce_operands(0, self.0[1].value as int);
        }
        Self::from_vector(neg(self.to_vector()))
    }
}

impl MulSpecImpl for PackedFelt {
    open spec fn obeys_mul_spec() -> bool {
        true
    }

    open spec fn mul_req(self, rhs: PackedFelt) -> bool {
        true
    }

    open spec fn mul_spec(self, rhs: PackedFelt) -> PackedFelt {
        PackedFelt::of_vector(
            V128 {
                lane0: lane_product(self.0[0].value, rhs.0[0].value),
                lane1: lane_product(self.0[1].value, rhs.0[1].value),
            },
        )
    }
}

impl Mul for PackedFelt {
    type Output = PackedFelt;

    /// The products of the elements in each lane.
    fn mul(self, rhs: PackedFelt) -> (r: PackedFelt)
        ensures
            forall|i: int| 0 <= i < WIDTH ==> #[trigger] r@[i] == felt::reduced(self@[i] * rhs@[i]),
    {
        proof {
            lemma_lane_product(self.0[0].value, rhs.0[0].value);
            lemma_lane_product(self.0[1].value, rhs.0[1].value);
            felt::lemma_reduce_operands(self.0[0].value as int, rhs.0[0].value as int);
            felt::lemma_reduce_operands(self.0[1].value as int, rhs.0[1].value as int);
        }
        Self::from_vector(self::mul(self.to_vector(), rhs.to_vector()))
    }
}

// LAWS
// ================================================================================================

/// The lanes of packed elements are the two elements that they are made of, and the vector of their
/// representatives has the same lanes.
pub proof fn law_lanes(p: PackedFelt, v: V128)
    ensures
        p@.len() == 2,
        p@[0] == p.0[0].value as int % 0xFFFF_FFFF_0000_0001,
        p@[1] == p.0[1].value as int % 0xFFFF_FFFF_0000_0001,
        p.vector().lane0 == p.0[0].value,
        p.vector().lane1 == p.0[1].value,
        PackedFelt::of_vector(v).0[0].value == v.lane0,
        PackedFelt::of_vector(v).0[1].value == v.lane1,
{
}

/// A lane is shifted by `2^63` modulo `2^64`, and made canonical by taking its remainder.
pub proof fn law_shifted(x: u64)
    ensures
        shifted(x) as int == (x + 0x8000_0000_0000_0000) % 0x1_0000_0000_0000_0000,
        canonical(x) as int == x as int % 0xFFFF_FFFF_0000_0001,
{
}

/// A lane of a sum, a difference or a negation is the one of the representatives of the lanes, the
/// second one made canonical, with the order of the field taken off or added where the result would
/// leave the 64-bit range.
pub proof fn law_lane_sums(x: u64, y: u64)
    ensures
        ({
            let order: int = 0xFFFF_FFFF_0000_0001;
            let c: int = y as int % order;
            &&& x + c < 0x1_0000_0000_0000_0000 ==> lane_sum(x, y) == x + c
            &&& x + c >= 0x1_0000_0000_0000_0000 ==> lane_sum(x, y) == x + c - order
            &&& x >= c ==> lane_difference(x, y) == x - c
            &&& x < c ==> lane_difference(x, y) == x - c + order
            &&& lane_negation(y) == order - c
        }),
{
}

/// What overflows is carried back in as `2^32 - 1`, and what is borrowed is taken off as `2^32 - 1`.
pub proof fn law_carries(x: u64, y: u64)
    ensures
        x + y < 0x1_0000_0000_0000_0000 ==> carried_sum(x, y) == x + y,
        x + y >= 0x1_0000_0000_0000_0000 ==> carried_sum(x, y) as int == (x + y + 0xFFFF_FFFF)
            % 0x1_0000_0000_0000_0000,
        x >= y ==> borrowed_difference(x, y) == x - y,
        x < y ==> borrowed_difference(x, y) as int == (x - y - 0xFFFF_FFFF)
            % 0x1_0000_0000_0000_0000,
{
}

/// The two halves of a product make up the product, and what it is reduced to differs from it by a
/// multiple of the order of the field, as twice a lane of a half does from the lane.
pub proof fn law_lane_products(x: u64, y: u64, hi: u64, lo: u64)
    ensures
        product_high(x, y) * 0x1_0000_0000_0000_0000 + product_low(x, y) == x * y,
        lane_reduction(hi, lo) as int % 0xFFFF_FFFF_0000_0001 == (hi * 0x1_0000_0000_0000_0000 + lo)
            % 0xFFFF_FFFF_0000_0001,
        lane_product(x, y) as int % 0xFFFF_FFFF_0000_0001 == (x * y) % 0xFFFF_FFFF_0000_0001,
        lane_product(x, y) == lane_reduction(product_high(x, y), product_low(x, y)),
        2 * lane_half(x) == if x % 2 == 0 {
            x as int
        } else {
            x + 0xFFFF_FFFF_0000_0001
        },
{
    assert(0 <= x * y <= u64::MAX * u64::MAX) by (nonlinear_arith)
        requires
            x <= u64::MAX,
            y <= u64::MAX,
    ;
    lemma_lane_reduction(hi, lo);
    lemma_lane_product(x, y);
}

/// A 128-bit number is reduced by taking off its highest quarter and adding `2^32 - 1` times the
/// quarter below, with the order of the field added or taken off where a result would leave the
/// 64-bit range.
pub proof fn law_lane_reduction(hi: u64, lo: u64)
    ensures
        ({
            let order: int = 0xFFFF_FFFF_0000_0001;
            let top: int = hi as int / 0x1_0000_0000;
            let low: int = lo - top + if lo < top {
                order
            } else {
                0
            };
            let sum: int = low + (hi as int % 0x1_0000_0000) * 0xFFFF_FFFF;
            lane_reduction(hi, lo) == sum - if sum < 0x1_0000_0000_0000_0000 {
                0
            } else {
                order
            }
        }),
{
}

} // verus!
