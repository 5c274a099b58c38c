//! Cosets of two-adic groups in bit-reversed order.

use crate::barycentric;
use crate::felt;
use crate::felt::Felt;
use crate::quad;
use crate::quad::Quad;
use vstd::arithmetic::power2::pow2;
use vstd::prelude::*;

verus! {

// BIT REVERSAL
// ================================================================================================

/// The lowest `bits` bits of a number in reverse order.
pub open spec fn reversed(x: nat, bits: nat) -> nat
    decreases bits,
{
    if bits == 0 {
        0
    } else {
        (x % 2) * pow2((bits - 1) as nat) + reversed(x / 2, (bits - 1) as nat)
    }
}

/// Whether a number is a power of two.
pub open spec fn is_power_of_two(n: nat) -> bool {
    exists|k: nat| n == #[trigger] pow2(k)
}

/// The base-two logarithm of a power of two, from `p3_util::log2_strict_usize`.
///
/// It claims that two to the power of the result is the argument. The outside function panics on
/// anything but a power of two.
pub assume_specification[ p3_util::log2_strict_usize ](n: usize) -> (r: usize)
    requires
        is_power_of_two(n as nat),
    ensures
        n == pow2(r as nat),
;

/// The lowest bits of a number in reverse order, from `p3_util::reverse_bits_len`.
///
/// It claims what its name says. The outside function cannot reverse more bits than a number has,
/// and to reverse no bits works on zero alone.
pub assume_specification[ p3_util::reverse_bits_len ](x: usize, bit_len: usize) -> (r: usize)
    requires
        bit_len <= usize::BITS,
        bit_len == 0 ==> x == 0,
    ensures
        r == reversed(x as nat, bit_len as nat),
;

/// Reversed bits fit in as many bits.
pub proof fn lemma_reversed_bound(x: nat, bits: nat)
    ensures
        reversed(x, bits) < pow2(bits),
    decreases bits,
{
    vstd::arithmetic::power2::lemma2_to64();
    if bits > 0 {
        let p: nat = pow2((bits - 1) as nat);
        vstd::arithmetic::power2::lemma_pow2_unfold(bits);
        lemma_reversed_bound(x / 2, (bits - 1) as nat);
        assert((x % 2) * p <= p) by (nonlinear_arith);
    }
}

/// The highest bit becomes the lowest one.
proof fn lemma_reversed_high(high: nat, low: nat, bits: nat)
    requires
        bits > 0,
        high < 2,
        low < pow2((bits - 1) as nat),
    ensures
        reversed(high * pow2((bits - 1) as nat) + low, bits) == 2 * reversed(
            low,
            (bits - 1) as nat,
        ) + high,
    decreases bits,
{
    vstd::arithmetic::power2::lemma2_to64();
    let m: nat = (bits - 1) as nat;
    let x: nat = high * pow2(m) + low;
    if m == 0 {
        assert(high * 1 == high);
        assert(reversed(x / 2, 0) == 0);
    } else {
        let p: nat = pow2((m - 1) as nat);
        vstd::arithmetic::power2::lemma_pow2_unfold(m);
        assert(high * (2 * p) == 2 * (high * p)) by (nonlinear_arith);
        assert(x / 2 == high * p + low / 2);
        lemma_reversed_high(high, low / 2, m);
        assert((x % 2) * (2 * p) == 2 * ((x % 2) * p)) by (nonlinear_arith);
    }
}

/// Reversing bits twice changes nothing.
pub proof fn lemma_reversed_twice(x: nat, bits: nat)
    requires
        x < pow2(bits),
    ensures
        reversed(reversed(x, bits), bits) == x,
    decreases bits,
{
    vstd::arithmetic::power2::lemma2_to64();
    if bits > 0 {
        let m: nat = (bits - 1) as nat;
        vstd::arithmetic::power2::lemma_pow2_unfold(bits);
        lemma_reversed_bound(x / 2, m);
        lemma_reversed_high(x % 2, reversed(x / 2, m), bits);
        lemma_reversed_twice(x / 2, m);
    }
}

/// A number that leaves the highest bits at zero is reversed into a multiple.
proof fn lemma_reversed_prefix(x: nat, bits: nat, zeros: nat)
    requires
        zeros <= bits,
        x < pow2((bits - zeros) as nat),
    ensures
        reversed(x, bits) == pow2(zeros) * reversed(x, (bits - zeros) as nat),
    decreases bits,
{
    vstd::arithmetic::power2::lemma2_to64();
    let p: nat = pow2(zeros);
    if bits == 0 {
        assert(p * 0 == 0) by (nonlinear_arith);
    } else if bits == zeros {
        lemma_reversed_zero(bits);
        assert(p * 0 == 0) by (nonlinear_arith);
    } else {
        let m: nat = (bits - 1) as nat;
        let n: nat = (bits - zeros - 1) as nat;
        vstd::arithmetic::power2::lemma_pow2_unfold((bits - zeros) as nat);
        lemma_reversed_prefix(x / 2, m, zeros);
        vstd::arithmetic::power2::lemma_pow2_adds(zeros, n);
        let q: nat = pow2(n);
        let r: nat = reversed(x / 2, n);
        assert((x % 2) * (p * q) + p * r == p * ((x % 2) * q + r)) by (nonlinear_arith);
    }
}

/// Zero is its own reverse.
pub proof fn lemma_reversed_zero(bits: nat)
    ensures
        reversed(0, bits) == 0,
    decreases bits,
{
    if bits > 0 {
        lemma_reversed_zero((bits - 1) as nat);
        let p: nat = pow2((bits - 1) as nat);
        assert(0 * p == 0);
    }
}

// POWERS
// ================================================================================================

/// An element to the given power.
pub open spec fn power(a: Quad, n: nat) -> Quad
    decreases n,
{
    if n == 0 {
        quad::base(1)
    } else {
        a.times(power(a, (n - 1) as nat))
    }
}

/// Powers are elements of the extension.
pub proof fn lemma_power_wf(a: Quad, n: nat)
    ensures
        power(a, n).wf(),
{
    quad::lemma_base(1, 1);
}

/// Exponents add up.
pub proof fn lemma_power_adds(a: Quad, m: nat, n: nat)
    requires
        a.wf(),
    ensures
        power(a, m + n) == power(a, m).times(power(a, n)),
    decreases m,
{
    lemma_power_wf(a, n);
    lemma_power_wf(a, m);
    if m == 0 {
        quad::lemma_mul(power(a, n), a);
    } else {
        lemma_power_adds(a, (m - 1) as nat, n);
        lemma_power_wf(a, (m - 1) as nat);
        quad::lemma_mul_assoc(a, power(a, (m - 1) as nat), power(a, n));
    }
}

/// Squaring `n` times raises to the power `2^n`.
pub proof fn lemma_power_squared(a: Quad, n: nat)
    requires
        a.wf(),
    ensures
        power(a, pow2(n)) == quad::squared(a, n),
    decreases n,
{
    vstd::arithmetic::power2::lemma2_to64();
    if n == 0 {
        quad::lemma_mul(a, a);
        assert(power(a, 0) == quad::base(1));
    } else {
        let m: nat = (n - 1) as nat;
        vstd::arithmetic::power2::lemma_pow2_unfold(n);
        lemma_power_squared(a, m);
        lemma_power_adds(a, pow2(m), pow2(m));
        quad::lemma_squared_step(a, m);
    }
}

/// Exponents multiply.
pub proof fn lemma_power_multiplies(a: Quad, m: nat, n: nat)
    requires
        a.wf(),
    ensures
        power(a, m * n) == power(power(a, m), n),
    decreases n,
{
    if n == 0 {
        assert(m * 0 == 0);
    } else {
        let k: nat = (n - 1) as nat;
        lemma_power_multiplies(a, m, k);
        assert(m * n == m + m * k) by (nonlinear_arith)
            requires
                n == k + 1,
        ;
        lemma_power_adds(a, m, m * k);
    }
}

/// The square of a power is the power of the square.
proof fn lemma_power_of_square(a: Quad, n: nat)
    requires
        a.wf(),
    ensures
        power(a.times(a), n) == power(a, n).times(power(a, n)),
    decreases n,
{
    lemma_power_wf(a, n);
    if n == 0 {
        quad::lemma_base(1, 1);
    } else {
        let m: nat = (n - 1) as nat;
        lemma_power_wf(a, m);
        lemma_power_of_square(a, m);
        barycentric::lemma_mul_exchange(a, a, power(a, m), power(a, m));
    }
}

// COSETS
// ================================================================================================

/// Whether `w` generates a group of order `2^bits`.
pub open spec fn is_root(w: Quad, bits: nat) -> bool {
    &&& w.wf()
    &&& bits == 0 ==> w == quad::base(1)
    &&& bits > 0 ==> quad::squared(w, (bits - 1) as nat) == quad::base(-1)
}

/// The coset with the given shift of the group of order `2^bits`, in bit-reversed order.
pub open spec fn coset(shift: Quad, w: Quad, bits: nat) -> Seq<Quad> {
    Seq::new(pow2(bits), |j: int| shift.times(power(w, reversed(j as nat, bits))))
}

/// A coset in bit-reversed order is made of pairs `x, -x` whose squares again form such a coset.
pub proof fn law_coset_folds(shift: Quad, w: Quad, bits: nat)
    requires
        shift.wf(),
        is_root(w, bits),
    ensures
        barycentric::is_folding(coset(shift, w, bits), bits),
    decreases bits,
{
    let points: Seq<Quad> = coset(shift, w, bits);
    if bits > 0 {
        let m: nat = (bits - 1) as nat;
        let p: nat = pow2(m);
        let y: Quad = w.times(w);
        vstd::arithmetic::power2::lemma_pow2_unfold(bits);
        vstd::arithmetic::power2::lemma_pow2_pos(m);
        lemma_power_squared(w, m);
        assert forall|i: int| 0 <= i < points.len() / 2 implies points[2 * i + 1] == (
        #[trigger] points[2 * i]).negated() by {
            let r: nat = reversed(i as nat, m);
            let a: Quad = power(w, r);
            lemma_power_wf(w, r);
            assert((2 * i) as nat / 2 == i && (2 * i + 1) as nat / 2 == i);
            assert(0 * p == 0 && 1 * p == p);
            assert(reversed((2 * i) as nat, bits) == r);
            assert(reversed((2 * i + 1) as nat, bits) == p + r);
            lemma_power_adds(w, p, r);
            // shift * (-1 * a) == -(shift * a)
            lemma_minus_one(a);
            quad::lemma_mul(shift, a);
        }
        if m == 0 {
            assert(quad::squared(w, 0) == w);
            vstd::arithmetic::power2::lemma2_to64();
            assert(is_root(y, 0)) by {
                quad::lemma_base(-1, -1);
            }
        }
        law_coset_folds(shift.times(shift), y, m);
        let squares: Seq<Quad> = barycentric::squares(points);
        let next: Seq<Quad> = coset(shift.times(shift), y, m);
        assert forall|i: int| 0 <= i < next.len() implies #[trigger] squares[i] == next[i] by {
            let r: nat = reversed(i as nat, m);
            let a: Quad = power(w, r);
            lemma_power_wf(w, r);
            assert((2 * i) as nat / 2 == i);
            assert(0 * p == 0);
            assert(reversed((2 * i) as nat, bits) == r);
            lemma_power_of_square(w, r);
            barycentric::lemma_mul_exchange(shift, a, shift, a);
        }
        assert(squares =~= next);
    }
}

/// `-1 * a == -a`.
proof fn lemma_minus_one(a: Quad)
    requires
        a.wf(),
    ensures
        quad::base(-1).times(a) == a.negated(),
{
    quad::lemma_base(1, 1);
    quad::lemma_base(-1, 0);
    quad::lemma_mul(quad::base(1), a);
    quad::lemma_mul(a, a);
}

/// The first points of a coset in bit-reversed order are the coset of a smaller group.
pub proof fn law_coset_prefix(shift: Quad, w: Quad, bits: nat, log_blowup: nat)
    requires
        shift.wf(),
        is_root(w, bits),
        log_blowup <= bits,
    ensures
        coset(shift, w, bits).take(pow2((bits - log_blowup) as nat) as int) == coset(
            shift,
            quad::squared(w, log_blowup),
            (bits - log_blowup) as nat,
        ),
        is_root(quad::squared(w, log_blowup), (bits - log_blowup) as nat),
{
    let n: nat = (bits - log_blowup) as nat;
    let small: Quad = quad::squared(w, log_blowup);
    lemma_power_squared(w, log_blowup);
    if n < bits {
        vstd::arithmetic::power2::lemma_pow2_strictly_increases(n, bits);
    }
    let left: Seq<Quad> = coset(shift, w, bits).take(pow2(n) as int);
    let right: Seq<Quad> = coset(shift, small, n);
    assert forall|j: int| 0 <= j < left.len() implies #[trigger] left[j] == right[j] by {
        lemma_reversed_prefix(j as nat, bits, log_blowup);
        lemma_power_multiplies(w, pow2(log_blowup), reversed(j as nat, n));
    }
    assert(left =~= right);
    quad::lemma_powers_wf(w, log_blowup);
    lemma_root_power(w, bits, log_blowup);
}

/// A root of unity squared is one of the group of half the order.
proof fn lemma_root_power(w: Quad, bits: nat, n: nat)
    requires
        is_root(w, bits),
        n <= bits,
    ensures
        is_root(quad::squared(w, n), (bits - n) as nat),
    decreases n,
{
    if n > 0 {
        let y: Quad = w.times(w);
        if bits == 1 {
            assert(quad::squared(w, 0) == w);
            quad::lemma_base(-1, -1);
        }
        lemma_root_power(y, (bits - 1) as nat, (n - 1) as nat);
    }
}

/// The index of the point that comes `blowup` steps before the one at `j` in standard order.
pub open spec fn shifted_index(j: nat, bits: nat, blowup: nat) -> nat {
    reversed(
        ((reversed(j, bits) + pow2(bits) - blowup) % pow2(bits) as int) as nat,
        bits,
    )
}

/// Each point of a coset is the point `2^log_blowup` steps before it, times the generator to that
/// power.
pub proof fn law_coset_shift(shift: Quad, w: Quad, bits: nat, log_blowup: nat, j: nat)
    requires
        shift.wf(),
        is_root(w, bits),
        log_blowup <= bits,
        j < pow2(bits),
    ensures
        ({
            let points: Seq<Quad> = coset(shift, w, bits);
            let i: nat = shifted_index(j, bits, pow2(log_blowup));
            &&& i < pow2(bits)
            &&& points[j as int] == points[i as int].times(quad::squared(w, log_blowup))
        }),
{
    let n: nat = pow2(bits);
    let blowup: nat = pow2(log_blowup);
    let r: nat = reversed(j, bits);
    let e: nat = ((r + n - blowup) % n as int) as nat;
    let i: nat = shifted_index(j, bits, blowup);
    vstd::arithmetic::power2::lemma_pow2_pos(bits);
    vstd::arithmetic::power2::lemma_pow2_pos(log_blowup);
    if log_blowup < bits {
        vstd::arithmetic::power2::lemma_pow2_strictly_increases(log_blowup, bits);
    }
    lemma_reversed_bound(j, bits);
    lemma_reversed_bound(e, bits);
    vstd::arithmetic::div_mod::lemma_mod_bound(r + n - blowup, n as int);
    lemma_reversed_twice(e, bits);
    // w^(e + blowup) == w^r, as w^n == 1
    lemma_power_squared(w, log_blowup);
    lemma_power_squared(w, bits);
    lemma_root_power(w, bits, bits);
    lemma_power_wf(w, r);
    lemma_power_wf(w, e);
    lemma_power_adds(w, e, blowup);
    if r >= blowup {
        vstd::arithmetic::div_mod::lemma_mod_add_multiples_vanish(r - blowup, n as int);
        vstd::arithmetic::div_mod::lemma_small_mod((r - blowup) as nat, n);
        assert(e + blowup == r);
    } else {
        vstd::arithmetic::div_mod::lemma_small_mod((r + n - blowup) as nat, n);
        assert(e + blowup == r + n);
        lemma_power_adds(w, r, n);
        quad::lemma_mul(power(w, r), w);
    }
    quad::lemma_powers_wf(w, log_blowup);
    quad::lemma_mul_assoc(shift, power(w, e), quad::squared(w, log_blowup));
}

// GENERATORS
// ================================================================================================

/// A generator of the largest group whose order is a power of two, `2^32`.
pub const TWO_ADIC_GENERATOR: u64 = 0x1856_29DC_DA58_878C;

/// The generator of the group of order `2^bits` that is used for it: that of the largest group,
/// squared as many times as the order is halved.
pub open spec fn two_adic_root(bits: nat) -> Quad {
    quad::squared(quad::base(TWO_ADIC_GENERATOR as int), (32 - bits) as nat)
}

/// Squaring `a` leads to `b`, with one squaring less to do.
proof fn lemma_square_step(a: int, b: int, n: nat)
    requires
        felt::reduced(a * a) == b,
    ensures
        quad::squared(quad::base(a), n + 1) == quad::squared(quad::base(b), n),
{
    quad::lemma_base(a, a);
    quad::lemma_base(a * a, 0);
}

/// Squared 31 times, the generator of the largest group is minus one.
proof fn lemma_generator()
    ensures
        quad::squared(quad::base(TWO_ADIC_GENERATOR as int), 31) == quad::base(-1),
{
    lemma_square_step(0x1856_29DC_DA58_878C, 0x400A_7F75_5588_E659, 30);
    lemma_square_step(0x400A_7F75_5588_E659, 0x7E9B_D009_B86A_0845, 29);
    lemma_square_step(0x7E9B_D009_B86A_0845, 0xDFA8_C93B_A46D_2666, 28);
    lemma_square_step(0xDFA8_C93B_A46D_2666, 0x5904_9500_004A_4485, 27);
    lemma_square_step(0x5904_9500_004A_4485, 0x10D7_8DD8_915A_171D, 26);
    lemma_square_step(0x10D7_8DD8_915A_171D, 0xED41_D05B_78D6_E286, 25);
    lemma_square_step(0xED41_D05B_78D6_E286, 0x4BBA_F597_6ECF_EFD8, 24);
    lemma_square_step(0x4BBA_F597_6ECF_EFD8, 0x86CD_CC31_C307_E171, 23);
    lemma_square_step(0x86CD_CC31_C307_E171, 0xEA9D_5A13_36FB_C98B, 22);
    lemma_square_step(0xEA9D_5A13_36FB_C98B, 0x4B2A_18AD_E672_46B5, 21);
    lemma_square_step(0x4B2A_18AD_E672_46B5, 0xF502_AEF5_3232_2654, 20);
    lemma_square_step(0xF502_AEF5_3232_2654, 0x30BA_2ECD_5E93_E76D, 19);
    lemma_square_step(0x30BA_2ECD_5E93_E76D, 0xFBD4_1C6B_8CAA_3302, 18);
    lemma_square_step(0xFBD4_1C6B_8CAA_3302, 0x8128_1A7B_05F9_BEAC, 17);
    lemma_square_step(0x8128_1A7B_05F9_BEAC, 0xABD0_A6E8_AA3D_8A0E, 16);
    lemma_square_step(0xABD0_A6E8_AA3D_8A0E, 0x54DF_9630_BF79_450E, 15);
    lemma_square_step(0x54DF_9630_BF79_450E, 0xF6B2_CFFE_2306_BAAC, 14);
    lemma_square_step(0xF6B2_CFFE_2306_BAAC, 0xE0EE_0993_10BB_A1E2, 13);
    lemma_square_step(0xE0EE_0993_10BB_A1E2, 0x1544_EF23_35D1_7997, 12);
    lemma_square_step(0x1544_EF23_35D1_7997, 0xF2C3_5199_959D_FCB6, 11);
    lemma_square_step(0xF2C3_5199_959D_FCB6, 0x0653_B480_1DA1_C8CF, 10);
    lemma_square_step(0x0653_B480_1DA1_C8CF, 0x9D8F_2AD7_8BFE_D972, 9);
    lemma_square_step(0x9D8F_2AD7_8BFE_D972, 0x1905_D02A_5C41_1F4E, 8);
    lemma_square_step(0x1905_D02A_5C41_1F4E, 0xBF79_143C_E60C_A966, 7);
    lemma_square_step(0xBF79_143C_E60C_A966, 0xF800_07FF_0800_0001, 6);
    lemma_square_step(0xF800_07FF_0800_0001, 0x0000_0080_0000_0000, 5);
    lemma_square_step(0x0000_0080_0000_0000, 0x0000_3FFF_FFFF_C000, 4);
    lemma_square_step(0x0000_3FFF_FFFF_C000, 0xEFFF_FFFF_0000_0001, 3);
    lemma_square_step(0xEFFF_FFFF_0000_0001, 0xFFFF_FFFE_FF00_0001, 2);
    lemma_square_step(0xFFFF_FFFE_FF00_0001, 0x0001_0000_0000_0000, 1);
    lemma_square_step(0x0001_0000_0000_0000, 0xFFFF_FFFF_0000_0000, 0);
    assert(quad::squared(quad::base(0xFFFF_FFFF_0000_0000), 0) == quad::base(0xFFFF_FFFF_0000_0000));
    quad::lemma_base(-1, 0);
}

/// Squarings add up.
pub proof fn lemma_squared_adds(a: Quad, m: nat, n: nat)
    ensures
        quad::squared(quad::squared(a, m), n) == quad::squared(a, m + n),
    decreases m,
{
    if m > 0 {
        lemma_squared_adds(a.times(a), (m - 1) as nat, n);
    }
}

/// The generators generate groups of the orders that they are used for, and the repeated squares of
/// one are the generators of the smaller groups.
pub proof fn law_two_adic_root(bits: nat, n: nat)
    requires
        n <= bits <= 32,
    ensures
        is_root(two_adic_root(bits), bits),
        quad::squared(two_adic_root(bits), n) == two_adic_root((bits - n) as nat),
{
    let g: Quad = quad::base(TWO_ADIC_GENERATOR as int);
    lemma_generator();
    quad::lemma_base(TWO_ADIC_GENERATOR as int, 0);
    quad::lemma_powers_wf(g, (32 - bits) as nat);
    lemma_squared_adds(g, (32 - bits) as nat, n);
    if bits > 0 {
        lemma_squared_adds(g, (32 - bits) as nat, (bits - 1) as nat);
    } else {
        quad::lemma_squared_step(g, 31);
        quad::lemma_base(-1, -1);
    }
}

/// A generator of the group of order `2^bits`, from
/// `p3_field::TwoAdicField::two_adic_generator` on `p3_goldilocks::Goldilocks`.
///
/// It claims that the result is the canonical representative of the last entry of the outside
/// table, squared as many times as the group is smaller. There is no such group for more than 32
/// bits, and the outside function panics there.
#[verifier::external_body]
fn goldilocks_two_adic_generator(bits: usize) -> (r: u64)
    requires
        bits <= 32,
    ensures
        r < Felt::ORDER,
        quad::base(r as int) == two_adic_root(bits as nat),
{
    let generator =
        <p3_goldilocks::Goldilocks as p3_field::TwoAdicField>::two_adic_generator(bits);
    p3_field::PrimeField64::as_canonical_u64(&generator)
}

impl Felt {
    /// A generator of the group of order `2^bits`. Its repeated squares are the generators of the
    /// smaller groups.
    pub fn two_adic_generator(bits: usize) -> (r: Felt)
        requires
            bits <= 32,
        ensures
            quad::base(r@) == two_adic_root(bits as nat),
            is_root(quad::base(r@), bits as nat),
    {
        proof {
            law_two_adic_root(bits as nat, 0);
        }
        Felt::new(goldilocks_two_adic_generator(bits))
    }
}

/// Elements of the base field as elements of the extension.
pub open spec fn embedded(points: Seq<Felt>) -> Seq<Quad> {
    Seq::new(points.len(), |i: int| quad::base(points[i]@))
}

/// The coset of the group of order `2^log_n` that is shifted by seven, a generator of the whole
/// multiplicative group, in bit-reversed order.
pub fn bit_reversed_coset_points(log_n: u8) -> (r: Vec<Felt>)
    requires
        log_n <= 32,
        log_n < usize::BITS,
    ensures
        embedded(r@) == coset(
            quad::base(7),
            two_adic_root(log_n as nat),
            log_n as nat,
        ),
{
    let bits: usize = log_n as usize;
    let w: Felt = Felt::two_adic_generator(bits);
    let ghost root: Quad = quad::base(w@);
    let ghost shift: Quad = quad::base(7);
    proof {
        vstd::bits::lemma_usize_pow2_no_overflow(bits as nat);
        vstd::bits::lemma_usize_shl_is_mul(1, bits);
        quad::lemma_base(7, 0);
    }
    let n: usize = 1usize << bits;
    let mut in_order: Vec<Felt> = Vec::new();
    let mut point: Felt = Felt::new(7);
    proof {
        quad::lemma_mul(shift, root);
    }
    for i in 0..n
        invariant
            in_order@.len() == i,
            shift.wf(),
            root.wf(),
            root == quad::base(w@),
            quad::base(point@) == shift.times(power(root, i as nat)),
            forall|j: int|
                0 <= j < i ==> quad::base((#[trigger] in_order[j])@) == shift.times(
                    power(root, j as nat),
                ),
    {
        in_order.push(point);
        proof {
            lemma_power_wf(root, i as nat);
            quad::lemma_base(point@, w@);
            quad::lemma_base(point@ * w@, 0);
            quad::lemma_mul_assoc(shift, power(root, i as nat), root);
            quad::lemma_mul(power(root, i as nat), root);
        }
        point = point * w;
    }
    let mut r: Vec<Felt> = Vec::new();
    for j in 0..n
        invariant
            n == pow2(bits as nat),
            bits < usize::BITS,
            in_order@.len() == n,
            r@.len() == j,
            forall|i: int|
                0 <= i < n ==> quad::base((#[trigger] in_order[i])@) == shift.times(
                    power(root, i as nat),
                ),
            forall|i: int|
                0 <= i < j ==> quad::base((#[trigger] r[i])@) == shift.times(
                    power(root, reversed(i as nat, bits as nat)),
                ),
    {
        proof {
            vstd::arithmetic::power2::lemma2_to64();
            lemma_reversed_bound(j as nat, bits as nat);
        }
        let i: usize = p3_util::reverse_bits_len(j, bits);
        r.push(in_order[i]);
    }
    assert(embedded(r@) =~= coset(shift, root, bits as nat));
    r
}

// LAWS
// ================================================================================================

/// A number is a power of two where it is two to some power.
pub proof fn law_is_power_of_two(n: nat, k: nat)
    ensures
        is_power_of_two(pow2(k)),
        is_power_of_two(n) <==> exists|e: nat| n == #[trigger] pow2(e),
{
}

/// Bit `b` of the reversed number is the bit of the number that is as far from its top as `b` is
/// from the bottom. No other bits are there.
pub proof fn law_reversed(x: nat, bits: nat, b: nat)
    ensures
        b < bits ==> (reversed(x, bits) / pow2(b)) % 2 == (x / pow2((bits - 1 - b) as nat)) % 2,
        reversed(x, bits) < pow2(bits),
{
    lemma_reversed_bound(x, bits);
    if b < bits {
        lemma_reversed_bits(x, bits, b);
    }
}

proof fn lemma_reversed_bits(x: nat, bits: nat, b: nat)
    requires
        b < bits,
    ensures
        (reversed(x, bits) / pow2(b)) % 2 == (x / pow2((bits - 1 - b) as nat)) % 2,
    decreases bits,
{
    let m: nat = (bits - 1) as nat;
    let r: nat = reversed(x / 2, m);
    let q: nat = x % 2;
    vstd::arithmetic::power2::lemma2_to64();
    vstd::arithmetic::power2::lemma_pow2_pos(m);
    vstd::arithmetic::power2::lemma_pow2_pos(b);
    lemma_reversed_bound(x / 2, m);
    if b == m {
        vstd::arithmetic::div_mod::lemma_fundamental_div_mod_converse(
            (q * pow2(m) + r) as int,
            pow2(m) as int,
            q as int,
            r as int,
        );
        assert(x / 1 == x);
    } else {
        let c: nat = (m - 1 - b) as nat;
        lemma_reversed_bits(x / 2, m, b);
        vstd::arithmetic::power2::lemma_pow2_adds(b, c + 1);
        vstd::arithmetic::power2::lemma_pow2_unfold(c + 1);
        vstd::arithmetic::power2::lemma_pow2_pos(c);
        let (p, h): (int, int) = (pow2(b) as int, pow2(c) as int);
        assert(q * (p * (2 * h)) + r == p * (q * (2 * h)) + r) by (nonlinear_arith);
        vstd::arithmetic::div_mod::lemma_div_multiples_vanish_fancy(
            q * (2 * h) + r as int / p,
            r as int % p,
            p,
        );
        vstd::arithmetic::div_mod::lemma_fundamental_div_mod(r as int, p);
        assert(p * (q * (2 * h) + r as int / p) + r as int % p == p * (q * (2 * h)) + r)
            by (nonlinear_arith)
            requires
                r as int == p * (r as int / p) + r as int % p,
        ;
        assert(q * (2 * h) + r as int / p == 2 * (q * h) + r as int / p) by (nonlinear_arith);
        vstd::arithmetic::div_mod::lemma_div_denominator(x as int, 2, h);
    }
}

/// Powers start at one, and each is the one before it times the element.
pub proof fn law_power(a: Quad, n: nat)
    ensures
        power(a, 0) == quad::base(1),
        power(a, n + 1) == a.times(power(a, n)),
{
}

/// A generator of a group of order `2^bits` gives one when it is raised to the order, and minus one
/// when it is raised to half of it. An element that does is such a generator.
pub proof fn law_is_root(w: Quad, bits: nat)
    requires
        w.wf(),
    ensures
        is_root(w, bits) ==> power(w, pow2(bits)) == quad::base(1),
        bits > 0 ==> (is_root(w, bits) <==> power(w, pow2((bits - 1) as nat)) == quad::base(-1)),
        is_root(w, 0) <==> w == quad::base(1),
{
    lemma_power_squared(w, bits);
    if is_root(w, bits) {
        lemma_root_power(w, bits, bits);
    }
    if bits > 0 {
        lemma_power_squared(w, (bits - 1) as nat);
    }
}

/// Point `j` of a coset in bit-reversed order is the shift times the generator to the power that has
/// the bits of `j` in reverse order.
pub proof fn law_coset_points(shift: Quad, w: Quad, bits: nat, j: int)
    requires
        0 <= j < pow2(bits),
    ensures
        coset(shift, w, bits).len() == pow2(bits),
        coset(shift, w, bits)[j] == shift.times(power(w, reversed(j as nat, bits))),
{
}

/// In standard order, the index of a point that comes `blowup` steps before another is smaller by
/// `blowup`, around the cycle.
pub proof fn law_shifted_index(j: nat, bits: nat, blowup: nat)
    requires
        j < pow2(bits),
        blowup <= pow2(bits),
    ensures
        shifted_index(j, bits, blowup) < pow2(bits),
        reversed(shifted_index(j, bits, blowup), bits) == if reversed(j, bits) >= blowup {
            reversed(j, bits) - blowup
        } else {
            reversed(j, bits) - blowup + pow2(bits)
        },
{
    let n: nat = pow2(bits);
    let r: nat = reversed(j, bits);
    let e: nat = ((r + n - blowup) % n as int) as nat;
    vstd::arithmetic::power2::lemma_pow2_pos(bits);
    lemma_reversed_bound(j, bits);
    vstd::arithmetic::div_mod::lemma_mod_bound(r + n - blowup, n as int);
    lemma_reversed_bound(e, bits);
    lemma_reversed_twice(e, bits);
    if r >= blowup {
        vstd::arithmetic::div_mod::lemma_mod_add_multiples_vanish(r - blowup, n as int);
        vstd::arithmetic::div_mod::lemma_small_mod((r - blowup) as nat, n);
    } else {
        vstd::arithmetic::div_mod::lemma_small_mod((r + n - blowup) as nat, n);
    }
}

/// The generator of the largest group is a fixed element, and that of each smaller group is the
/// square of the generator of the group that is twice as large.
pub proof fn law_two_adic_generator(bits: nat)
    requires
        bits < 32,
    ensures
        two_adic_root(32) == quad::base(0x1856_29DC_DA58_878C),
        two_adic_root(bits) == two_adic_root(bits + 1).times(two_adic_root(bits + 1)),
{
    assert(quad::squared(quad::base(TWO_ADIC_GENERATOR as int), 0) == quad::base(
        TWO_ADIC_GENERATOR as int,
    ));
    quad::lemma_squared_step(quad::base(TWO_ADIC_GENERATOR as int), (31 - bits) as nat);
}

/// Elements of the base field are elements of the extension one by one.
pub proof fn law_embedded(points: Seq<Felt>, i: int)
    requires
        0 <= i < points.len(),
    ensures
        embedded(points).len() == points.len(),
        embedded(points)[i].c0 == points[i].value as int % 0xFFFF_FFFF_0000_0001,
        embedded(points)[i].c1 == 0,
{
}

} // verus!
