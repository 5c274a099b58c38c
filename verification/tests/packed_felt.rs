//! Packed elements against single ones.

use core::ops::{Add, Mul, Neg, Sub};

use miden_crypto::felt::Felt;
use miden_crypto::packed_felt::PackedFelt;

fn pack(a: u64, b: u64) -> PackedFelt {
    PackedFelt([Felt::new(a), Felt::new(b)])
}

#[test]
fn add_zero_and_one() {
    let zeros = PackedFelt::broadcast(Felt::zero());
    let ones = PackedFelt::broadcast(Felt::one());
    let result = zeros.add(ones);
    assert_eq!(result.0, [Felt::one(), Felt::one()]);

    let twos = ones.add(ones);
    assert_eq!(twos.0, [Felt::two(), Felt::two()]);
}

#[test]
fn sub_zero_and_one() {
    let ones = PackedFelt::broadcast(Felt::one());
    let zeros = PackedFelt::broadcast(Felt::zero());
    let result = ones.sub(ones);
    assert_eq!(result.0, [Felt::zero(), Felt::zero()]);

    // 0 - 1 wraps to P - 1.
    let result = zeros.sub(ones);
    assert_eq!(result.0, [Felt::neg_one(), Felt::neg_one()]);
}

#[test]
fn neg_zero_and_one() {
    let zeros = PackedFelt::broadcast(Felt::zero());
    assert_eq!(zeros.neg().0, [Felt::zero(), Felt::zero()]);

    let ones = PackedFelt::broadcast(Felt::one());
    assert_eq!(ones.neg().0, [Felt::neg_one(), Felt::neg_one()]);
}

/// Cross-check against single elements for several edge cases.
#[test]
fn add_edge_cases() {
    let cases: &[(u64, u64)] = &[
        (0, 0),
        (1, 1),
        (Felt::ORDER - 1, 1), // wraps to 0
        (Felt::ORDER - 1, Felt::ORDER - 1),
        (0xFFFF_FFFF, 0xFFFF_FFFF),
        (0xFFFF_FFFF_FFFF_FFFF, 1), // > P input
    ];
    for &(a, b) in cases {
        let pkg = pack(a, b);
        let sum_pkg = pkg.add(pkg);
        let scalar_a = Felt::new(a) + Felt::new(a);
        let scalar_b = Felt::new(b) + Felt::new(b);
        assert_eq!(sum_pkg.0, [scalar_a, scalar_b], "add mismatch for ({a:#x}, {b:#x})");
    }
}

/// Cross-check multiplication against single elements.
#[test]
fn mul_edge_cases() {
    let cases: &[(u64, u64)] = &[
        (0, 0),
        (1, 1),
        (2, 3),
        (Felt::ORDER - 1, 2),
        // (P-1)^2 lands at the top of the 128-bit product space.
        (Felt::ORDER - 1, Felt::ORDER - 1),
        (0xFFFF_FFFF, 0xFFFF_FFFF),
        (0x1234_5678_9ABC_DEF0, 0xFEDC_BA98_7654_3210),
    ];
    for &(a, b) in cases {
        let pkg_a = PackedFelt::broadcast(Felt::new(a));
        let pkg_b = PackedFelt::broadcast(Felt::new(b));
        let prod_pkg = pkg_a.mul(pkg_b);
        let scalar = Felt::new(a) * Felt::new(b);
        assert_eq!(prod_pkg.0, [scalar, scalar], "mul mismatch for ({a:#x}, {b:#x})");
    }
}

/// Both lanes give what they would give on their own.
#[test]
fn two_lane_independence() {
    // Distinct values per lane, so that swapped lanes would show.
    let pkg_a = pack(0x1111_2222_3333_4444, 0x5555_6666_7777_8888);
    let pkg_b = pack(0x9999_AAAA_BBBB_CCCC, 0xDDDD_EEEE_FFFF_0001);
    let sum = pkg_a.add(pkg_b);
    let prod = pkg_a.mul(pkg_b);
    assert_eq!(sum.0, [pkg_a.0[0] + pkg_b.0[0], pkg_a.0[1] + pkg_b.0[1]]);
    assert_eq!(prod.0, [pkg_a.0[0] * pkg_b.0[0], pkg_a.0[1] * pkg_b.0[1]]);
}

/// Cross-check `halve` for both even and odd inputs.
#[test]
fn halve_matches_scalar() {
    let cases: &[(u64, u64)] = &[
        (0, 0),
        (2, 4),                             // both even
        (1, 3),                             // both odd
        (0xFFFF_FFFE, 0xFFFF_FFFF),         // mixed lanes
        (Felt::ORDER - 2, Felt::ORDER - 1), // near P
    ];
    for &(a, b) in cases {
        let pkg = pack(a, b);
        let halved = pkg.halve();
        let exp_a = Felt::new_unchecked(a).halve();
        let exp_b = Felt::new_unchecked(b).halve();
        assert_eq!(halved.0, [exp_a, exp_b], "halve mismatch for ({a:#x}, {b:#x})");
    }
}

/// Cross-check `square` against single elements.
#[test]
fn square_matches_scalar() {
    let cases: &[(u64, u64)] =
        &[(0, 0), (1, 2), (Felt::ORDER - 1, 0xDEAD_BEEF_CAFE_BABE)];
    for &(a, b) in cases {
        let pkg = pack(a, b);
        let sq = pkg.square();
        let exp_a = Felt::new_unchecked(a).square();
        let exp_b = Felt::new_unchecked(b).square();
        assert_eq!(sq.0, [exp_a, exp_b], "square mismatch for ({a:#x}, {b:#x})");
    }
}

/// Blocks of one lane are interleaved, blocks of two lanes stay as they are.
#[test]
fn interleave_block_len_1_and_2() {
    let v0 = pack(1, 2);
    let v1 = pack(3, 4);
    let (r0, r1) = v0.interleave(v1, 1);
    assert_eq!(r0.0, [Felt::new_unchecked(1), Felt::new_unchecked(3)]);
    assert_eq!(r1.0, [Felt::new_unchecked(2), Felt::new_unchecked(4)]);

    let (r0, r1) = v0.interleave(v1, 2);
    assert_eq!(r0.0, [Felt::new_unchecked(1), Felt::new_unchecked(2)]);
    assert_eq!(r1.0, [Felt::new_unchecked(3), Felt::new_unchecked(4)]);
}

#[test]
fn interleaving_twice_changes_nothing() {
    let (a, b) = (pack(1, 2), pack(3, 4));
    let (c, d) = a.interleave(b, 1);
    assert_eq!(c.interleave(d, 1), (a, b));
}

#[test]
fn exact_products_and_differences() {
    let a = pack(0x1234_5678_9ABC_DEF0, 3);
    let b = pack(0xFEDC_BA98_7654_3210, 5);
    let p = a.mul(b);
    let order = Felt::ORDER as u128;
    let expected = (0x1234_5678_9ABC_DEF0u128 * 0xFEDC_BA98_7654_3210u128) % order;
    assert_eq!(p.0[0].as_canonical_u64() as u128, expected);
    assert_eq!(p.0[1].as_canonical_u64(), 15);
    let d = b.sub(a);
    assert_eq!(d.0[0].as_canonical_u64(), 0xFEDC_BA98_7654_3210 - 0x1234_5678_9ABC_DEF0);
    assert_eq!(a.sub(b).0[1].as_canonical_u64(), Felt::ORDER - 2);
    assert_eq!(a.neg().0[1].as_canonical_u64(), Felt::ORDER - 3);
}

#[test]
fn lanes_that_are_not_canonical() {
    // 2^64 - 1 is 2^32 - 2 modulo the order.
    let raw = PackedFelt([Felt::new_unchecked(u64::MAX), Felt::new_unchecked(Felt::ORDER)]);
    assert_eq!(raw.add(raw).0, [Felt::new(2 * 0xFFFF_FFFE), Felt::zero()]);
    assert_eq!(raw.sub(PackedFelt::one()).0, [Felt::new(0xFFFF_FFFD), Felt::neg_one()]);
    assert_eq!(raw.mul(raw).0, [Felt::new(0xFFFF_FFFE).square(), Felt::zero()]);
    assert_eq!(raw.halve().0, [Felt::new(0x7FFF_FFFF), Felt::zero()]);
    assert_eq!(raw.neg().0, [Felt::new(Felt::ORDER - 0xFFFF_FFFE), Felt::zero()]);
}

#[test]
fn elements_in_both_lanes() {
    let x = Felt::new(42);
    assert_eq!(PackedFelt::from(x).0, [x, x]);
    assert_eq!(PackedFelt::from_prime_subfield(x).as_array(), &[x, x]);
    assert_eq!(PackedFelt::from_slice(&[x, Felt::one()]).as_slice(), &[x, Felt::one()]);
    assert_eq!(PackedFelt::zero_vec(3), vec![PackedFelt::zero(); 3]);
    assert_eq!(PackedFelt::neg_one().add(PackedFelt::two()), PackedFelt::one());
}

#[test]
fn single_elements_on_either_side() {
    let a = pack(10, 20);
    let x = Felt::new(7);
    assert_eq!((a + x).0, [Felt::new(17), Felt::new(27)]);
    assert_eq!((x + a).0, [Felt::new(17), Felt::new(27)]);
    assert_eq!((a - x).0, [Felt::new(3), Felt::new(13)]);
    assert_eq!((x - a).0, [Felt::new(Felt::ORDER - 3), Felt::new(Felt::ORDER - 13)]);
    assert_eq!((a * x).0, [Felt::new(70), Felt::new(140)]);
    assert_eq!((x * a).0, [Felt::new(70), Felt::new(140)]);
    assert_eq!(((a * x) / x).0, a.0);
    let mut quotient = a;
    quotient /= x;
    assert_eq!(quotient, a / x);
    assert_ne!(quotient, a);
    let mut b = a;
    b += a;
    b -= x;
    b *= x;
    assert_eq!(b.0, [Felt::new(91), Felt::new(231)]);
    b += x;
    b -= a;
    b *= a;
    assert_eq!(b.0, [Felt::new(880), Felt::new(4360)]);
}

#[test]
fn sums_and_products_of_packed_elements() {
    let values = [pack(1, 2), pack(3, 4), pack(5, 6)];
    assert_eq!(PackedFelt::sum(&values).0, [Felt::new(9), Felt::new(12)]);
    assert_eq!(PackedFelt::product(&values).0, [Felt::new(15), Felt::new(48)]);
    assert_eq!(PackedFelt::sum(&[]), PackedFelt::zero());
    assert_eq!(PackedFelt::product(&[]), PackedFelt::one());
    let single = [Felt::new(2), Felt::new(3), Felt::new(7)];
    assert_eq!(PackedFelt::sum_base(&single).0, [Felt::new(12), Felt::new(12)]);
    assert_eq!(PackedFelt::product_base(&single).0, [Felt::new(42), Felt::new(42)]);
    assert_eq!(PackedFelt::sum_base(&[]), PackedFelt::zero());
    assert_eq!(PackedFelt::product_base(&[]), PackedFelt::one());
}

#[test]
fn seventh_roots() {
    let a = pack(0x1111_2222_3333_4444, 2);
    let root = a.injective_exp_root_n();
    assert_ne!(root, a);
    let square = root.square();
    let sixth = square.mul(square).mul(square);
    assert_eq!(sixth.mul(root), a);
    // 2^7 has the seventh root 2.
    assert_eq!(pack(128, 0).injective_exp_root_n().0, [Felt::new(2), Felt::zero()]);
}

#[test]
fn inverses_of_single_elements() {
    let x = Felt::new(123_456_789);
    assert_ne!(x.inverse(), x);
    assert_eq!(x * x.inverse(), Felt::one());
    assert_eq!(Felt::zero().try_inverse(), None);
    assert_eq!(Felt::two().try_inverse(), Some(Felt::new(0x7FFF_FFFF_8000_0001)));
}
