//! The quadratic extension against an independent implementation.

use miden_crypto::felt::Felt;
use miden_crypto::horner::{horner, horner_acc};
use miden_crypto::packed_felt::PackedFelt;
use miden_crypto::packed_quad::{PackedFieldExtensionExt, PackedQuadFelt};
use miden_crypto::quad::QuadFelt;
use p3_field::extension::BinomialExtensionField;
use p3_field::{BasedVectorSpace, PrimeField64};
use p3_goldilocks::Goldilocks;

type Outside = BinomialExtensionField<Goldilocks, 2>;

fn quad(c0: u64, c1: u64) -> QuadFelt {
    QuadFelt::new(Felt::new(c0), Felt::new(c1))
}

fn outside(x: QuadFelt) -> Outside {
    Outside::new([x.c0, x.c1].map(|c| Goldilocks::new(c.as_canonical_u64())))
}

fn inside(x: Outside) -> QuadFelt {
    let c: &[Goldilocks] = x.as_basis_coefficients_slice();
    quad(c[0].as_canonical_u64(), c[1].as_canonical_u64())
}

#[test]
fn arithmetic_matches_the_extension_field() {
    let a = quad(0x1234_5678_9ABC_DEF0, Felt::ORDER - 1);
    let b = quad(77, 0xFEDC_BA98_7654_3210);
    assert_eq!(a + b, inside(outside(a) + outside(b)));
    assert_eq!(a - b, inside(outside(a) - outside(b)));
    assert_eq!(a * b, inside(outside(a) * outside(b)));
    assert_eq!(-a, inside(-outside(a)));
    assert_eq!(a * Felt::new(3), a + a + a);
    assert_eq!(a - Felt::new(3), inside(outside(a) - Goldilocks::new(3)));
}

#[test]
fn the_generator_squares_to_seven() {
    assert_eq!(quad(0, 1).square(), quad(7, 0));
    assert_eq!(quad(2, 3) * quad(5, 11), quad(10 + 7 * 33, 22 + 15));
}

#[test]
fn powers_and_quotients_of_two() {
    let a = quad(9, 4);
    assert_eq!(a.exp_power_of_2(0), a);
    assert_eq!(a.exp_power_of_2(3), a.square().square().square());
    assert_eq!(quad(8, 24).div_2exp(3), quad(1, 3));
    assert_eq!(a.halve() + a.halve(), a);
}

#[test]
fn horner_folds_give_values_of_polynomials() {
    let x = quad(5, 2);
    let (a, b, c) = (quad(1, 2), quad(3, 4), quad(6, 7));
    let value: QuadFelt = horner(x, vec![a, b, c].into_iter());
    assert_eq!(value, a * x * x + b * x + c);
    let acc = quad(8, 9);
    let folded = horner_acc(acc, x, vec![a, b].into_iter());
    assert_eq!(folded, acc * x * x + a * x + b);
    assert_eq!(horner_acc(acc, x, Vec::<QuadFelt>::new().into_iter()), acc);
    // 2 * 10^2 + 3 * 10 + 4
    let digits = vec![Felt::new(2), Felt::new(3), Felt::new(4)];
    let number: Felt = horner(Felt::new(10), digits.into_iter());
    assert_eq!(number, Felt::new(234));
}

#[test]
fn columns_are_packed_and_unpacked() {
    let rows = [[quad(1, 2), quad(3, 4), quad(5, 6)], [quad(7, 8), quad(9, 10), quad(11, 12)]];
    let packed: [PackedQuadFelt; 3] = PackedQuadFelt::pack_ext_columns(&rows);
    for col in 0..3 {
        assert_eq!(packed[col].extract(0), rows[0][col]);
        assert_eq!(packed[col].extract(1), rows[1][col]);
        let mut out = [QuadFelt::zero(); 3];
        packed[col].to_ext_slice(&mut out);
        assert_eq!(out, [rows[0][col], rows[1][col], QuadFelt::zero()]);
        let mut short = [QuadFelt::zero(); 1];
        packed[col].to_ext_slice(&mut short);
        assert_eq!(short, [rows[0][col]]);
    }
}

#[test]
fn packed_extension_elements_are_computed_lane_by_lane() {
    let (a, b) = (quad(1, Felt::ORDER - 2), quad(3, 4));
    let p = PackedQuadFelt::from_ext_slice(&[a, b]);
    let x = quad(11, 13);
    assert_eq!((p * x).extract(0), a * x);
    assert_eq!((p * x).extract(1), b * x);
    assert_eq!((p + p).extract(1), b + b);
    assert_eq!(PackedQuadFelt::from(x).extract(1), x);
    let base = PackedFelt([Felt::new(5), Felt::new(6)]);
    assert_eq!(PackedQuadFelt::from(base).extract(1), quad(6, 0));
    assert_eq!(PackedQuadFelt::zero().extract(0), QuadFelt::zero());
}

#[test]
fn horner_folds_over_machine_integers() {
    assert_eq!(horner::<u64, u64, u64, _>(2, vec![1u64, 2, 3].into_iter()), 11);
    assert_eq!(horner::<u64, u64, u64, _>(2, Vec::new().into_iter()), 0);
    let whole = horner_acc(5u64, 2u64, vec![1u64, 2, 3].into_iter());
    let first = horner_acc(5u64, 2u64, vec![1u64].into_iter());
    assert_eq!(horner_acc(first, 2u64, vec![2u64, 3].into_iter()), whole);
    assert_eq!(whole, 51);
}
