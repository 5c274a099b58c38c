//! Evaluation outside of the domain, against independent interpolation.

use miden_crypto::coset::bit_reversed_coset_points;
use miden_crypto::felt::Felt;
use miden_crypto::interpolate::PointQuotients;
use miden_crypto::matrix::RowMajorMatrix;
use miden_crypto::quad::QuadFelt;
use p3_dft::{NaiveDft, TwoAdicSubgroupDft};
use p3_field::extension::BinomialExtensionField;
use p3_field::{BasedVectorSpace, Field, PrimeCharacteristicRing, PrimeField64, TwoAdicField};
use p3_goldilocks::Goldilocks;
use p3_interpolation::{interpolate_coset, interpolate_coset_with_precomputation};
use p3_matrix::bitrev::BitReversibleMatrix;
use p3_matrix::Matrix;
use p3_util::reverse_slice_index_bits;
use rand::distr::StandardUniform;
use rand::prelude::SmallRng;
use rand::{RngExt, SeedableRng};

type OutsideMatrix = p3_matrix::dense::RowMajorMatrix<Goldilocks>;
type OutsideQuad = BinomialExtensionField<Goldilocks, 2>;

fn felt(x: Goldilocks) -> Felt {
    Felt::new(x.as_canonical_u64())
}

fn outside_felt(x: Felt) -> Goldilocks {
    Goldilocks::new(x.as_canonical_u64())
}

fn quad(x: OutsideQuad) -> QuadFelt {
    let c: &[Goldilocks] = x.as_basis_coefficients_slice();
    QuadFelt::new(felt(c[0]), felt(c[1]))
}

fn outside_quad(x: QuadFelt) -> OutsideQuad {
    OutsideQuad::new([outside_felt(x.c0), outside_felt(x.c1)])
}

fn matrix(m: &OutsideMatrix) -> RowMajorMatrix {
    RowMajorMatrix::new(m.values.iter().map(|x| felt(*x)).collect(), m.width)
}

/// The right inverse stands at every point, both for `z` and for `h * z`.
#[test]
fn from_z_and_hz_denominators_are_correct() {
    let rng = &mut SmallRng::seed_from_u64(2024);
    let log_blowup = 2u8;
    // Several sizes, so that the permutation of the indices is exercised.
    for log_lde_height in [4u8, 6, 8, 10] {
        let log_max_trace_height = log_lde_height - log_blowup;
        let coset_points_br = bit_reversed_coset_points(log_lde_height);

        let z: OutsideQuad = rng.sample(StandardUniform);
        let h = Felt::two_adic_generator(log_max_trace_height as usize);

        let pq = PointQuotients::from_z_and_hz(quad(z), h, log_blowup, &coset_points_br);

        for (i, &x_i) in coset_points_br.iter().enumerate() {
            let x_i = outside_felt(x_i);
            let expected_inv_z = (z - x_i).try_inverse().expect("z outside coset");
            let expected_inv_hz =
                (z * outside_felt(h) - x_i).try_inverse().expect("h·z outside coset");
            assert_eq!(pq.point_quotient[i][0], quad(expected_inv_z), "z denom at i={i}");
            assert_eq!(pq.point_quotient[i][1], quad(expected_inv_hz), "h·z denom at i={i}");
        }
    }
}

/// Both points, for matrices of different heights.
#[test]
fn batch_eval_matches_interpolate_coset() {
    let rng = &mut SmallRng::seed_from_u64(999);
    let log_blowup = 2u8;
    let log_n = 8;
    let n = 1usize << log_n;
    let shift = Goldilocks::GENERATOR;

    let coset_points_br = bit_reversed_coset_points(log_n);

    let log_max_trace_height = log_n - log_blowup;
    let z: OutsideQuad = rng.sample(StandardUniform);
    let h = Felt::two_adic_generator(log_max_trace_height as usize);
    let hz = z * outside_felt(h);

    // Full height.
    let poly_degree_1 = n >> log_blowup as usize;
    let width = 3;
    let lifted_shift_1 = shift;
    let mut coeffs1 = OutsideMatrix::rand(rng, poly_degree_1, width).values;
    coeffs1.resize(n * width, Goldilocks::ZERO);
    let evals1_std = NaiveDft.coset_dft_batch(OutsideMatrix::new(coeffs1, width), lifted_shift_1);
    let evals1_br: OutsideMatrix = evals1_std.clone().bit_reverse_rows().to_row_major_matrix();

    // Half height.
    let poly_degree_2 = poly_degree_1 >> 1;
    let lifted_shift_2 = shift.square();
    let mut coeffs2 = OutsideMatrix::rand(rng, poly_degree_2, width).values;
    coeffs2.resize((n >> 1) * width, Goldilocks::ZERO);
    let evals2_std = NaiveDft.coset_dft_batch(OutsideMatrix::new(coeffs2, width), lifted_shift_2);
    let evals2_br: OutsideMatrix = evals2_std.clone().bit_reverse_rows().to_row_major_matrix();

    let (m1, m2) = (matrix(&evals1_br), matrix(&evals2_br));
    let matrices_groups: Vec<Vec<&RowMajorMatrix>> = vec![vec![&m1, &m2]];

    let pq = PointQuotients::from_z_and_hz(quad(z), h, log_blowup, &coset_points_br);
    let result = pq.batch_eval_lifted(&matrices_groups, &coset_points_br, log_blowup);
    let rows: Vec<&[[QuadFelt; 2]]> = result.iter_rows();
    assert_eq!(rows.len(), 2, "expected 2 matrix rows");

    for (point_idx, label, point) in [(0usize, "z", z), (1, "h·z", hz)] {
        // At the point itself.
        let expected1: Vec<OutsideQuad> = interpolate_coset(&evals1_std, lifted_shift_1, point);
        for (col, (&our, &exp)) in rows[0].iter().zip(expected1.iter()).enumerate() {
            assert_eq!(our[point_idx], quad(exp), "{label}, mat1, col={col}: mismatch");
        }

        // At the square of the point.
        let point_lifted = point.square();
        let expected2: Vec<OutsideQuad> =
            interpolate_coset(&evals2_std, lifted_shift_2, point_lifted);
        for (col, (&our, &exp)) in rows[1].iter().zip(expected2.iter()).enumerate() {
            assert_eq!(our[point_idx], quad(exp), "{label}, mat2, col={col}: mismatch");
        }
    }
}

/// The same inverses give the same values, for a matrix of full height.
#[test]
fn batch_eval_matches_interpolate_with_precomputation() {
    let rng = &mut SmallRng::seed_from_u64(123);
    let log_blowup = 2u8;
    let log_n = 8;
    let n = 1usize << log_n;
    let shift = Goldilocks::GENERATOR;

    // The points in both orders.
    let coset_points_br = bit_reversed_coset_points(log_n);
    let mut coset_points_std: Vec<Goldilocks> =
        coset_points_br.iter().map(|x| outside_felt(*x)).collect();
    reverse_slice_index_bits(&mut coset_points_std);

    let log_max_trace_height = log_n - log_blowup;
    let z: OutsideQuad = rng.sample(StandardUniform);
    let h = Felt::two_adic_generator(log_max_trace_height as usize);
    let hz = z * outside_felt(h);

    let pq = PointQuotients::from_z_and_hz(quad(z), h, log_blowup, &coset_points_br);

    let poly_degree = n >> log_blowup as usize;
    let lde_height = n;
    let width = 4;

    let mut coeffs_values = OutsideMatrix::rand(rng, poly_degree, width).values;
    coeffs_values.resize(lde_height * width, Goldilocks::ZERO);
    let padded_coeffs = OutsideMatrix::new(coeffs_values, width);

    let evals_std = NaiveDft.coset_dft_batch(padded_coeffs, shift);
    let evals_br = matrix(&evals_std.clone().bit_reverse_rows().to_row_major_matrix());

    let result = pq.batch_eval_lifted(&[vec![&evals_br]], &coset_points_br, log_blowup);
    let our_rows: Vec<&[[QuadFelt; 2]]> = result.iter_rows();
    assert_eq!(our_rows.len(), 1, "expected one matrix row");
    let our_row = our_rows[0];

    for (point_idx, label, point) in [(0usize, "z", z), (1, "h·z", hz)] {
        // The inverses for this point in standard order.
        let mut diff_invs_std: Vec<OutsideQuad> = pq.point_quotient[..lde_height]
            .iter()
            .map(|arr| outside_quad(arr[point_idx]))
            .collect();
        reverse_slice_index_bits(&mut diff_invs_std);

        let expected: Vec<OutsideQuad> = interpolate_coset_with_precomputation(
            &evals_std,
            shift,
            point,
            &coset_points_std[..lde_height],
            &diff_invs_std,
        );

        assert_eq!(our_row.len(), expected.len(), "{label}: length mismatch");
        for (col, (&our, &exp)) in our_row.iter().zip(expected.iter()).enumerate() {
            assert_eq!(our[point_idx], quad(exp), "{label}, col={col}: evaluation mismatch");
        }
    }
}

/// The polynomial `3 + 5 * X` on a domain of two points, and the constant 9 lifted to it.
#[test]
fn small_polynomials_have_their_values() {
    let points = bit_reversed_coset_points(1);
    assert_eq!(points, vec![Felt::new(7), Felt::new(Felt::ORDER - 7)]);
    let z = QuadFelt::new(Felt::new(100), Felt::new(1));
    let h = Felt::two_adic_generator(1);
    assert_eq!(h, Felt::neg_one());
    let pq = PointQuotients::from_z_and_hz(z, h, 0, &points);
    let line = points.iter().map(|x| Felt::new(3) + Felt::new(5) * *x).collect();
    let line = RowMajorMatrix::new(line, 1);
    let constant = RowMajorMatrix::new(vec![Felt::new(9)], 1);
    let result = pq.batch_eval_lifted(&[vec![&line], vec![], vec![&constant]], &points, 0);
    assert_eq!(result.num_rows(), 2);
    assert_eq!(result.row(0)[0][0], QuadFelt::new(Felt::new(503), Felt::new(5)));
    let at_hz = QuadFelt::new(Felt::new(3) - Felt::new(500), Felt::zero() - Felt::new(5));
    assert_eq!(result.row(0)[0][1], at_hz);
    assert_eq!(result.row(1)[0], [QuadFelt::from_base(Felt::new(9)); 2]);
}

#[test]
fn coset_points_come_in_bit_reversed_order() {
    let log_n = 5u8;
    let points = bit_reversed_coset_points(log_n);
    let generator = Goldilocks::two_adic_generator(log_n as usize);
    for (j, x) in points.iter().enumerate() {
        let exponent = p3_util::reverse_bits_len(j, log_n as usize) as u64;
        assert_eq!(outside_felt(*x), Goldilocks::GENERATOR * generator.exp_u64(exponent));
    }
    for pair in points.chunks(2) {
        assert_eq!(pair[0] + pair[1], Felt::zero());
    }
    assert_eq!(bit_reversed_coset_points(0), vec![Felt::new(7)]);
}

#[test]
fn generators_are_squares_of_one_another() {
    assert_eq!(Felt::two_adic_generator(0), Felt::one());
    for bits in 1..33 {
        let w = Felt::two_adic_generator(bits);
        assert_eq!(w.square(), Felt::two_adic_generator(bits - 1));
    }
}

#[test]
fn the_first_points_of_a_coset_form_a_smaller_one() {
    let points = bit_reversed_coset_points(6);
    assert_eq!(points[..16], bit_reversed_coset_points(4)[..]);
    assert_eq!(points[..1], bit_reversed_coset_points(0)[..]);
}

/// The weights `x / (z - x)` of pairs add up to twice the weights of the squares at `z * z`, and the
/// scaling at `z * z` is twice the scaling at `z`.
#[test]
fn weights_and_scalings_fold() {
    let points = bit_reversed_coset_points(4);
    let z = OutsideQuad::new([Goldilocks::new(123), Goldilocks::new(456)]);
    let weight = |x: Goldilocks, z: OutsideQuad| (z - x).inverse() * x;
    for pair in points.chunks(2) {
        let (x, y) = (outside_felt(pair[0]), outside_felt(pair[1]));
        assert_eq!(weight(x, z) + weight(y, z), weight(x.square(), z.square()).double());
    }
    let scaling = |x: Goldilocks, z: OutsideQuad, k: usize| {
        ((z * x.inverse()).exp_power_of_2(k) - OutsideQuad::ONE).div_2exp_u64(k as u64)
    };
    let g = Goldilocks::GENERATOR;
    assert_eq!(scaling(g.square(), z.square(), 3), scaling(g, z, 4).double());
    // What the library computes for constants is the scaled sum of the weights, which is one.
    let h = Felt::two_adic_generator(4);
    let pq = PointQuotients::from_z_and_hz(quad(z), h, 0, &points);
    let sum: OutsideQuad = points.iter().map(|x| weight(outside_felt(*x), z)).sum();
    assert_eq!(scaling(g, z, 4) * sum, OutsideQuad::ONE);
    let ones = RowMajorMatrix::new(vec![Felt::one(); 16], 1);
    let result = pq.batch_eval_lifted(&[vec![&ones]], &points, 0);
    assert_eq!(result.row(0), &[[QuadFelt::one(); 2]]);
}

/// Four matrices whose degrees are the whole domain, a quarter of it and one.
#[test]
fn degrees_may_be_skipped() {
    let rng = &mut SmallRng::seed_from_u64(7);
    let (log_n, log_blowup) = (5u8, 1u8);
    let points = bit_reversed_coset_points(log_n);
    let z: OutsideQuad = rng.sample(StandardUniform);
    let h = Felt::two_adic_generator((log_n - log_blowup) as usize);
    let mut matrices = Vec::new();
    let mut expected = Vec::new();
    for (t, width) in [(2u32, 2usize), (0, 1), (4, 3), (2, 1)] {
        let height = 1usize << (log_n as u32 - t);
        let mut coeffs = OutsideMatrix::rand(rng, height >> log_blowup, width).values;
        coeffs.resize(height * width, Goldilocks::ZERO);
        let shift = Goldilocks::GENERATOR.exp_power_of_2(t as usize);
        let coeffs = OutsideMatrix::new(coeffs, width);
        let at = |point: OutsideQuad| -> Vec<QuadFelt> {
            let point = point.exp_power_of_2(t as usize);
            let rows = coeffs.values.chunks(width).rev();
            let zero = vec![OutsideQuad::ZERO; width];
            let values = rows.fold(zero, |acc, row| {
                acc.iter().zip(row).map(|(a, c)| *a * point + *c).collect()
            });
            values.into_iter().map(quad).collect()
        };
        expected.push([at(z), at(z * outside_felt(h))]);
        let evals = NaiveDft.coset_dft_batch(coeffs.clone(), shift);
        matrices.push(matrix(&evals.bit_reverse_rows().to_row_major_matrix()));
    }
    let groups = vec![vec![&matrices[0], &matrices[1]], vec![&matrices[2], &matrices[3]]];
    let pq = PointQuotients::from_z_and_hz(quad(z), h, log_blowup, &points);
    let result = pq.batch_eval_lifted(&groups, &points, log_blowup);
    for (i, [at_z, at_hz]) in expected.iter().enumerate() {
        for col in 0..at_z.len() {
            assert_eq!(result.row(i)[col], [at_z[col], at_hz[col]], "matrix {i}, column {col}");
        }
    }
}
