//! Folding of constraints.

use miden_crypto::felt::Felt;
use miden_crypto::folder::{ProverConstraintFolder, RowWindow, Selectors};
use miden_crypto::packed_felt::PackedFelt;
use miden_crypto::packed_quad::PackedQuadFelt;
use miden_crypto::quad::QuadFelt;

fn quad(c0: u64, c1: u64) -> QuadFelt {
    QuadFelt::new(Felt::new(c0), Felt::new(c1))
}

fn pack(a: u64, b: u64) -> PackedFelt {
    PackedFelt([Felt::new(a), Felt::new(b)])
}

fn folder<'a>(
    main: &'a [PackedFelt],
    aux: &'a [PackedQuadFelt],
    public_values: &'a [Felt],
    base_alpha_powers: &'a [Vec<Felt>],
    ext_alpha_powers: &'a [QuadFelt],
    constraint_count: usize,
) -> ProverConstraintFolder<'a> {
    ProverConstraintFolder {
        main: RowWindow { current: &main[..1], next: &main[1..] },
        aux: RowWindow { current: aux, next: aux },
        packed_randomness: aux,
        public_values,
        periodic_values: main,
        permutation_values: aux,
        selectors: Selectors {
            is_first_row: pack(1, 0),
            is_last_row: pack(0, 1),
            is_transition: pack(1, 1),
        },
        base_alpha_powers,
        ext_alpha_powers,
        base_acc: PackedQuadFelt::zero(),
        ext_acc: PackedQuadFelt::zero(),
        base_constraint_index: 0,
        ext_constraint_index: 0,
        constraint_count,
    }
}

#[test]
fn constraints_are_folded_with_their_powers() {
    let main = [pack(1, 2), pack(3, 4)];
    let aux = [PackedQuadFelt::from_ext_slice(&[quad(5, 6), quad(7, 8)])];
    let alphas = [quad(11, 12), quad(13, 14), quad(15, 16), quad(17, 18)];
    let powers = vec![
        vec![alphas[0].c0, alphas[1].c0, alphas[2].c0],
        vec![alphas[0].c1, alphas[1].c1, alphas[2].c1],
    ];
    let ext_powers = [alphas[3]];
    let public_values = [Felt::new(19)];
    let mut f = folder(&main, &aux, &public_values, &powers, &ext_powers, 4);
    f.assert_zero(main[0]);
    f.assert_zero_ext(aux[0]);
    f.assert_zeros([main[1], pack(20, 21)]);
    assert_eq!(f.base_constraint_index, 3);
    assert_eq!(f.ext_constraint_index, 1);
    let result = f.finalize_constraints();
    for (lane, values) in [(0, [1, 3, 20]), (1, [2, 4, 21])] {
        let expected = alphas[0] * Felt::new(values[0])
            + alphas[1] * Felt::new(values[1])
            + alphas[2] * Felt::new(values[2])
            + alphas[3] * aux[0].extract(lane);
        assert_eq!(result.extract(lane), expected);
    }
}

#[test]
fn constraints_given_together_are_folded_like_single_ones() {
    let main = [pack(1, 2), pack(3, 4)];
    let powers = vec![vec![Felt::new(5), Felt::new(6)], vec![Felt::new(7), Felt::new(8)]];
    let mut together = folder(&main, &[], &[], &powers, &[], 2);
    together.assert_zeros(main);
    let mut single = folder(&main, &[], &[], &powers, &[], 2);
    single.assert_zero(main[0]);
    single.assert_zero(main[1]);
    assert_eq!(together.finalize_constraints(), single.finalize_constraints());
}

/// A constraint that can be given only once.
struct Single(PackedFelt);

impl From<Single> for PackedFelt {
    fn from(x: Single) -> PackedFelt {
        x.0
    }
}

#[test]
fn constraints_are_moved_into_the_folder() {
    let main = [pack(1, 2), pack(3, 4)];
    let powers = vec![vec![Felt::new(5), Felt::new(6)], vec![Felt::new(7), Felt::new(8)]];
    let mut f = folder(&main, &[], &[], &powers, &[], 2);
    f.assert_zeros([Single(main[0]), Single(main[1])]);
    assert_eq!(f.finalize_constraints().extract(0), quad(5 + 18, 7 + 24));
}

#[test]
fn constraints_may_be_single_elements() {
    let main = [pack(0, 0), pack(0, 0)];
    let powers = vec![vec![Felt::new(5)], vec![Felt::new(7)]];
    let ext_powers = [quad(1, 1)];
    let mut f = folder(&main, &[], &[], &powers, &ext_powers, 2);
    f.assert_zero(Felt::new(2));
    f.assert_zero_ext(quad(3, 0));
    let result = f.finalize_constraints();
    assert_eq!(result.extract(0), quad(13, 17));
    assert_eq!(result.extract(1), quad(13, 17));
}

#[test]
fn inputs_are_handed_out() {
    let main = [pack(1, 2), pack(3, 4)];
    let aux = [PackedQuadFelt::from(quad(5, 6))];
    let public_values = [Felt::new(9)];
    let f = folder(&main, &aux, &public_values, &[], &[], 0);
    assert_eq!(f.main().current, &main[..1]);
    assert_eq!(f.main().next, &main[1..]);
    assert_eq!(f.is_first_row(), pack(1, 0));
    assert_eq!(f.is_last_row(), pack(0, 1));
    assert_eq!(f.is_transition_window(2), pack(1, 1));
    assert_eq!(f.public_values(), &public_values);
    assert_eq!(f.permutation().current, &aux);
    assert_eq!(f.permutation_randomness(), &aux);
    assert_eq!(f.permutation_values(), &aux);
    assert_eq!(f.periodic_values(), &main);
    let _ = f.preprocessed();
    assert_eq!(f.finalize_constraints(), PackedQuadFelt::zero());
}
