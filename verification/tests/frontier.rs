//! The Merkle frontier against trees that are built in full.

use miden_crypto::felt::Felt;
use miden_crypto::frontier::MerkleFrontier;
use miden_crypto::merkle::{EmptySubtreeRoots, MerkleError, MerklePath};
use miden_crypto::mmr::{Forest, MmrError, MmrPeaks, MmrProof};
use miden_crypto::poseidon2::Poseidon2;
use miden_crypto::serialization::{
    ByteReader, Deserializable, DeserializationError, Serializable, SliceReader,
};
use miden_crypto::word::Word;
use p3_field::PrimeField64;
use p3_goldilocks::{default_goldilocks_poseidon2_12, Goldilocks};
use p3_symmetric::Permutation;

fn leaf(n: u64) -> Word {
    Word::new([Felt::new(n + 1), Felt::new(n * n), Felt::zero(), Felt::new(7)])
}

fn leaves(n: usize) -> Vec<Word> {
    (0..n as u64).map(leaf).collect()
}

fn frontier(n: usize) -> MerkleFrontier {
    let mut frontier = MerkleFrontier::default();
    for x in leaves(n) {
        frontier.append(x).unwrap();
    }
    frontier
}

fn row_above(nodes: &[Word]) -> Vec<Word> {
    nodes.chunks(2).map(|pair| Poseidon2::merge(&[pair[0], pair[1]])).collect()
}

/// All rows of the tree with the given leaves, padded with empty ones, from the leaves up.
fn tree(leaves: &[Word], depth: usize) -> Vec<Vec<Word>> {
    let mut row = leaves.to_vec();
    row.resize(1 << depth, Word::empty());
    let mut rows = vec![row];
    while rows[rows.len() - 1].len() > 1 {
        let above = row_above(&rows[rows.len() - 1]);
        rows.push(above);
    }
    rows
}

fn depth(n: usize) -> usize {
    (usize::BITS - n.leading_zeros()) as usize
}

/// The siblings from the leaf at `position` up to the given height.
fn siblings(rows: &[Vec<Word>], position: usize, height: usize) -> Vec<Word> {
    (0..height).map(|level| rows[level][(position >> level) ^ 1]).collect()
}

#[test]
fn hashes_depend_on_both_inputs_and_their_order() {
    let (a, b) = (leaf(1), leaf(2));
    let ab = Poseidon2::merge(&[a, b]);
    assert_ne!(ab, a);
    assert_ne!(ab, b);
    assert_ne!(ab, Poseidon2::merge(&[b, a]));
    assert_eq!(ab, Poseidon2::merge(&[a, b]));
    // Equal elements hash alike, whatever represents them.
    let raw = Word::new([
        Felt::new_unchecked(Felt::ORDER + 2),
        Felt::one(),
        Felt::zero(),
        Felt::new(7),
    ]);
    assert_eq!(raw, a);
    assert_eq!(Poseidon2::merge(&[raw, b]), ab);
}

#[test]
fn hashes_are_truncated_permutations() {
    let (a, b) = (leaf(3), leaf(4));
    let mut state = [Goldilocks::new(0); 12];
    for i in 0..4 {
        state[i] = Goldilocks::new(a.0[i].as_canonical_u64());
        state[4 + i] = Goldilocks::new(b.0[i].as_canonical_u64());
    }
    let out = default_goldilocks_poseidon2_12().permute(state);
    let merged = Poseidon2::merge(&[a, b]);
    for i in 0..4 {
        assert_eq!(merged.0[i].as_canonical_u64(), out[i].as_canonical_u64());
    }
}

#[test]
fn roots_are_those_of_padded_trees() {
    assert_eq!(MerkleFrontier::default().root(), Word::empty());
    for n in 1..18 {
        let rows = tree(&leaves(n), depth(n));
        assert_eq!(frontier(n).root(), rows[depth(n)][0], "root of {n} leaves");
    }
}

#[test]
fn peaks_are_the_roots_of_full_trees() {
    for n in 1..18usize {
        let f = frontier(n);
        let rows = tree(&leaves(n), depth(n));
        let mut expected = Vec::new();
        let mut start = 0;
        for height in (0..usize::BITS as usize - 1).rev() {
            if n & (1 << height) != 0 {
                expected.push(rows[height][start >> height]);
                start += 1 << height;
            }
        }
        assert_eq!(f.peaks(), &expected[..]);
        assert_eq!(f.num_peaks(), n.count_ones() as usize);
        assert_eq!(f.len(), n);
        assert_eq!(f.num_leaves(), n);
        assert!(!f.is_empty());
    }
    assert!(MerkleFrontier::default().is_empty());
}

#[test]
fn openings_become_merkle_proofs() {
    for n in 1..14usize {
        let f = frontier(n);
        let rows = tree(&leaves(n), depth(n));
        let forest = Forest::new(n).unwrap();
        for position in 0..n {
            let height = forest.leaf_to_corresponding_tree(position).unwrap() as usize;
            assert_eq!(height, depth(n ^ position) - 1);
            let opening = MmrProof::new(
                forest,
                position,
                MerklePath::new(siblings(&rows, position, height)),
                leaf(position as u64),
            );
            let proof = f.to_merkle_proof(&opening).unwrap();
            assert_eq!(proof.value, leaf(position as u64));
            assert_eq!(proof.path.nodes(), &siblings(&rows, position, depth(n)));
            assert_eq!(proof.path.depth() as usize, depth(n));
            let verified = proof.path.verify(position as u64, proof.value, &f.root());
            assert_eq!(verified, Ok(()));
        }
    }
}

/// The path above a peak leads from the peak to the root.
#[test]
fn paths_above_peaks_lead_to_the_root() {
    for n in 1..20usize {
        let f = frontier(n);
        let rows = tree(&leaves(n), depth(n));
        let forest = Forest::new(n).unwrap();
        let mut start = 0;
        for (i, peak) in f.peaks().iter().enumerate() {
            let height = forest.leaf_to_corresponding_tree(start).unwrap() as usize;
            let path = MerklePath::new(siblings(&rows, start, height));
            let opening = MmrProof::new(forest, start, path, leaf(start as u64));
            assert_eq!(opening.peak_index(), i);
            let proof = f.to_merkle_proof(&opening).unwrap();
            let above = MerklePath::new(proof.path.nodes()[height..].to_vec());
            assert_eq!(above.depth() as usize, depth(n) - height);
            let index = ((n >> (height + 1)) << 1) as u64;
            assert_eq!(above.compute_root(index, *peak), Ok(f.root()));
            start += 1 << height;
        }
    }
}

#[test]
fn openings_that_do_not_fit_are_refused() {
    let f = frontier(5);
    let forest = Forest::new(5).unwrap();
    let other = Forest::new(6).unwrap();
    let opening = |forest, position, len| {
        MmrProof::new(forest, position, MerklePath::new(leaves(len)), leaf(0))
    };
    assert_eq!(
        f.to_merkle_proof(&opening(other, 9, 0)),
        Err(MmrError::InconsistentProofForest { proof: 6, frontier: 5 })
    );
    assert_eq!(f.to_merkle_proof(&opening(forest, 5, 0)), Err(MmrError::PositionNotFound(5)));
    assert_eq!(
        f.to_merkle_proof(&opening(forest, 2, 1)),
        Err(MmrError::InvalidMerklePath(MerkleError::InvalidPathLength(2)))
    );
    assert_eq!(
        f.to_merkle_proof(&opening(forest, 4, 1)),
        Err(MmrError::InvalidMerklePath(MerkleError::InvalidPathLength(0)))
    );
    assert!(f.to_merkle_proof(&opening(forest, 4, 0)).is_ok());
}

#[test]
fn frontiers_are_checked() {
    let peaks = frontier(6).into_parts().1;
    assert_eq!(MerkleFrontier::new(6, peaks.clone()), Ok(frontier(6)));
    assert_eq!(
        MerkleFrontier::new(7, peaks.clone()),
        Err(MmrError::InvalidPeaks(
            "number of one bits in len is 3 which does not equal peak length 2".into()
        ))
    );
    assert_eq!(
        MerkleFrontier::new(0, leaves(12)),
        Err(MmrError::InvalidPeaks(
            "number of one bits in len is 0 which does not equal peak length 12".into()
        ))
    );
    assert_eq!(
        MerkleFrontier::new(usize::MAX, peaks),
        Err(MmrError::ForestSizeExceeded { requested: usize::MAX, max: Forest::MAX_LEAVES })
    );
    assert_eq!(MerkleFrontier::new(0, vec![]), Ok(MerkleFrontier::default()));
}

#[test]
fn a_full_frontier_takes_no_more_leaves() {
    let ones = Forest::MAX_LEAVES.count_ones() as usize;
    let mut f = MerkleFrontier::new(Forest::MAX_LEAVES, leaves(ones)).unwrap();
    let before = f.clone();
    assert_eq!(
        f.append(leaf(0)),
        Err(MmrError::ForestSizeExceeded {
            requested: Forest::MAX_LEAVES + 1,
            max: Forest::MAX_LEAVES
        })
    );
    assert_eq!(f, before);
    assert_eq!(
        Forest::new(Forest::MAX_LEAVES + 1),
        Err(MmrError::ForestSizeExceeded {
            requested: Forest::MAX_LEAVES + 1,
            max: Forest::MAX_LEAVES
        })
    );
}

#[test]
fn peaks_are_converted_back_and_forth() {
    let f = frontier(11);
    let peaks = MmrPeaks::from(f.clone());
    assert_eq!(peaks.num_leaves(), 11);
    assert_eq!(peaks.peaks(), f.peaks());
    assert_eq!(MerkleFrontier::from(&peaks), f);
    assert_eq!(MerkleFrontier::from(peaks.clone()), f);
    assert_eq!(f.into_legacy_peaks(), peaks);
    assert_eq!(
        MmrPeaks::new(Forest::new(3).unwrap(), leaves(1)),
        Err(MmrError::InvalidPeaks(
            "number of one bits in len is 2 which does not equal peak length 1".into()
        ))
    );
}

#[test]
fn paths_are_verified() {
    let rows = tree(&leaves(4), 2);
    let path = MerklePath::new(siblings(&rows, 2, 2));
    assert_eq!(path.compute_root(2, leaf(2)), Ok(rows[2][0]));
    assert_eq!(
        path.verify(4, leaf(2), &rows[2][0]),
        Err(MerkleError::InvalidNodeIndex { depth: 2, position: 4 })
    );
    assert_eq!(
        path.verify(2, leaf(2), &leaf(9)),
        Err(MerkleError::ConflictingRoots { expected_root: leaf(9), actual_root: rows[2][0] })
    );
    assert!(path.verify(3, leaf(2), &rows[2][0]).is_err());
}

#[test]
fn empty_subtrees() {
    let e = Word::empty();
    assert_eq!(EmptySubtreeRoots::entry(0, 0), e);
    let e1 = Poseidon2::merge(&[e, e]);
    assert_eq!(EmptySubtreeRoots::entry(5, 4), e1);
    assert_eq!(EmptySubtreeRoots::entry(2, 0), Poseidon2::merge(&[e1, e1]));
}

fn written(value: &impl Serializable) -> Vec<u8> {
    let mut bytes = Vec::new();
    value.write_into(&mut bytes);
    bytes
}

fn read<T: Deserializable>(bytes: &[u8]) -> Result<T, DeserializationError> {
    T::read_from(&mut SliceReader::new(bytes))
}

#[test]
fn numbers_as_bytes() {
    assert_eq!(written(&0usize), vec![1]);
    assert_eq!(written(&127usize), vec![255]);
    assert_eq!(written(&128usize), vec![2, 2]);
    assert_eq!(written(&300usize), vec![178, 4]);
    let largest = usize::MAX;
    assert_eq!(written(&largest).len(), 9);
    for shift in 0..usize::BITS {
        for n in [(1usize << shift) - 1, 1 << shift, (1 << shift) + 1] {
            assert_eq!(read::<usize>(&written(&n)), Ok(n));
        }
    }
    assert_eq!(read::<usize>(&written(&largest)), Ok(largest));
    assert_eq!(read::<usize>(&[]), Err(DeserializationError::UnexpectedEOF));
    assert_eq!(read::<usize>(&[2]), Err(DeserializationError::UnexpectedEOF));
    assert_eq!(read::<usize>(&[0, 1, 2]), Err(DeserializationError::UnexpectedEOF));
}

#[test]
fn words_as_bytes() {
    let w = leaf(1000);
    let bytes = written(&w);
    assert_eq!(bytes.len(), 32);
    assert_eq!(&bytes[..8], &1001u64.to_le_bytes());
    assert_eq!(read::<Word>(&bytes), Ok(w));
    assert_eq!(read::<Word>(&bytes[..31]), Err(DeserializationError::UnexpectedEOF));
    let mut invalid = bytes;
    invalid[16..24].copy_from_slice(&Felt::ORDER.to_le_bytes());
    assert_eq!(
        read::<Word>(&invalid),
        Err(DeserializationError::InvalidValue(
            "encoded value is not a canonical field element".into()
        ))
    );
}

#[test]
fn frontiers_are_read_back() {
    for n in 0..20 {
        let f = frontier(n);
        let mut bytes = written(&f);
        bytes.push(42);
        let mut reader = SliceReader::new(&bytes);
        assert_eq!(MerkleFrontier::read_from(&mut reader), Ok(f));
        assert_eq!(reader.read_u8(), Ok(42));
        assert_eq!(reader.read_u8(), Err(DeserializationError::UnexpectedEOF));
    }
}

#[test]
fn bytes_that_are_no_frontier_are_refused() {
    let f = frontier(5);
    let bytes = written(&f);
    assert_eq!(
        read::<MerkleFrontier>(&bytes[..bytes.len() - 1]),
        Err(DeserializationError::UnexpectedEOF)
    );
    assert_eq!(read::<MerkleFrontier>(&bytes[..1]), Err(DeserializationError::UnexpectedEOF));

    let mut wrong_count = written(&4usize);
    wrong_count.extend(written(&leaves(2)));
    assert_eq!(
        read::<MerkleFrontier>(&wrong_count),
        Err(DeserializationError::InvalidValue(
            "invalid frontier: number of one bits in len is 1 which does not equal peak length 2"
                .into()
        ))
    );

    // The numbers are refused before anything after them is read.
    let mut reader = SliceReader::new(&wrong_count);
    assert!(MerkleFrontier::read_from(&mut reader).is_err());
    assert_eq!(Word::read_from(&mut reader), Ok(leaf(0)));

    let too_long = Forest::MAX_LEAVES + 1;
    let mut long = written(&too_long);
    long.push(42);
    let mut reader = SliceReader::new(&long);
    assert!(MerkleFrontier::read_from(&mut reader).is_err());
    assert_eq!(reader.read_u8(), Ok(42));
    assert_eq!(
        read::<MerkleFrontier>(&written(&too_long)),
        Err(DeserializationError::InvalidValue(format!(
            "frontier length {too_long} exceeds maximum {}",
            Forest::MAX_LEAVES
        )))
    );
}
