//! The Poseidon2 hash function, as a compression of two words into one.

use crate::felt::Felt;
use crate::word;
use crate::word::Word;
use vstd::prelude::*;

verus! {

/// What the Poseidon2 compression of two digests gives.
pub uninterp spec fn poseidon2_compress(left: Seq<int>, right: Seq<int>) -> Seq<int>;

/// The digest of two words.
pub open spec fn merge(left: Word, right: Word) -> Word {
    word::word(poseidon2_compress(left@, right@))
}

/// Compresses two digests into one with `p3_symmetric::TruncatedPermutation::compress` over the
/// default width-12 Poseidon2 permutation of `p3_goldilocks`: the permutation is applied to the
/// two digests followed by zeros, and the first four elements are kept.
///
/// It claims that the result depends on the two digests alone, and that it is handed out as
/// canonical representatives.
#[verifier::external_body]
fn goldilocks_poseidon2_compress(left: [u64; 4], right: [u64; 4]) -> (r: [u64; 4])
    ensures
        forall|i: int| 0 <= i < 4 ==> #[trigger] r[i] < Felt::ORDER,
        r@.map_values(|x: u64| x as int) == poseidon2_compress(
            left@.map_values(|x: u64| x as int),
            right@.map_values(|x: u64| x as int),
        ),
{
    let permutation = p3_goldilocks::default_goldilocks_poseidon2_12();
    let function = p3_symmetric::TruncatedPermutation::<_, 2, 4, 12>::new(permutation);
    let input = [
        left.map(p3_goldilocks::Goldilocks::new),
        right.map(p3_goldilocks::Goldilocks::new),
    ];
    let digest = p3_symmetric::PseudoCompressionFunction::compress(&function, input);
    digest.map(|x| p3_field::PrimeField64::as_canonical_u64(&x))
}

/// The Poseidon2 hash function over the Goldilocks field.
pub struct Poseidon2 {}

impl Poseidon2 {
    /// The digest of two words.
    pub fn merge(values: &[Word; 2]) -> (r: Word)
        ensures
            r == merge(values[0], values[1]),
            r@ == poseidon2_compress(values[0]@, values[1]@),
            forall|i: int| 0 <= i < 4 ==> (#[trigger] r.0[i]).value < Felt::ORDER,
    {
        let left: [u64; 4] = values[0].as_canonical_u64s();
        let right: [u64; 4] = values[1].as_canonical_u64s();
        let d: [u64; 4] = goldilocks_poseidon2_compress(left, right);
        let r: Word = Word([Felt::new(d[0]), Felt::new(d[1]), Felt::new(d[2]), Felt::new(d[3])]);
        proof {
            let digest: Seq<int> = poseidon2_compress(values[0]@, values[1]@);
            assert(digest == d@.map_values(|x: u64| x as int));
            assert(r.0 =~= word::word(digest).0);
            assert(r@ =~= digest);
        }
        r
    }
}

/// The digest of two words is the compression of the elements of the first word with those of the
/// second one, in this order. Its places hold the canonical representatives.
pub proof fn law_merge(left: Word, right: Word, i: int)
    requires
        0 <= i < 4,
    ensures
        merge(left, right).0[i].value as int == poseidon2_compress(left@, right@)[i]
            % 0xFFFF_FFFF_0000_0001,
        merge(left, right)@[i] == poseidon2_compress(left@, right@)[i] % 0xFFFF_FFFF_0000_0001,
{
    word::law_elements(left, poseidon2_compress(left@, right@), i);
}

/// The digest depends on the field elements alone, not on how they are represented.
pub proof fn law_merge_of_equal(a: Word, b: Word, c: Word, d: Word)
    requires
        a@ == c@,
        b@ == d@,
    ensures
        merge(a, b) == merge(c, d),
{
}

} // verus!
