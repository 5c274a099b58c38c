//! Words of four field elements, the digests of the hash function.

use crate::felt;
use crate::felt::Felt;
use vstd::prelude::*;

verus! {

/// Four field elements.
#[derive(Clone, Copy, Debug, Default, PartialEq, Eq)]
pub struct Word(pub [Felt; 4]);

impl View for Word {
    type V = Seq<int>;

    /// The elements of the word.
    open spec fn view(&self) -> Seq<int> {
        seq![self.0[0]@, self.0[1]@, self.0[2]@, self.0[3]@]
    }
}

/// The word with the given elements, each in its canonical representation.
pub open spec fn word(elements: Seq<int>) -> Word {
    Word(
        [
            felt::felt(elements[0]),
            felt::felt(elements[1]),
            felt::felt(elements[2]),
            felt::felt(elements[3]),
        ],
    )
}

impl Word {
    /// The word with the given elements.
    pub fn new(elements: [Felt; 4]) -> (r: Word)
        ensures
            r.0 == elements,
    {
        Word(elements)
    }

    /// The word of four zeros, which stands for an empty leaf.
    pub fn empty() -> (r: Word)
        ensures
            r == word(seq![0int, 0int, 0int, 0int]),
            r@ == seq![0int, 0int, 0int, 0int],
    {
        let r: Word = Word([Felt::zero(), Felt::zero(), Felt::zero(), Felt::zero()]);
        assert(r.0 =~= word(seq![0int, 0int, 0int, 0int]).0);
        r
    }

    /// The canonical representatives of the elements.
    pub fn as_canonical_u64s(&self) -> (r: [u64; 4])
        ensures
            r@.map_values(|x: u64| x as int) == self@,
            forall|i: int| 0 <= i < 4 ==> #[trigger] r[i] < Felt::ORDER,
    {
        let r: [u64; 4] = [
            self.0[0].as_canonical_u64(),
            self.0[1].as_canonical_u64(),
            self.0[2].as_canonical_u64(),
            self.0[3].as_canonical_u64(),
        ];
        assert(r@.map_values(|x: u64| x as int) =~= self@);
        r
    }

    /// Whether both words hold the same field elements.
    pub fn same(&self, other: &Word) -> (r: bool)
        ensures
            r == (self@ == other@),
    {
        let r: bool = self.0[0] == other.0[0] && self.0[1] == other.0[1] && self.0[2] == other.0[2]
            && self.0[3] == other.0[3];
        proof {
            if r {
                assert(self@ =~= other@);
            } else {
                assert(self@[0] != other@[0] || self@[1] != other@[1] || self@[2] != other@[2]
                    || self@[3] != other@[3]);
            }
        }
        r
    }
}

/// The elements of a word are those in its four places, and a word that is made of integers has
/// their remainders modulo `2^64 - 2^32 + 1` in its places.
pub proof fn law_elements(w: Word, elements: Seq<int>, i: int)
    requires
        0 <= i < 4,
    ensures
        w@.len() == 4,
        w@[i] == w.0[i].value as int % 0xFFFF_FFFF_0000_0001,
        word(elements).0[i].value as int == elements[i] % 0xFFFF_FFFF_0000_0001,
        word(elements)@[i] == elements[i] % 0xFFFF_FFFF_0000_0001,
{
    assert(i == 0 || i == 1 || i == 2 || i == 3);
}

/// Words whose elements have the same canonical representatives are the same when they are made of
/// those representatives.
pub proof fn law_canonical_word(a: Word, b: Word)
    ensures
        a@ == b@ ==> word(a@) == word(b@),
        word(a@)@ == a@,
        (forall|i: int| 0 <= i < 4 ==> (#[trigger] a.0[i]).value < Felt::ORDER) ==> word(a@) == a,
{
    assert(word(a@)@ =~= a@) by {
        felt::lemma_reduce_operands(a.0[0].value as int, 0);
        felt::lemma_reduce_operands(a.0[1].value as int, 0);
        felt::lemma_reduce_operands(a.0[2].value as int, 0);
        felt::lemma_reduce_operands(a.0[3].value as int, 0);
    }
    if forall|i: int| 0 <= i < 4 ==> (#[trigger] a.0[i]).value < Felt::ORDER {
        assert(a.0[0].value < Felt::ORDER);
        assert(a.0[1].value < Felt::ORDER);
        assert(a.0[2].value < Felt::ORDER);
        assert(a.0[3].value < Felt::ORDER);
        assert(word(a@).0 =~= a.0);
    }
}

} // verus!
