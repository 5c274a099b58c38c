//! Merkle mountain ranges: append-only lists of leaves, held as the roots of full binary trees.

use crate::merkle::{MerkleError, MerklePath};
use crate::text;
use crate::word::Word;
use vstd::arithmetic::power2::pow2;
use vstd::prelude::*;
use vstd::string::StringExecFns;

verus! {

// BITS
// ================================================================================================

/// The number of one bits.
pub open spec fn count_ones(n: nat) -> nat
    decreases n,
{
    if n == 0 {
        0
    } else {
        n % 2 + count_ones(n / 2)
    }
}

/// The number of bits up to the highest one bit.
pub open spec fn bit_len(n: nat) -> nat
    decreases n,
{
    if n == 0 {
        0
    } else {
        1 + bit_len(n / 2)
    }
}

/// A number lies between the powers of two that its length in bits stands for.
pub proof fn lemma_bit_len(n: nat)
    ensures
        n < pow2(bit_len(n)),
        n > 0 ==> pow2((bit_len(n) - 1) as nat) <= n,
        count_ones(n) <= bit_len(n),
    decreases n,
{
    vstd::arithmetic::power2::lemma2_to64();
    if n > 0 {
        lemma_bit_len(n / 2);
        vstd::arithmetic::power2::lemma_pow2_unfold(bit_len(n));
        if n / 2 > 0 {
            vstd::arithmetic::power2::lemma_pow2_unfold((bit_len(n) - 1) as nat);
        }
    }
}

/// A number that fits in `bits` bits is at most that long.
pub proof fn lemma_bit_len_bound(n: nat, bits: nat)
    requires
        n < pow2(bits),
    ensures
        bit_len(n) <= bits,
    decreases bits,
{
    vstd::arithmetic::power2::lemma2_to64();
    if n > 0 {
        if bits == 0 {
            assert(false);
        }
        vstd::arithmetic::power2::lemma_pow2_unfold(bits);
        lemma_bit_len_bound(n / 2, (bits - 1) as nat);
    }
}

/// A machine word is at most 64 bits long.
pub proof fn lemma_usize_bit_len(n: usize)
    ensures
        bit_len(n as nat) <= 64,
{
    vstd::arithmetic::power2::lemma2_to64();
    vstd::arithmetic::power2::lemma2_to64_rest();
    lemma_bit_len_bound(n as nat, 64);
}

// TREES OF A FOREST
// ================================================================================================

/// The height of the tree that holds the leaf at `position` in a forest of `len` leaves: the
/// highest bit in which the two numbers differ.
pub open spec fn tree_height(len: nat, position: nat) -> nat
    decreases len,
{
    if position / 2 == len / 2 || len == 0 {
        0
    } else {
        1 + tree_height(len / 2, position / 2)
    }
}

/// The number of trees that come before the one that holds the leaf at `position`.
pub open spec fn tree_index(len: nat, position: nat) -> nat
    decreases len,
{
    if position / 2 == len / 2 || len == 0 {
        count_ones(len / 2)
    } else {
        tree_index(len / 2, position / 2)
    }
}

/// The tree that holds a leaf is one of the forest's, and in the row of its root it comes right
/// before the first node that is not complete.
pub proof fn lemma_tree_of_leaf(len: nat, position: nat)
    requires
        position < len,
    ensures
        tree_index(len, position) < count_ones(len),
        tree_height(len, position) < bit_len(len),
        position / pow2(tree_height(len, position)) + 1 == len / pow2(tree_height(len, position)),
        (len / pow2(tree_height(len, position))) % 2 == 1,
    decreases len,
{
    vstd::arithmetic::power2::lemma2_to64();
    if position / 2 == len / 2 {
        assert(len % 2 == 1 && position + 1 == len);
        assert(position / 1 == position && len / 1 == len);
    } else {
        let k: nat = tree_height(len / 2, position / 2);
        lemma_tree_of_leaf(len / 2, position / 2);
        vstd::arithmetic::power2::lemma_pow2_unfold(k + 1);
        vstd::arithmetic::power2::lemma_pow2_pos(k);
        vstd::arithmetic::div_mod::lemma_div_denominator(len as int, 2, pow2(k) as int);
        vstd::arithmetic::div_mod::lemma_div_denominator(position as int, 2, pow2(k) as int);
    }
}

/// The height of the tree with the given index in a forest of `len` leaves: the position of the bit
/// that has as many one bits above it.
pub open spec fn peak_height(len: nat, index: nat) -> nat
    decreases len,
{
    if len == 0 || len % 2 == 1 && index == count_ones(len / 2) {
        0
    } else {
        1 + peak_height(len / 2, index)
    }
}

/// At the height of a tree there is a one bit, with as many one bits above it as there are trees
/// before the tree.
pub proof fn lemma_peak_height(len: nat, index: nat)
    requires
        index < count_ones(len),
    ensures
        peak_height(len, index) < bit_len(len),
        (len / pow2(peak_height(len, index))) % 2 == 1,
        count_ones(len / pow2(peak_height(len, index) + 1)) == index,
    decreases len,
{
    vstd::arithmetic::power2::lemma2_to64();
    if len % 2 == 1 && index == count_ones(len / 2) {
        assert(len / 1 == len);
    } else {
        let k: nat = peak_height(len / 2, index);
        lemma_peak_height(len / 2, index);
        vstd::arithmetic::power2::lemma_pow2_unfold(k + 1);
        vstd::arithmetic::power2::lemma_pow2_unfold(k + 2);
        vstd::arithmetic::power2::lemma_pow2_pos(k);
        vstd::arithmetic::power2::lemma_pow2_pos(k + 1);
        vstd::arithmetic::div_mod::lemma_div_denominator(len as int, 2, pow2(k) as int);
        vstd::arithmetic::div_mod::lemma_div_denominator(len as int, 2, pow2(k + 1) as int);
    }
}

/// The tree that holds a leaf has the same height by its index as by the position of the leaf.
pub proof fn lemma_peak_of_leaf(len: nat, position: nat)
    requires
        position < len,
    ensures
        peak_height(len, tree_index(len, position)) == tree_height(len, position),
        tree_index(len, position) < count_ones(len),
    decreases len,
{
    if position / 2 != len / 2 {
        lemma_peak_of_leaf(len / 2, position / 2);
    }
}

// ERRORS
// ================================================================================================

/// What can be wrong with a Merkle mountain range, its peaks or its proofs.
#[derive(Clone, Debug, PartialEq, Eq)]
pub enum MmrError {
    /// More leaves are asked for than a forest can hold.
    ForestSizeExceeded { requested: usize, max: usize },
    /// The peaks do not fit the number of leaves.
    InvalidPeaks(String),
    /// A proof was made for a forest of another size.
    InconsistentProofForest { proof: usize, frontier: usize },
    /// There is no leaf at this position.
    PositionNotFound(usize),
    /// The path of a proof is not valid.
    InvalidMerklePath(MerkleError),
    /// There is no peak with this index.
    PeakOutOfBounds { peak_idx: usize, peaks_len: usize },
}

/// The text that says how many peaks there should have been.
pub open spec fn peak_count_text(expected: nat, found: nat) -> Seq<char> {
    "number of one bits in len is "@ + text::decimal_text(expected)
        + " which does not equal peak length "@ + text::decimal_text(found)
}

/// The text that says how many peaks there should have been.
pub fn peak_count_message(expected: usize, found: usize) -> (r: String)
    ensures
        r@ == peak_count_text(expected as nat, found as nat),
{
    let mut r: String = String::from_str("number of one bits in len is ");
    text::append_decimal(&mut r, expected);
    r.append(" which does not equal peak length ");
    text::append_decimal(&mut r, found);
    r
}

// FOREST
// ================================================================================================

/// The sizes of the trees in a Merkle mountain range: one tree of `2^i` leaves for each one bit
/// `i` of the number of leaves.
#[derive(Clone, Copy, Debug, PartialEq, Eq)]
pub struct Forest {
    num_leaves: usize,
}

impl View for Forest {
    type V = nat;

    /// The number of leaves.
    closed spec fn view(&self) -> nat {
        self.num_leaves as nat
    }
}

impl Forest {
    /// The most leaves that a forest can hold.
    pub const MAX_LEAVES: usize = usize::MAX / 2;

    #[verifier::type_invariant]
    spec fn inv(self) -> bool {
        self.num_leaves <= Self::MAX_LEAVES
    }

    /// The forest with the given number of leaves.
    pub fn new(num_leaves: usize) -> (r: Result<Forest, MmrError>)
        ensures
            num_leaves <= Self::MAX_LEAVES ==> (r matches Ok(forest) && forest@ == num_leaves),
            num_leaves > Self::MAX_LEAVES ==> r == Err::<Forest, MmrError>(
                MmrError::ForestSizeExceeded { requested: num_leaves, max: Self::MAX_LEAVES },
            ),
    {
        if !Self::is_valid_size(num_leaves) {
            return Err(
                MmrError::ForestSizeExceeded { requested: num_leaves, max: Self::MAX_LEAVES },
            );
        }
        Ok(Forest { num_leaves })
    }

    /// Whether a forest can have this number of leaves.
    pub fn is_valid_size(num_leaves: usize) -> (r: bool)
        ensures
            r == (num_leaves <= Self::MAX_LEAVES),
    {
        num_leaves <= Self::MAX_LEAVES
    }

    /// The number of leaves in all trees.
    pub fn num_leaves(self) -> (r: usize)
        ensures
            r == self@,
            r <= Self::MAX_LEAVES,
    {
        proof {
            use_type_invariant(&self);
        }
        self.num_leaves
    }

    /// The number of trees.
    pub fn num_trees(self) -> (r: usize)
        ensures
            r == count_ones(self@),
    {
        let mut bits: usize = self.num_leaves;
        let mut r: usize = 0;
        proof {
            lemma_bit_len(self@);
            lemma_usize_bit_len(self.num_leaves);
        }
        while bits != 0
            invariant
                r + count_ones(bits as nat) == count_ones(self@),
                count_ones(self@) <= 64,
            decreases bits,
        {
            r = r + bits % 2;
            bits = bits / 2;
        }
        r
    }

    /// The height of the tree that holds the leaf at the given position, or `None` where there is
    /// no such leaf.
    pub fn leaf_to_corresponding_tree(self, position: usize) -> (r: Option<u32>)
        ensures
            position >= self@ ==> r is None,
            position < self@ ==> r == Some(tree_height(self@, position as nat) as u32),
            position < self@ ==> tree_height(self@, position as nat) < 64,
            r matches Some(height) ==> (self@ / pow2(height as nat)) % 2 == 1 && position as nat
                / pow2(height as nat) + 1 == self@ / pow2(height as nat),
    {
        if position >= self.num_leaves {
            return None;
        }
        let mut bits: usize = self.num_leaves;
        let mut rest: usize = position;
        let mut height: u32 = 0;
        proof {
            lemma_tree_of_leaf(self@, position as nat);
            lemma_usize_bit_len(self.num_leaves);
        }
        while bits / 2 != rest / 2
            invariant
                rest < bits,
                height + tree_height(bits as nat, rest as nat) == tree_height(
                    self@,
                    position as nat,
                ),
                tree_height(self@, position as nat) < 64,
            decreases bits,
        {
            bits = bits / 2;
            rest = rest / 2;
            height = height + 1;
        }
        Some(height)
    }
}

// PEAKS
// ================================================================================================

/// The state of an append-only list of leaves: how many there are, and the roots of the full trees
/// that they form, from the largest tree to the smallest.
#[verifier::ext_equal]
pub struct PeaksView {
    pub len: nat,
    pub peaks: Seq<Word>,
}

impl PeaksView {
    /// There is one peak for each one bit of the number of leaves.
    pub open spec fn wf(&self) -> bool {
        &&& self.len <= Forest::MAX_LEAVES
        &&& self.peaks.len() == count_ones(self.len)
    }
}

/// The peaks of a Merkle mountain range, from the largest tree to the smallest.
#[derive(Debug, PartialEq, Eq)]
pub struct MmrPeaks {
    forest: Forest,
    peaks: Vec<Word>,
}

impl View for MmrPeaks {
    type V = PeaksView;

    closed spec fn view(&self) -> PeaksView {
        PeaksView { len: self.forest@, peaks: self.peaks@ }
    }
}

impl Clone for MmrPeaks {
    fn clone(&self) -> (r: MmrPeaks)
        ensures
            r@ == self@,
    {
        proof {
            use_type_invariant(self);
        }
        let peaks: Vec<Word> = self.peaks.clone();
        assert(peaks@ =~= self.peaks@);
        MmrPeaks { forest: self.forest, peaks }
    }
}

impl MmrPeaks {
    #[verifier::type_invariant]
    spec fn inv(self) -> bool {
        self@.wf()
    }

    /// The peaks of the given forest.
    pub fn new(forest: Forest, peaks: Vec<Word>) -> (r: Result<MmrPeaks, MmrError>)
        ensures
            peaks@.len() == count_ones(forest@) ==> (r matches Ok(x) && x@ == (PeaksView {
                len: forest@,
                peaks: peaks@,
            }) && x@.wf()),
            peaks@.len() != count_ones(forest@) ==> (r matches Err(MmrError::InvalidPeaks(message))
                && message@ == peak_count_text(count_ones(forest@), peaks@.len())),
    {
        let expected: usize = forest.num_trees();
        if expected != peaks.len() {
            return Err(MmrError::InvalidPeaks(peak_count_message(expected, peaks.len())));
        }
        proof {
            use_type_invariant(&forest);
        }
        Ok(MmrPeaks { forest, peaks })
    }

    /// The forest that the peaks are the roots of.
    pub fn forest(&self) -> (r: Forest)
        ensures
            r@ == self@.len,
    {
        self.forest
    }

    /// The number of leaves below the peaks.
    pub fn num_leaves(&self) -> (r: usize)
        ensures
            r == self@.len,
            self@.wf(),
    {
        proof {
            use_type_invariant(self);
        }
        self.forest.num_leaves()
    }

    /// The peaks, from the largest tree to the smallest.
    pub fn peaks(&self) -> (r: &[Word])
        ensures
            r@ == self@.peaks,
    {
        self.peaks.as_slice()
    }

    /// The forest and the peaks.
    pub fn into_parts(self) -> (r: (Forest, Vec<Word>))
        ensures
            r.0@ == self@.len,
            r.1@ == self@.peaks,
            self@.wf(),
    {
        proof {
            use_type_invariant(&self);
        }
        (self.forest, self.peaks)
    }
}

// PROOFS
// ================================================================================================

/// The opening of a leaf of a Merkle mountain range, up to the root of the tree that holds it.
#[derive(Clone, Debug, PartialEq, Eq)]
pub struct MmrProof {
    forest: Forest,
    position: usize,
    merkle_path: MerklePath,
    leaf: Word,
}

/// What the opening of a leaf says.
#[verifier::ext_equal]
pub struct OpeningView {
    /// The number of leaves of the forest.
    pub len: nat,
    /// The position of the leaf among all leaves.
    pub position: nat,
    /// The siblings from the leaf up to the root of its tree.
    pub path: Seq<Word>,
    /// The leaf.
    pub leaf: Word,
}

impl View for MmrProof {
    type V = OpeningView;

    closed spec fn view(&self) -> OpeningView {
        OpeningView {
            len: self.forest@,
            position: self.position as nat,
            path: self.merkle_path@,
            leaf: self.leaf,
        }
    }
}

impl MmrProof {
    /// The opening of the leaf at `position` in the given forest.
    pub fn new(forest: Forest, position: usize, merkle_path: MerklePath, leaf: Word) -> (r: MmrProof)
        ensures
            r@ == (OpeningView {
                len: forest@,
                position: position as nat,
                path: merkle_path@,
                leaf,
            }),
    {
        MmrProof { forest, position, merkle_path, leaf }
    }

    /// The forest that the opening was made for.
    pub fn forest(&self) -> (r: Forest)
        ensures
            r@ == self@.len,
    {
        self.forest
    }

    /// The position of the leaf among all leaves.
    pub fn position(&self) -> (r: usize)
        ensures
            r == self@.position,
    {
        self.position
    }

    /// The path from the leaf up to the root of its tree.
    pub fn merkle_path(&self) -> (r: &MerklePath)
        ensures
            r@ == self@.path,
    {
        &self.merkle_path
    }

    /// The leaf.
    pub fn leaf(&self) -> (r: Word)
        ensures
            r == self@.leaf,
    {
        self.leaf
    }

    /// The index of the peak that the path leads to.
    pub fn peak_index(&self) -> (r: usize)
        requires
            self@.position < self@.len,
        ensures
            r == tree_index(self@.len, self@.position),
            r < count_ones(self@.len),
            forall|height: nat|
                (self@.len / #[trigger] pow2(height)) % 2 == 1 && self@.position / pow2(height) + 1
                    == self@.len / pow2(height) ==> r == count_ones(self@.len / pow2(height) / 2),
    {
        let mut bits: usize = self.forest.num_leaves();
        let mut rest: usize = self.position;
        proof {
            lemma_tree_of_leaf(self@.len, self@.position);
            assert forall|height: nat|
                (self@.len / #[trigger] pow2(height)) % 2 == 1 && self@.position / pow2(height) + 1
                    == self@.len / pow2(height) implies tree_index(self@.len, self@.position)
                == count_ones(self@.len / pow2(height) / 2) by {
                law_tree_of_leaf(self@.len, self@.position, height);
            }
        }
        while bits / 2 != rest / 2
            invariant
                rest < bits <= Forest::MAX_LEAVES,
                tree_index(bits as nat, rest as nat) == tree_index(self@.len, self@.position),
            decreases bits,
        {
            bits = bits / 2;
            rest = rest / 2;
        }
        match Forest::new(bits / 2) {
            Ok(larger) => larger.num_trees(),
            Err(_) => 0,
        }
    }
}

// LAWS
// ================================================================================================

/// Doubling a number adds a zero bit to it, and adding one to the double makes that a one bit.
pub proof fn law_count_ones(n: nat)
    ensures
        count_ones(0) == 0,
        count_ones(2 * n) == count_ones(n),
        count_ones(2 * n + 1) == count_ones(n) + 1,
{
    assert((2 * n) / 2 == n && (2 * n) % 2 == 0);
    assert((2 * n + 1) / 2 == n && (2 * n + 1) % 2 == 1);
}

/// A number that is not zero has the length whose powers of two it lies between, and zero has none.
pub proof fn law_bit_len(n: nat, bits: nat)
    ensures
        bit_len(0) == 0,
        n > 0 ==> pow2((bit_len(n) - 1) as nat) <= n < pow2(bit_len(n)),
        bits > 0 && pow2((bits - 1) as nat) <= n < pow2(bits) ==> bit_len(n) == bits,
{
    lemma_bit_len(n);
    if bits > 0 && pow2((bits - 1) as nat) <= n < pow2(bits) {
        lemma_bit_len_bound(n, bits);
        vstd::arithmetic::power2::lemma_pow2_pos((bits - 1) as nat);
        if bit_len(n) < bits - 1 {
            vstd::arithmetic::power2::lemma_pow2_strictly_increases(
                bit_len(n),
                (bits - 1) as nat,
            );
        }
    }
}

/// The tree that holds a leaf has the given height exactly where this bit of the number of leaves is
/// one and the node above the leaf is the last complete one in its row. As many trees come before it
/// as there are one bits above that bit.
pub proof fn law_tree_of_leaf(len: nat, position: nat, height: nat)
    requires
        position < len,
    ensures
        (len / pow2(height)) % 2 == 1 && position / pow2(height) + 1 == len / pow2(height) <==> height
            == tree_height(len, position),
        height == tree_height(len, position) ==> tree_index(len, position) == count_ones(
            len / pow2(height) / 2,
        ),
    decreases len,
{
    lemma_tree_of_leaf(len, position);
    vstd::arithmetic::power2::lemma2_to64();
    assert(position / 1 == position && len / 1 == len);
    if height > 0 {
        let k: nat = (height - 1) as nat;
        let p: int = pow2(k) as int;
        vstd::arithmetic::power2::lemma_pow2_unfold(height);
        vstd::arithmetic::power2::lemma_pow2_pos(k);
        vstd::arithmetic::div_mod::lemma_div_denominator(len as int, 2, p);
        vstd::arithmetic::div_mod::lemma_div_denominator(position as int, 2, p);
        if position / 2 != len / 2 {
            law_tree_of_leaf(len / 2, position / 2, k);
        }
    }
}

/// The tree with a given index is the one whose bit has as many one bits above it.
pub proof fn law_peak_height(len: nat, index: nat, height: nat)
    requires
        index < count_ones(len),
    ensures
        (len / pow2(height)) % 2 == 1 && count_ones(len / pow2(height) / 2) == index <==> height
            == peak_height(len, index),
    decreases len,
{
    vstd::arithmetic::power2::lemma2_to64();
    assert(len / 1 == len);
    if height > 0 {
        let k: nat = (height - 1) as nat;
        vstd::arithmetic::power2::lemma_pow2_unfold(height);
        vstd::arithmetic::power2::lemma_pow2_pos(k);
        vstd::arithmetic::div_mod::lemma_div_denominator(len as int, 2, pow2(k) as int);
        if (len / pow2(height)) % 2 == 1 {
            lemma_ones_above(len / 2, k);
        }
        if index < count_ones(len / 2) {
            law_peak_height(len / 2, index, k);
        }
    } else if len % 2 == 0 {
        lemma_peak_height(len, index);
    }
}

/// There are fewer one bits above a one bit than in the whole number.
pub proof fn lemma_ones_above(n: nat, height: nat)
    requires
        (n / pow2(height)) % 2 == 1,
    ensures
        count_ones(n / pow2(height) / 2) < count_ones(n),
    decreases height,
{
    vstd::arithmetic::power2::lemma2_to64();
    assert(n / 1 == n);
    if height > 0 {
        let k: nat = (height - 1) as nat;
        vstd::arithmetic::power2::lemma_pow2_unfold(height);
        vstd::arithmetic::power2::lemma_pow2_pos(k);
        vstd::arithmetic::div_mod::lemma_div_denominator(n as int, 2, pow2(k) as int);
        if n == 0 {
            vstd::arithmetic::div_mod::lemma_basic_div(0, pow2(height) as int);
        }
        lemma_ones_above(n / 2, k);
    }
}

/// Peaks are valid where there are no more leaves than half of the machine's numbers, and one peak
/// for each one bit of their number.
pub proof fn law_valid_peaks(peaks: PeaksView)
    ensures
        peaks.wf() <==> peaks.len <= usize::MAX / 2 && peaks.peaks.len() == count_ones(peaks.len),
{
}

/// The text about the number of peaks names the expected number and the number that was found.
pub proof fn law_peak_count_text(expected: nat, found: nat)
    ensures
        peak_count_text(expected, found) == "number of one bits in len is "@ + (text::decimal_text(
            expected,
        ) + (" which does not equal peak length "@ + text::decimal_text(found))),
{
}

} // verus!
