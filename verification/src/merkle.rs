//! Merkle trees, their empty subtrees and their authentication paths.

use crate::poseidon2;
use crate::poseidon2::Poseidon2;
use crate::word;
use crate::word::Word;
use vstd::arithmetic::power2::pow2;
use vstd::prelude::*;

verus! {

// TREES
// ================================================================================================

/// The root of the subtree of the given height whose leaves are all empty.
pub open spec fn empty_root(height: nat) -> Word
    decreases height,
{
    if height == 0 {
        word::word(seq![0int, 0int, 0int, 0int])
    } else {
        poseidon2::merge(empty_root((height - 1) as nat), empty_root((height - 1) as nat))
    }
}

/// The parents of a row of nodes. A last node without a sibling is paired with `pad`.
pub open spec fn parents(nodes: Seq<Word>, pad: Word) -> Seq<Word> {
    Seq::new(
        (nodes.len() + 1) / 2,
        |i: int|
            poseidon2::merge(
                nodes[2 * i],
                if 2 * i + 1 < nodes.len() {
                    nodes[2 * i + 1]
                } else {
                    pad
                },
            ),
    )
}

/// The root of the complete tree that has `2^depth` nodes at the bottom: the given ones, followed
/// by roots of empty subtrees of height `level`.
pub open spec fn padded_root(nodes: Seq<Word>, level: nat, depth: nat) -> Word
    decreases depth,
{
    if depth == 0 {
        if nodes.len() == 0 {
            empty_root(level)
        } else {
            nodes[0]
        }
    } else {
        padded_root(parents(nodes, empty_root(level)), level + 1, (depth - 1) as nat)
    }
}

/// The root of the Merkle tree of the given depth whose first leaves are the given ones and whose
/// other leaves are empty.
pub open spec fn tree_root(leaves: Seq<Word>, depth: nat) -> Word {
    padded_root(leaves, 0, depth)
}

/// The node that an authentication path leads to from a node at the given index of its row.
pub open spec fn path_root(path: Seq<Word>, index: nat, node: Word) -> Word
    decreases path.len(),
{
    if path.len() == 0 {
        node
    } else {
        path_root(
            path.drop_first(),
            index / 2,
            if index % 2 == 1 {
                poseidon2::merge(path[0], node)
            } else {
                poseidon2::merge(node, path[0])
            },
        )
    }
}

/// An empty node at the end of a row changes nothing.
pub proof fn lemma_push_empty(nodes: Seq<Word>, level: nat, depth: nat)
    requires
        nodes.len() < pow2(depth),
    ensures
        padded_root(nodes.push(empty_root(level)), level, depth) == padded_root(
            nodes,
            level,
            depth,
        ),
    decreases depth,
{
    let e: Word = empty_root(level);
    vstd::arithmetic::power2::lemma2_to64();
    if depth > 0 {
        vstd::arithmetic::power2::lemma_pow2_unfold(depth);
        if nodes.len() % 2 == 1 {
            assert(parents(nodes.push(e), e) =~= parents(nodes, e));
        } else {
            assert(empty_root(level + 1) == poseidon2::merge(e, e));
            assert(parents(nodes.push(e), e) =~= parents(nodes, e).push(empty_root(level + 1)));
            lemma_push_empty(parents(nodes, e), level + 1, (depth - 1) as nat);
        }
    }
}

/// A path that is made of two leads where the second leads from where the first does.
pub proof fn lemma_path_concat(first: Seq<Word>, second: Seq<Word>, index: nat, node: Word)
    ensures
        path_root(first + second, index, node) == path_root(
            second,
            index / pow2(first.len()),
            path_root(first, index, node),
        ),
    decreases first.len(),
{
    if first.len() == 0 {
        vstd::arithmetic::power2::lemma2_to64();
        assert(first + second =~= second);
        assert(index / 1 == index);
    } else {
        let next: Word = if index % 2 == 1 {
            poseidon2::merge(first[0], node)
        } else {
            poseidon2::merge(node, first[0])
        };
        let rest: Seq<Word> = first.drop_first();
        assert((first + second).drop_first() =~= rest + second);
        lemma_path_concat(rest, second, index / 2, next);
        vstd::arithmetic::power2::lemma_pow2_unfold(first.len());
        vstd::arithmetic::power2::lemma_pow2_pos(rest.len());
        vstd::arithmetic::div_mod::lemma_div_denominator(
            index as int,
            2,
            pow2(rest.len()) as int,
        );
    }
}

/// Only as many bits of the index matter as the path has nodes.
pub proof fn lemma_path_index(path: Seq<Word>, index: nat, other: nat, node: Word)
    requires
        index % pow2(path.len()) == other % pow2(path.len()),
    ensures
        path_root(path, index, node) == path_root(path, other, node),
    decreases path.len(),
{
    if path.len() > 0 {
        let rest: Seq<Word> = path.drop_first();
        let p: nat = pow2(rest.len());
        vstd::arithmetic::power2::lemma_pow2_unfold(path.len());
        vstd::arithmetic::power2::lemma_pow2_pos(rest.len());
        vstd::arithmetic::div_mod::lemma_mod_breakdown(index as int, 2, p as int);
        vstd::arithmetic::div_mod::lemma_mod_breakdown(other as int, 2, p as int);
        let next: Word = if index % 2 == 1 {
            poseidon2::merge(path[0], node)
        } else {
            poseidon2::merge(node, path[0])
        };
        lemma_path_index(rest, index / 2, other / 2, next);
    }
}

/// A path leads to the same root from all representations of a node.
pub proof fn lemma_path_of_equal(path: Seq<Word>, index: nat, node: Word, other: Word)
    requires
        path.len() > 0,
        node@ == other@,
    ensures
        path_root(path, index, node) == path_root(path, index, other),
{
}

// EMPTY SUBTREES
// ================================================================================================

/// The roots of subtrees that hold no leaf.
pub struct EmptySubtreeRoots {}

impl EmptySubtreeRoots {
    /// The root of the empty subtree at depth `node_depth` of a tree of depth `tree_depth`.
    pub fn entry(tree_depth: u8, node_depth: u8) -> (r: Word)
        requires
            node_depth <= tree_depth,
        ensures
            r == empty_root((tree_depth - node_depth) as nat),
    {
        let mut r: Word = Word::empty();
        let height: u8 = tree_depth - node_depth;
        for h in 0..height
            invariant
                r == empty_root(h as nat),
        {
            r = Poseidon2::merge(&[r, r]);
        }
        r
    }
}

// PATHS
// ================================================================================================

/// What can be wrong with a Merkle path.
#[derive(Clone, Debug, PartialEq, Eq)]
pub enum MerkleError {
    /// The path does not have the given number of nodes.
    InvalidPathLength(usize),
    /// There is no node at this position of this depth.
    InvalidNodeIndex { depth: u8, position: u64 },
    /// The path leads to another root than the expected one.
    ConflictingRoots { expected_root: Word, actual_root: Word },
}

/// The siblings of the nodes on the way from a node up to the root.
#[derive(Debug, PartialEq, Eq)]
pub struct MerklePath {
    nodes: Vec<Word>,
}

impl View for MerklePath {
    type V = Seq<Word>;

    /// The siblings, from the bottom up.
    closed spec fn view(&self) -> Seq<Word> {
        self.nodes@
    }
}

impl Clone for MerklePath {
    fn clone(&self) -> (r: MerklePath)
        ensures
            r@ == self@,
    {
        proof {
            use_type_invariant(self);
        }
        let nodes: Vec<Word> = self.nodes.clone();
        assert(nodes@ =~= self.nodes@);
        MerklePath { nodes }
    }
}

impl MerklePath {
    /// A path is short enough for its length to be a depth.
    #[verifier::type_invariant]
    spec fn inv(self) -> bool {
        self.nodes@.len() <= u8::MAX
    }

    /// The path with the given siblings, from the bottom up.
    pub fn new(nodes: Vec<Word>) -> (r: MerklePath)
        requires
            nodes@.len() <= u8::MAX,
        ensures
            r@ == nodes@,
    {
        MerklePath { nodes }
    }

    /// The number of nodes in the path.
    pub fn depth(&self) -> (r: u8)
        ensures
            r == self@.len(),
    {
        proof {
            use_type_invariant(self);
        }
        self.nodes.len() as u8
    }

    /// The siblings, from the bottom up.
    pub fn nodes(&self) -> (r: &Vec<Word>)
        ensures
            r@ == self@,
    {
        &self.nodes
    }

    /// The root that the path leads to from `node` at position `index`.
    pub fn compute_root(&self, index: u64, node: Word) -> (r: Result<Word, MerkleError>)
        ensures
            index < pow2(self@.len()) ==> r == Ok::<Word, MerkleError>(
                path_root(self@, index as nat, node),
            ),
            index >= pow2(self@.len()) ==> r == Err::<Word, MerkleError>(
                MerkleError::InvalidNodeIndex { depth: self@.len() as u8, position: index },
            ),
    {
        proof {
            use_type_invariant(self);
        }
        let mut node: Word = node;
        let mut position: u64 = index;
        let len: usize = self.nodes.len();
        let ghost start: Word = node;
        proof {
            vstd::arithmetic::power2::lemma2_to64();
            assert(self@.take(0) =~= Seq::<Word>::empty());
            assert(self@.skip(0) =~= self@);
            assert(index as nat / 1 == index as nat);
        }
        for i in 0..len
            invariant
                len == self@.len(),
                position as nat == index as nat / pow2(i as nat),
                path_root(self@.skip(i as int), position as nat, node) == path_root(
                    self@,
                    index as nat,
                    start,
                ),
        {
            proof {
                assert(self@.skip(i as int).drop_first() =~= self@.skip(i + 1));
                vstd::arithmetic::power2::lemma_pow2_unfold((i + 1) as nat);
                vstd::arithmetic::power2::lemma_pow2_pos(i as nat);
                vstd::arithmetic::div_mod::lemma_div_denominator(
                    index as int,
                    pow2(i as nat) as int,
                    2,
                );
                assert(pow2(i as nat) * 2 == pow2((i + 1) as nat));
            }
            let sibling: Word = self.nodes[i];
            node = if position % 2 == 1 {
                Poseidon2::merge(&[sibling, node])
            } else {
                Poseidon2::merge(&[node, sibling])
            };
            position = position / 2;
        }
        proof {
            vstd::arithmetic::power2::lemma_pow2_pos(len as nat);
            let p: int = pow2(len as nat) as int;
            vstd::arithmetic::div_mod::lemma_fundamental_div_mod(index as int, p);
            if index < p {
                vstd::arithmetic::div_mod::lemma_basic_div(index as int, p);
            } else {
                vstd::arithmetic::div_mod::lemma_div_non_zero(index as int, p);
            }
        }
        if position != 0 {
            return Err(MerkleError::InvalidNodeIndex { depth: len as u8, position: index });
        }
        Ok(node)
    }

    /// Checks that the path leads from `node` at position `index` to `root`.
    pub fn verify(&self, index: u64, node: Word, root: &Word) -> (r: Result<(), MerkleError>)
        ensures
            r is Ok <==> index < pow2(self@.len()) && path_root(self@, index as nat, node)@
                == root@,
            index >= pow2(self@.len()) ==> r == Err::<(), MerkleError>(
                MerkleError::InvalidNodeIndex { depth: self@.len() as u8, position: index },
            ),
            index < pow2(self@.len()) && r is Err ==> r == Err::<(), MerkleError>(
                MerkleError::ConflictingRoots {
                    expected_root: *root,
                    actual_root: path_root(self@, index as nat, node),
                },
            ),
    {
        let actual_root: Word = self.compute_root(index, node)?;
        if actual_root.same(root) {
            Ok(())
        } else {
            Err(MerkleError::ConflictingRoots { expected_root: *root, actual_root })
        }
    }
}

/// A node of a Merkle tree with the path from it to the root.
#[derive(Clone, Debug, PartialEq, Eq)]
pub struct MerkleProof {
    pub value: Word,
    pub path: MerklePath,
}

impl MerkleProof {
    /// The proof made of the given node and path.
    pub fn new(value: Word, path: MerklePath) -> (r: MerkleProof)
        ensures
            r.value == value,
            r.path == path,
    {
        MerkleProof { value, path }
    }
}

// LAWS
// ================================================================================================

/// The root of an empty subtree of height zero is four zeros, and that of a higher one is the digest
/// of two roots of empty subtrees that are lower by one.
pub proof fn law_empty_root(height: nat, i: int)
    requires
        0 <= i < 4,
    ensures
        empty_root(0).0[i].value == 0,
        empty_root(height + 1) == poseidon2::merge(empty_root(height), empty_root(height)),
        empty_root(height + 1).0[i].value as int == poseidon2::poseidon2_compress(
            empty_root(height)@,
            empty_root(height)@,
        )[i] % 0xFFFF_FFFF_0000_0001,
{
    word::law_elements(empty_root(0), seq![0int, 0int, 0int, 0int], i);
    poseidon2::law_merge(empty_root(height), empty_root(height), i);
}

/// The row above a row of nodes has the digest of each pair of adjacent nodes, and a last node
/// without a sibling is paired with the padding.
pub proof fn law_parents(nodes: Seq<Word>, pad: Word, i: int)
    ensures
        2 * parents(nodes, pad).len() == nodes.len() + nodes.len() % 2,
        0 <= i && 2 * i + 1 < nodes.len() ==> parents(nodes, pad)[i] == poseidon2::merge(
            nodes[2 * i],
            nodes[2 * i + 1],
        ),
        0 <= i && 2 * i + 1 == nodes.len() ==> parents(nodes, pad)[i] == poseidon2::merge(
            nodes[2 * i],
            pad,
        ),
{
}

/// A path leads from a node through one node on each level to the root: the next node is the digest
/// of the one before it and its sibling in the path. The node comes second where the bit of the index
/// on this level is one, and first where it is zero.
pub proof fn law_path_root(path: Seq<Word>, index: nat, node: Word, nodes: Seq<Word>)
    requires
        nodes.len() == path.len() + 1,
        nodes[0] == node,
        forall|h: int, up: int|
            up == h + 1 && 0 <= h < path.len() ==> #[trigger] nodes[up] == if (index / pow2(
                h as nat,
            )) % 2 == 1 {
                poseidon2::merge(path[h], #[trigger] nodes[h])
            } else {
                poseidon2::merge(nodes[h], path[h])
            },
    ensures
        path_root(path, index, node) == nodes.last(),
    decreases path.len(),
{
    if path.len() > 0 {
        let rest: Seq<Word> = path.drop_first();
        let above: Seq<Word> = nodes.drop_first();
        vstd::arithmetic::power2::lemma2_to64();
        assert(index / 1 == index);
        assert(nodes[1] == if (index / pow2(0)) % 2 == 1 {
            poseidon2::merge(path[0], nodes[0])
        } else {
            poseidon2::merge(nodes[0], path[0])
        });
        assert forall|h: int, up: int| up == h + 1 && 0 <= h < rest.len() implies #[trigger] above[up]
            == if ((index / 2) / pow2(h as nat)) % 2 == 1 {
            poseidon2::merge(rest[h], #[trigger] above[h])
        } else {
            poseidon2::merge(above[h], rest[h])
        } by {
            vstd::arithmetic::power2::lemma_pow2_unfold((h + 1) as nat);
            vstd::arithmetic::power2::lemma_pow2_pos(h as nat);
            vstd::arithmetic::div_mod::lemma_div_denominator(
                index as int,
                2,
                pow2(h as nat) as int,
            );
            assert(nodes[up + 1] == above[up] && nodes[h + 1] == above[h]);
            assert(path[h + 1] == rest[h]);
        }
        law_path_root(rest, index / 2, nodes[1], above);
        assert(above.last() == nodes.last());
    }
}

/// The root of a tree is the digest of the roots of its two halves, and a tree of depth zero is its
/// only leaf, which is four zeros where there is none.
pub proof fn law_tree_root(leaves: Seq<Word>, depth: nat, leaf: Word)
    ensures
        tree_root(seq![leaf], 0) == leaf,
        tree_root(seq![], depth) == empty_root(depth),
        leaves.len() <= pow2(depth) ==> tree_root(leaves, depth + 1) == poseidon2::merge(
            tree_root(leaves, depth),
            empty_root(depth),
        ),
        leaves.len() >= pow2(depth) ==> tree_root(leaves, depth + 1) == poseidon2::merge(
            tree_root(leaves.take(pow2(depth) as int), depth),
            tree_root(leaves.skip(pow2(depth) as int), depth),
        ),
{
    let none: Seq<Word> = seq![];
    lemma_padded_empty(0, depth);
    if leaves.len() <= pow2(depth) {
        lemma_padded_halves(leaves, none, 0, depth);
        assert(leaves + none =~= leaves);
    }
    if leaves.len() >= pow2(depth) {
        let first: Seq<Word> = leaves.take(pow2(depth) as int);
        let second: Seq<Word> = leaves.skip(pow2(depth) as int);
        lemma_padded_halves(first, second, 0, depth);
        assert(first + second =~= leaves);
    }
}

/// A tree without nodes is an empty subtree.
proof fn lemma_padded_empty(level: nat, depth: nat)
    ensures
        padded_root(seq![], level, depth) == empty_root(level + depth),
    decreases depth,
{
    if depth > 0 {
        assert(parents(seq![], empty_root(level)) =~= seq![]);
        lemma_padded_empty(level + 1, (depth - 1) as nat);
    }
}

/// The root of a tree is the digest of the roots of its halves. Where the first half is not full, the
/// second one has no nodes.
proof fn lemma_padded_halves(first: Seq<Word>, second: Seq<Word>, level: nat, depth: nat)
    requires
        first.len() <= pow2(depth),
        first.len() < pow2(depth) ==> second.len() == 0,
    ensures
        padded_root(first + second, level, depth + 1) == poseidon2::merge(
            padded_root(first, level, depth),
            padded_root(second, level, depth),
        ),
    decreases depth,
{
    let e: Word = empty_root(level);
    let all: Seq<Word> = first + second;
    vstd::arithmetic::power2::lemma2_to64();
    if depth == 0 {
        let row: Seq<Word> = parents(all, e);
        assert(padded_root(all, level, 1) == padded_root(row, level + 1, 0));
        if all.len() > 0 {
            assert(row[0] == poseidon2::merge(
                all[0],
                if 1 < all.len() {
                    all[1]
                } else {
                    e
                },
            ));
        }
    } else {
        vstd::arithmetic::power2::lemma_pow2_unfold(depth);
        let (a, b): (Seq<Word>, Seq<Word>) = (parents(first, e), parents(second, e));
        assert(parents(all, e) =~= a + b) by {
            assert forall|i: int| 0 <= i < parents(all, e).len() implies #[trigger] parents(all, e)[i]
                == (a + b)[i] by {
                if i < a.len() {
                    assert((a + b)[i] == a[i]);
                } else {
                    assert((a + b)[i] == b[i - a.len()]);
                }
            }
        }
        lemma_padded_halves(a, b, level + 1, (depth - 1) as nat);
        assert(padded_root(all, level, depth + 1) == padded_root(parents(all, e), level + 1, depth));
    }
}

} // verus!
