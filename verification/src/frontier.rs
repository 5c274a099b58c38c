//! A compact rooted frontier for append-only Merkle trees.
//!
//! A [`MerkleFrontier`] stores the index of the next leaf and the full left subtrees, its peaks, on
//! the path to that leaf. Empty right subtrees are implied, and the commitment is the root that
//! this path folds to.

use crate::merkle;
use crate::merkle::{EmptySubtreeRoots, MerkleError, MerklePath, MerkleProof};
use crate::mmr;
use crate::mmr::{Forest, MmrError, MmrPeaks, MmrProof, PeaksView};
use crate::poseidon2;
use crate::poseidon2::Poseidon2;
use crate::serialization;
use crate::serialization::{
    ByteReader, ByteWriter, Deserializable, DeserializationError, Parsed, Serializable,
};
use crate::text;
use crate::word::Word;
use vstd::arithmetic::power2::pow2;
use vstd::prelude::*;
use vstd::std_specs::convert::FromSpecImpl;
use vstd::string::StringExecFns;

verus! {

// MODEL
// ================================================================================================

/// The row above a row of nodes, without a parent for a last node that has no sibling.
pub open spec fn full_parents(nodes: Seq<Word>) -> Seq<Word> {
    Seq::new(nodes.len() / 2, |i: int| poseidon2::merge(nodes[2 * i], nodes[2 * i + 1]))
}

/// The roots of the full trees that a row of nodes forms, from the largest tree to the smallest.
pub open spec fn peaks_of(nodes: Seq<Word>) -> Seq<Word>
    decreases nodes.len(),
{
    if nodes.len() == 0 {
        seq![]
    } else if nodes.len() % 2 == 1 {
        peaks_of(full_parents(nodes)).push(nodes.last())
    } else {
        peaks_of(full_parents(nodes))
    }
}

/// The frontier of the tree whose first leaves are the given ones.
pub open spec fn frontier_of(leaves: Seq<Word>) -> PeaksView {
    PeaksView { len: leaves.len(), peaks: peaks_of(leaves) }
}

/// The root that the path to the next leaf folds to. The node `acc` stands at index `bits` of its
/// row, `level` above the leaves. An odd index makes it the right child of a pair whose left child
/// is the smallest peak; an even one makes it the left child of a pair whose right child is empty.
pub open spec fn fold_path(bits: nat, level: nat, peaks: Seq<Word>, acc: Word) -> Word
    decreases bits,
{
    if bits == 0 {
        acc
    } else if bits % 2 == 1 {
        fold_path(bits / 2, level + 1, peaks.drop_last(), poseidon2::merge(peaks.last(), acc))
    } else {
        fold_path(bits / 2, level + 1, peaks, poseidon2::merge(acc, merkle::empty_root(level)))
    }
}

/// The root that a frontier commits to.
pub open spec fn frontier_root(frontier: PeaksView) -> Word {
    fold_path(frontier.len, 0, frontier.peaks, merkle::empty_root(0))
}

/// The peaks after a node is appended to the row that they are the peaks of: as long as there is a
/// tree of the same size to its left, the node is merged with the root of that tree.
pub open spec fn appended_peaks(len: nat, peaks: Seq<Word>, node: Word) -> Seq<Word>
    decreases len,
{
    if len % 2 == 1 {
        appended_peaks(len / 2, peaks.drop_last(), poseidon2::merge(peaks.last(), node))
    } else {
        peaks.push(node)
    }
}

/// The frontier after a leaf is appended.
pub open spec fn appended(frontier: PeaksView, leaf: Word) -> PeaksView {
    PeaksView {
        len: frontier.len + 1,
        peaks: appended_peaks(frontier.len, frontier.peaks, leaf),
    }
}

/// The siblings, along the path to the next leaf, of the nodes above the peak with index `target`:
/// first the node that completes the pair of that peak, then the peaks and the empty nodes that
/// the path meets. `below` says whether the peak has already been met.
pub open spec fn siblings_above(
    bits: nat,
    level: nat,
    peaks: Seq<Word>,
    acc: Word,
    target: int,
    below: bool,
) -> Seq<Word>
    decreases bits,
{
    if bits == 0 {
        seq![]
    } else if bits % 2 == 1 {
        let rest: Seq<Word> = siblings_above(
            bits / 2,
            level + 1,
            peaks.drop_last(),
            poseidon2::merge(peaks.last(), acc),
            target,
            below || peaks.len() - 1 == target,
        );
        if peaks.len() - 1 == target {
            seq![acc] + rest
        } else if below {
            seq![peaks.last()] + rest
        } else {
            rest
        }
    } else {
        let empty: Word = merkle::empty_root(level);
        let rest: Seq<Word> = siblings_above(
            bits / 2,
            level + 1,
            peaks,
            poseidon2::merge(acc, empty),
            target,
            below,
        );
        if below {
            seq![empty] + rest
        } else {
            rest
        }
    }
}

/// The path from the peak with index `target` up to the root of a frontier.
pub open spec fn peak_path(frontier: PeaksView, target: int) -> Seq<Word> {
    siblings_above(frontier.len, 0, frontier.peaks, merkle::empty_root(0), target, false)
}

// LAWS
// ================================================================================================

/// There is one peak for each one bit of the number of leaves.
pub proof fn lemma_peak_count(nodes: Seq<Word>)
    ensures
        peaks_of(nodes).len() == mmr::count_ones(nodes.len()),
    decreases nodes.len(),
{
    if nodes.len() > 0 {
        lemma_peak_count(full_parents(nodes));
    }
}

/// Appending a leaf to the frontier of a list of leaves gives the frontier of the longer list.
pub proof fn law_append(leaves: Seq<Word>, leaf: Word)
    ensures
        appended(frontier_of(leaves), leaf) == frontier_of(leaves.push(leaf)),
{
    lemma_append(leaves, leaf);
}

proof fn lemma_append(nodes: Seq<Word>, node: Word)
    ensures
        appended_peaks(nodes.len(), peaks_of(nodes), node) == peaks_of(nodes.push(node)),
    decreases nodes.len(),
{
    let upper: Seq<Word> = full_parents(nodes);
    if nodes.len() % 2 == 1 {
        let parent: Word = poseidon2::merge(nodes.last(), node);
        assert(full_parents(nodes.push(node)) =~= upper.push(parent));
        assert(peaks_of(nodes).drop_last() =~= peaks_of(upper));
        lemma_append(upper, parent);
    } else {
        assert(full_parents(nodes.push(node)) =~= upper);
        assert(upper.len() == 0 ==> peaks_of(upper) =~= seq![]);
    }
}

/// The frontier that comes from appending leaves one after the other, to one without leaves.
pub open spec fn built_from(leaves: Seq<Word>) -> PeaksView
    decreases leaves.len(),
{
    if leaves.len() == 0 {
        PeaksView { len: 0, peaks: seq![] }
    } else {
        appended(built_from(leaves.drop_last()), leaves.last())
    }
}

/// Appending leaves one after the other gives the frontier of their list, which is a valid one as
/// long as there are not more leaves than a forest can hold.
pub proof fn law_built_by_appending(leaves: Seq<Word>)
    requires
        leaves.len() <= Forest::MAX_LEAVES,
    ensures
        built_from(leaves) == frontier_of(leaves),
        frontier_of(leaves).wf(),
    decreases leaves.len(),
{
    lemma_peak_count(leaves);
    if leaves.len() > 0 {
        law_built_by_appending(leaves.drop_last());
        law_append(leaves.drop_last(), leaves.last());
        assert(leaves.drop_last().push(leaves.last()) =~= leaves);
    }
}

/// The root of the frontier of a list of leaves is the root of the Merkle tree that has those
/// leaves followed by empty ones, and whose depth is the length of their number in bits.
pub proof fn law_root(leaves: Seq<Word>)
    ensures
        frontier_root(frontier_of(leaves)) == merkle::tree_root(
            leaves,
            mmr::bit_len(leaves.len()),
        ),
{
    let e: Word = merkle::empty_root(0);
    mmr::lemma_bit_len(leaves.len());
    lemma_fold(leaves, 0, e);
    merkle::lemma_push_empty(leaves, 0, mmr::bit_len(leaves.len()));
}

proof fn lemma_fold(nodes: Seq<Word>, level: nat, acc: Word)
    ensures
        fold_path(nodes.len(), level, peaks_of(nodes), acc) == merkle::padded_root(
            nodes.push(acc),
            level,
            mmr::bit_len(nodes.len()),
        ),
    decreases nodes.len(),
{
    if nodes.len() > 0 {
        let e: Word = merkle::empty_root(level);
        let upper: Seq<Word> = full_parents(nodes);
        let parents: Seq<Word> = merkle::parents(nodes.push(acc), e);
        if nodes.len() % 2 == 1 {
            let parent: Word = poseidon2::merge(nodes.last(), acc);
            assert(parents =~= upper.push(parent));
            assert(peaks_of(nodes).drop_last() =~= peaks_of(upper));
            lemma_fold(upper, level + 1, parent);
        } else {
            let parent: Word = poseidon2::merge(acc, e);
            assert(parents =~= upper.push(parent));
            lemma_fold(upper, level + 1, parent);
        }
    }
}

/// Once the peak has been met, the siblings lead from the node on the path to the root.
proof fn lemma_siblings_below(bits: nat, level: nat, peaks: Seq<Word>, acc: Word, target: int)
    requires
        peaks.len() == mmr::count_ones(bits),
        peaks.len() <= target,
    ensures
        merkle::path_root(siblings_above(bits, level, peaks, acc, target, true), bits, acc)
            == fold_path(bits, level, peaks, acc),
        siblings_above(bits, level, peaks, acc, target, true).len() == mmr::bit_len(bits),
    decreases bits,
{
    if bits > 0 {
        let e: Word = merkle::empty_root(level);
        let path: Seq<Word> = siblings_above(bits, level, peaks, acc, target, true);
        if bits % 2 == 1 {
            let parent: Word = poseidon2::merge(peaks.last(), acc);
            lemma_siblings_below(bits / 2, level + 1, peaks.drop_last(), parent, target);
            assert(path.drop_first() =~= siblings_above(
                bits / 2,
                level + 1,
                peaks.drop_last(),
                parent,
                target,
                true,
            ));
        } else {
            let parent: Word = poseidon2::merge(acc, e);
            lemma_siblings_below(bits / 2, level + 1, peaks, parent, target);
            assert(path.drop_first() =~= siblings_above(
                bits / 2,
                level + 1,
                peaks,
                parent,
                target,
                true,
            ));
        }
    }
}

/// The siblings above a peak lead from that peak to the root.
proof fn lemma_siblings(bits: nat, level: nat, peaks: Seq<Word>, acc: Word, target: nat)
    requires
        peaks.len() == mmr::count_ones(bits),
        target < peaks.len(),
    ensures
        ({
            let height: nat = mmr::peak_height(bits, target);
            let path: Seq<Word> = siblings_above(bits, level, peaks, acc, target as int, false);
            &&& merkle::path_root(path, 2 * (bits / pow2(height + 1)), peaks[target as int])
                == fold_path(bits, level, peaks, acc)
            &&& path.len() + height == mmr::bit_len(bits)
        }),
    decreases bits,
{
    let height: nat = mmr::peak_height(bits, target);
    let e: Word = merkle::empty_root(level);
    let path: Seq<Word> = siblings_above(bits, level, peaks, acc, target as int, false);
    vstd::arithmetic::power2::lemma2_to64();
    if bits % 2 == 1 && target == mmr::count_ones(bits / 2) {
        let parent: Word = poseidon2::merge(peaks.last(), acc);
        lemma_siblings_below(bits / 2, level + 1, peaks.drop_last(), parent, target as int);
        assert(path.drop_first() =~= siblings_above(
            bits / 2,
            level + 1,
            peaks.drop_last(),
            parent,
            target as int,
            true,
        ));
    } else {
        vstd::arithmetic::power2::lemma_pow2_unfold(height + 1);
        vstd::arithmetic::power2::lemma_pow2_pos(height);
        vstd::arithmetic::div_mod::lemma_div_denominator(bits as int, 2, pow2(height) as int);
        if bits % 2 == 1 {
            let parent: Word = poseidon2::merge(peaks.last(), acc);
            lemma_siblings(bits / 2, level + 1, peaks.drop_last(), parent, target);
        } else {
            let parent: Word = poseidon2::merge(acc, e);
            lemma_siblings(bits / 2, level + 1, peaks, parent, target);
        }
    }
}

/// The path above any peak of a frontier leads from that peak to the root, and is as long as the
/// tree is higher than the peak. In its row the peak stands at the even index that the bits of the
/// length above the height of the peak give.
pub proof fn law_peak_path(frontier: PeaksView, index: nat)
    requires
        frontier.wf(),
        index < frontier.peaks.len(),
    ensures
        ({
            let height: nat = mmr::peak_height(frontier.len, index);
            let path: Seq<Word> = peak_path(frontier, index as int);
            &&& merkle::path_root(
                path,
                2 * (frontier.len / pow2(height + 1)),
                frontier.peaks[index as int],
            ) == frontier_root(frontier)
            &&& path.len() == mmr::bit_len(frontier.len) - height
            &&& height < mmr::bit_len(frontier.len)
            &&& (frontier.len / pow2(height)) % 2 == 1
            &&& mmr::count_ones(frontier.len / pow2(height + 1)) == index
        }),
{
    mmr::lemma_peak_height(frontier.len, index);
    lemma_siblings(frontier.len, 0, frontier.peaks, merkle::empty_root(0), index);
}

/// The path above the peak of the tree that holds a leaf leads to the root from the place of that
/// peak, to which the position of the leaf leads.
proof fn lemma_path_above_leaf(frontier: PeaksView, position: nat)
    requires
        frontier.wf(),
        position < frontier.len,
    ensures
        ({
            let index: nat = mmr::tree_index(frontier.len, position);
            let height: nat = mmr::tree_height(frontier.len, position);
            let path: Seq<Word> = peak_path(frontier, index as int);
            &&& merkle::path_root(path, position / pow2(height), frontier.peaks[index as int])
                == frontier_root(frontier)
            &&& path.len() + height == mmr::bit_len(frontier.len)
        }),
{
    let len: nat = frontier.len;
    let height: nat = mmr::tree_height(len, position);
    mmr::lemma_peak_of_leaf(len, position);
    mmr::lemma_tree_of_leaf(len, position);
    law_peak_path(frontier, mmr::tree_index(len, position));
    vstd::arithmetic::power2::lemma_pow2_unfold(height + 1);
    vstd::arithmetic::power2::lemma_pow2_pos(height);
    vstd::arithmetic::div_mod::lemma_div_denominator(len as int, pow2(height) as int, 2);
    assert(pow2(height) * 2 == pow2(height + 1));
}

/// Where the path of an opening leads from the leaf, at its place in its tree, to the peak of that
/// tree, the path continued up to the root of the frontier leads from the leaf, at its place among
/// all leaves, to that root. The position fits the depth of the longer path.
pub proof fn law_opening(frontier: PeaksView, position: nat, path: Seq<Word>, leaf: Word)
    requires
        frontier.wf(),
        position < frontier.len,
        path.len() == mmr::tree_height(frontier.len, position),
        merkle::path_root(path, position % pow2(path.len()), leaf)@ == frontier.peaks[
            mmr::tree_index(frontier.len, position) as int
        ]@,
    ensures
        ({
            let full: Seq<Word> = path + peak_path(
                frontier,
                mmr::tree_index(frontier.len, position) as int,
            );
            &&& merkle::path_root(full, position, leaf) == frontier_root(frontier)
            &&& full.len() == mmr::bit_len(frontier.len)
            &&& position < pow2(full.len())
        }),
{
    let target: int = mmr::tree_index(frontier.len, position) as int;
    let above: Seq<Word> = peak_path(frontier, target);
    let p: nat = pow2(path.len());
    vstd::arithmetic::power2::lemma_pow2_pos(path.len());
    vstd::arithmetic::div_mod::lemma_mod_twice(position as int, p as int);
    merkle::lemma_path_index(path, position, position % p, leaf);
    merkle::lemma_path_concat(path, above, position, leaf);
    lemma_path_above_leaf(frontier, position);
    mmr::lemma_tree_of_leaf(frontier.len, position);
    merkle::lemma_path_of_equal(
        above,
        position / p,
        merkle::path_root(path, position, leaf),
        frontier.peaks[target],
    );
    mmr::lemma_bit_len(frontier.len);
}

/// The peak of height `height` is the root of the Merkle tree over the leaves that come after those
/// of the larger trees, as many as `2^height`. As many peaks come before it as there are one bits
/// above its bit in the number of leaves.
pub proof fn law_peaks(leaves: Seq<Word>, height: nat)
    requires
        (leaves.len() / pow2(height)) % 2 == 1,
    ensures
        ({
            let size: nat = pow2(height);
            let start: int = 2 * size * (leaves.len() / size / 2) as int;
            let index: int = mmr::count_ones(leaves.len() / size / 2) as int;
            &&& frontier_of(leaves).len == leaves.len()
            &&& frontier_of(leaves).peaks.len() == mmr::count_ones(leaves.len())
            &&& 0 <= index < frontier_of(leaves).peaks.len()
            &&& 0 <= start
            &&& start + size <= leaves.len()
            &&& frontier_of(leaves).peaks[index] == merkle::tree_root(
                leaves.subrange(start, start + size),
                height,
            )
        }),
{
    lemma_peak_count(leaves);
    lemma_peak_tree(leaves, 0, height);
}

/// A peak of a row of nodes is the root of the full tree over its part of the row.
proof fn lemma_peak_tree(nodes: Seq<Word>, level: nat, height: nat)
    requires
        (nodes.len() / pow2(height)) % 2 == 1,
    ensures
        ({
            let size: nat = pow2(height);
            let start: int = 2 * size * (nodes.len() / size / 2) as int;
            let index: int = mmr::count_ones(nodes.len() / size / 2) as int;
            &&& 0 <= index < peaks_of(nodes).len()
            &&& 0 <= start
            &&& start + size <= nodes.len()
            &&& peaks_of(nodes)[index] == merkle::padded_root(
                nodes.subrange(start, start + size),
                level,
                height,
            )
        }),
    decreases height,
{
    let n: nat = nodes.len();
    let size: nat = pow2(height);
    let q: nat = n / size / 2;
    let start: int = 2 * size * q as int;
    let index: int = mmr::count_ones(q) as int;
    let e: Word = merkle::empty_root(level);
    let upper: Seq<Word> = full_parents(nodes);
    vstd::arithmetic::power2::lemma2_to64();
    vstd::arithmetic::power2::lemma_pow2_pos(height);
    lemma_peak_count(nodes);
    lemma_peak_count(upper);
    mmr::lemma_ones_above(n, height);
    vstd::arithmetic::div_mod::lemma_fundamental_div_mod(n as int, size as int);
    assert(0 <= 2 * size * q && 2 * size * q + size <= n) by (nonlinear_arith)
        requires
            n as int == size * (n as int / size as int) + n as int % size as int,
            n as int / size as int == 2 * q + 1,
            0 <= n as int % size as int,
            size > 0,
    ;
    let part: Seq<Word> = nodes.subrange(start, start + size);
    if height == 0 {
        assert(n / 1 == n);
        assert(2 * 1 * q == 2 * q);
        assert(part =~= seq![nodes.last()]);
    } else {
        let k: nat = (height - 1) as nat;
        let half: nat = pow2(k);
        vstd::arithmetic::power2::lemma_pow2_unfold(height);
        vstd::arithmetic::power2::lemma_pow2_pos(k);
        vstd::arithmetic::div_mod::lemma_div_denominator(n as int, 2, half as int);
        lemma_peak_tree(upper, level + 1, k);
        mmr::lemma_ones_above(upper.len(), k);
        let mid: int = 2 * half * q as int;
        assert(2 * (2 * half) * q == 2 * (2 * half * q)) by (nonlinear_arith);
        assert(start == 2 * mid);
        assert(merkle::parents(part, e) =~= upper.subrange(mid, mid + half)) by {
            assert forall|i: int| 0 <= i < half implies #[trigger] merkle::parents(part, e)[i]
                == upper.subrange(mid, mid + half)[i] by {
                assert(part[2 * i] == nodes[2 * (mid + i)]);
                assert(part[2 * i + 1] == nodes[2 * (mid + i) + 1]);
            }
        }
        assert(merkle::padded_root(part, level, height) == merkle::padded_root(
            merkle::parents(part, e),
            level + 1,
            k,
        ));
        assert(index < peaks_of(upper).len());
        assert(peaks_of(nodes)[index] == peaks_of(upper)[index]);
    }
}

/// The root of a frontier is reached from four zeros by one digest on each level of the tree. Where
/// the bit of the length on that level is one, the peak that has as many peaks before it as there are
/// one bits above that bit comes first; where it is zero, the root of the empty subtree of that height
/// comes second.
pub proof fn law_root_of_peaks(frontier: PeaksView, depth: nat, nodes: Seq<Word>)
    requires
        frontier.wf(),
        frontier.len < pow2(depth),
        depth > 0 ==> pow2((depth - 1) as nat) <= frontier.len,
        nodes.len() == depth + 1,
        nodes[0] == merkle::empty_root(0),
        forall|h: int, up: int|
            up == h + 1 && 0 <= h < depth ==> #[trigger] nodes[up] == if (frontier.len / pow2(
                h as nat,
            )) % 2 == 1 {
                poseidon2::merge(
                    frontier.peaks[mmr::count_ones(frontier.len / pow2(h as nat) / 2) as int],
                    #[trigger] nodes[h],
                )
            } else {
                poseidon2::merge(nodes[h], merkle::empty_root(h as nat))
            },
    ensures
        frontier_root(frontier) == nodes.last(),
{
    vstd::arithmetic::power2::lemma2_to64();
    assert(frontier.len / 1 == frontier.len);
    assert(frontier.peaks.take(frontier.peaks.len() as int) =~= frontier.peaks);
    lemma_root_steps(frontier, depth, nodes, 0);
}

proof fn lemma_root_steps(frontier: PeaksView, depth: nat, nodes: Seq<Word>, level: nat)
    requires
        frontier.peaks.len() == mmr::count_ones(frontier.len),
        frontier.len < pow2(depth),
        depth > 0 ==> pow2((depth - 1) as nat) <= frontier.len,
        nodes.len() == depth + 1,
        level <= depth,
        mmr::count_ones(frontier.len / pow2(level)) <= frontier.peaks.len(),
        forall|h: int, up: int|
            up == h + 1 && 0 <= h < depth ==> #[trigger] nodes[up] == if (frontier.len / pow2(
                h as nat,
            )) % 2 == 1 {
                poseidon2::merge(
                    frontier.peaks[mmr::count_ones(frontier.len / pow2(h as nat) / 2) as int],
                    #[trigger] nodes[h],
                )
            } else {
                poseidon2::merge(nodes[h], merkle::empty_root(h as nat))
            },
    ensures
        fold_path(
            frontier.len / pow2(level),
            level,
            frontier.peaks.take(mmr::count_ones(frontier.len / pow2(level)) as int),
            nodes[level as int],
        ) == nodes.last(),
    decreases depth - level,
{
    let bits: nat = frontier.len / pow2(level);
    let peaks: Seq<Word> = frontier.peaks.take(mmr::count_ones(bits) as int);
    vstd::arithmetic::power2::lemma2_to64();
    vstd::arithmetic::power2::lemma_pow2_pos(level);
    if level == depth {
        vstd::arithmetic::div_mod::lemma_basic_div(frontier.len as int, pow2(level) as int);
    } else {
        if level < depth - 1 {
            vstd::arithmetic::power2::lemma_pow2_strictly_increases(level, (depth - 1) as nat);
        }
        vstd::arithmetic::div_mod::lemma_div_non_zero(frontier.len as int, pow2(level) as int);
        vstd::arithmetic::power2::lemma_pow2_unfold(level + 1);
        vstd::arithmetic::div_mod::lemma_div_denominator(
            frontier.len as int,
            pow2(level) as int,
            2,
        );
        assert(pow2(level) * 2 == pow2(level + 1));
        assert(frontier.len / pow2(level + 1) == bits / 2);
        lemma_root_steps(frontier, depth, nodes, level + 1);
        let (h, up): (int, int) = (level as int, level as int + 1);
        assert(nodes[up] == if bits % 2 == 1 {
            poseidon2::merge(frontier.peaks[mmr::count_ones(bits / 2) as int], nodes[h])
        } else {
            poseidon2::merge(nodes[h], merkle::empty_root(level))
        });
        if bits % 2 == 1 {
            assert(peaks.drop_last() =~= frontier.peaks.take(mmr::count_ones(bits / 2) as int));
            assert(peaks.last() == frontier.peaks[mmr::count_ones(bits / 2) as int]);
        }
    }
}

/// Appending a leaf merges it with as many of the last peaks as the length has one bits at its lower
/// end, from the last peak on. The result takes the place of those peaks, and the others stay.
pub proof fn law_appended_peaks(frontier: PeaksView, leaf: Word, merged: nat, nodes: Seq<Word>)
    requires
        frontier.wf(),
        forall|h: nat| h < merged ==> (frontier.len / #[trigger] pow2(h)) % 2 == 1,
        (frontier.len / pow2(merged)) % 2 == 0,
        nodes.len() == merged + 1,
        nodes[0] == leaf,
        forall|h: int, up: int|
            up == h + 1 && 0 <= h < merged ==> #[trigger] nodes[up] == poseidon2::merge(
                frontier.peaks[frontier.peaks.len() - 1 - h],
                #[trigger] nodes[h],
            ),
    ensures
        merged <= frontier.peaks.len(),
        appended(frontier, leaf).len == frontier.len + 1,
        appended(frontier, leaf).peaks == frontier.peaks.take(
            frontier.peaks.len() - merged,
        ).push(nodes.last()),
{
    vstd::arithmetic::power2::lemma2_to64();
    assert(frontier.len / 1 == frontier.len);
    assert(frontier.peaks.take(frontier.peaks.len() as int) =~= frontier.peaks);
    lemma_append_steps(frontier, merged, nodes, 0);
}

proof fn lemma_append_steps(frontier: PeaksView, merged: nat, nodes: Seq<Word>, level: nat)
    requires
        forall|h: nat| h < merged ==> (frontier.len / #[trigger] pow2(h)) % 2 == 1,
        (frontier.len / pow2(merged)) % 2 == 0,
        nodes.len() == merged + 1,
        level <= merged,
        mmr::count_ones(frontier.len / pow2(level)) + level == frontier.peaks.len(),
        forall|h: int, up: int|
            up == h + 1 && 0 <= h < merged ==> #[trigger] nodes[up] == poseidon2::merge(
                frontier.peaks[frontier.peaks.len() - 1 - h],
                #[trigger] nodes[h],
            ),
    ensures
        merged <= frontier.peaks.len(),
        appended_peaks(
            frontier.len / pow2(level),
            frontier.peaks.take(frontier.peaks.len() - level),
            nodes[level as int],
        ) == frontier.peaks.take(frontier.peaks.len() - merged).push(nodes.last()),
    decreases merged - level,
{
    vstd::arithmetic::power2::lemma_pow2_pos(level);
    if level < merged {
        let n: nat = frontier.len / pow2(level);
        let peaks: Seq<Word> = frontier.peaks.take(frontier.peaks.len() - level);
        vstd::arithmetic::power2::lemma_pow2_unfold(level + 1);
        vstd::arithmetic::div_mod::lemma_div_denominator(
            frontier.len as int,
            pow2(level) as int,
            2,
        );
        assert(pow2(level) * 2 == pow2(level + 1));
        assert(frontier.len / pow2(level + 1) == n / 2);
        assert(n % 2 == 1);
        let (h, up): (int, int) = (level as int, level as int + 1);
        assert(nodes[up] == poseidon2::merge(
            frontier.peaks[frontier.peaks.len() - 1 - h],
            nodes[h],
        ));
        assert(peaks.drop_last() =~= frontier.peaks.take(frontier.peaks.len() - (level + 1)));
        lemma_append_steps(frontier, merged, nodes, level + 1);
    }
}

/// A frontier without leaves has no peaks, and its root is four zeros.
pub proof fn law_no_leaves(i: int)
    requires
        0 <= i < 4,
    ensures
        frontier_of(seq![]).len == 0,
        frontier_of(seq![]).peaks.len() == 0,
        built_from(seq![]) == frontier_of(seq![]),
        frontier_root(frontier_of(seq![])).0[i].value == 0,
{
    merkle::law_empty_root(0, i);
    assert(peaks_of(seq![]) =~= seq![]);
}

// MERKLE FRONTIER
// ================================================================================================

/// A compact rooted frontier for an append-only Merkle tree.
///
/// The peaks are ordered from the largest subtree to the smallest, as in [`MmrPeaks`].
#[derive(Debug, PartialEq, Eq)]
pub struct MerkleFrontier {
    /// The index of the next leaf in the append-only tree.
    len: usize,
    /// The full left subtrees on the path to `len`, from the largest to the smallest.
    peaks: Vec<Word>,
}

impl View for MerkleFrontier {
    type V = PeaksView;

    closed spec fn view(&self) -> PeaksView {
        PeaksView { len: self.len as nat, peaks: self.peaks@ }
    }
}

impl Clone for MerkleFrontier {
    fn clone(&self) -> (r: MerkleFrontier)
        ensures
            r@ == self@,
    {
        proof {
            use_type_invariant(self);
        }
        let peaks: Vec<Word> = self.peaks.clone();
        assert(peaks@ =~= self.peaks@);
        MerkleFrontier { len: self.len, peaks }
    }
}

impl Default for MerkleFrontier {
    /// The frontier without leaves.
    fn default() -> (r: MerkleFrontier)
        ensures
            r@ == frontier_of(seq![]),
            r@.wf(),
    {
        MerkleFrontier { len: 0, peaks: Vec::new() }
    }
}

impl MerkleFrontier {
    #[verifier::type_invariant]
    spec fn inv(self) -> bool {
        self@.wf()
    }

    // CONSTRUCTORS
    // --------------------------------------------------------------------------------------------

    /// The frontier with the given length and peaks.
    ///
    /// # Errors
    /// Returns an error if the length is more than a forest can hold, or if the number of peaks is
    /// not the number of full subtrees that the length stands for.
    pub fn new(len: usize, peaks: Vec<Word>) -> (r: Result<MerkleFrontier, MmrError>)
        ensures
            r is Ok <==> (PeaksView { len: len as nat, peaks: peaks@ }).wf(),
            r matches Ok(x) ==> x@ == (PeaksView { len: len as nat, peaks: peaks@ }),
            len > Forest::MAX_LEAVES ==> r == Err::<MerkleFrontier, MmrError>(
                MmrError::ForestSizeExceeded { requested: len, max: Forest::MAX_LEAVES },
            ),
            len <= Forest::MAX_LEAVES && r is Err ==> (r matches Err(
                MmrError::InvalidPeaks(message),
            ) && message@ == mmr::peak_count_text(mmr::count_ones(len as nat), peaks@.len())),
    {
        validate_frontier(len, peaks.len())?;
        Ok(MerkleFrontier { len, peaks })
    }

    // ACCESSORS
    // --------------------------------------------------------------------------------------------

    /// The index of the next leaf in the append-only tree.
    pub fn len(&self) -> (r: usize)
        ensures
            r == self@.len,
            self@.wf(),
    {
        proof {
            use_type_invariant(self);
        }
        self.len
    }

    /// Whether this frontier has no leaves.
    pub fn is_empty(&self) -> (r: bool)
        ensures
            r == (self@.len == 0),
    {
        self.len == 0
    }

    /// The number of leaves that this frontier commits to.
    pub fn num_leaves(&self) -> (r: usize)
        ensures
            r == self@.len,
    {
        self.len
    }

    /// The number of peaks in this frontier.
    pub fn num_peaks(&self) -> (r: usize)
        ensures
            r == self@.peaks.len(),
            r == mmr::count_ones(self@.len),
    {
        proof {
            use_type_invariant(self);
        }
        self.peaks.len()
    }

    /// The peaks, from the largest subtree to the smallest.
    pub fn peaks(&self) -> (r: &[Word])
        ensures
            r@ == self@.peaks,
    {
        self.peaks.as_slice()
    }

    /// The length and the peaks of this frontier.
    pub fn into_parts(self) -> (r: (usize, Vec<Word>))
        ensures
            r.0 == self@.len,
            r.1@ == self@.peaks,
            self@.wf(),
    {
        proof {
            use_type_invariant(&self);
        }
        (self.len, self.peaks)
    }

    /// The peaks of the Merkle mountain range with the leaves of this frontier.
    pub fn into_legacy_peaks(self) -> (r: MmrPeaks)
        ensures
            r@ == self@,
    {
        proof {
            use_type_invariant(&self);
        }
        let (len, peaks): (usize, Vec<Word>) = self.into_parts();
        // A frontier is never longer than a forest can be, and has the peaks of its forest.
        let forest: Forest = match Forest::new(len) {
            Ok(forest) => forest,
            Err(_) => vstd::pervasive::unreached(),
        };
        match MmrPeaks::new(forest, peaks) {
            Ok(peaks) => peaks,
            Err(_) => vstd::pervasive::unreached(),
        }
    }

    // FUNCTIONALITY
    // --------------------------------------------------------------------------------------------

    /// The Merkle root of this frontier.
    ///
    /// The root is computed by folding the path to `len`: one bits take peaks on the left and zero
    /// bits imply empty subtrees on the right.
    pub fn root(&self) -> (r: Word)
        ensures
            r == frontier_root(self@),
    {
        proof {
            use_type_invariant(self);
            mmr::lemma_usize_bit_len(self.len);
            assert(self.peaks@.take(self.peaks@.len() as int) =~= self.peaks@);
        }
        if self.len == 0 {
            return empty_subtree_root(0);
        }
        let mut bits: usize = self.len;
        let mut level: u8 = 0;
        let mut peak_idx: usize = self.peaks.len();
        let mut acc: Word = empty_subtree_root(0);

        while bits != 0
            invariant
                peak_idx <= self.peaks@.len(),
                peak_idx == mmr::count_ones(bits as nat),
                level + mmr::bit_len(bits as nat) <= 64,
                fold_path(bits as nat, level as nat, self.peaks@.take(peak_idx as int), acc)
                    == frontier_root(self@),
            decreases bits,
        {
            if bits % 2 == 1 {
                proof {
                    assert(self.peaks@.take(peak_idx as int).drop_last() =~= self.peaks@.take(
                        peak_idx - 1,
                    ));
                }
                peak_idx = peak_idx - 1;
                acc = Poseidon2::merge(&[self.peaks[peak_idx], acc]);
            } else {
                acc = Poseidon2::merge(&[acc, empty_subtree_root(level)]);
            }
            bits = bits / 2;
            level = level + 1;
        }
        acc
    }

    /// Turns the opening of a leaf up to its peak into a Merkle proof against the root of this
    /// frontier.
    ///
    /// The opening must have been made for a forest as long as this frontier. The path of the
    /// result can be verified with [`MerklePath::verify`], with the position of the leaf among all
    /// leaves and [`Self::root`].
    pub fn to_merkle_proof(&self, opening: &MmrProof) -> (r: Result<MerkleProof, MmrError>)
        ensures
            r is Ok <==> opening@.len == self@.len && opening@.position < self@.len
                && opening@.path.len() == mmr::tree_height(self@.len, opening@.position),
            r matches Ok(x) ==> {
                &&& x.value == opening@.leaf
                &&& x.path@ == opening@.path + peak_path(
                    self@,
                    mmr::tree_index(self@.len, opening@.position) as int,
                )
                &&& x.path@.len() == mmr::bit_len(self@.len)
                &&& opening@.position < pow2(x.path@.len())
                &&& merkle::path_root(
                    opening@.path,
                    opening@.position % pow2(opening@.path.len()),
                    opening@.leaf,
                )@ == self@.peaks[mmr::tree_index(self@.len, opening@.position) as int]@
                    ==> merkle::path_root(x.path@, opening@.position, x.value) == frontier_root(
                    self@,
                )
            },
            opening@.len != self@.len ==> r == Err::<MerkleProof, MmrError>(
                MmrError::InconsistentProofForest {
                    proof: opening@.len as usize,
                    frontier: self@.len as usize,
                },
            ),
            opening@.len == self@.len && opening@.position >= self@.len ==> r == Err::<
                MerkleProof,
                MmrError,
            >(MmrError::PositionNotFound(opening@.position as usize)),
            opening@.len == self@.len && opening@.position < self@.len && r is Err ==> r == Err::<
                MerkleProof,
                MmrError,
            >(
                MmrError::InvalidMerklePath(
                    MerkleError::InvalidPathLength(
                        mmr::tree_height(self@.len, opening@.position) as usize,
                    ),
                ),
            ),
    {
        proof {
            use_type_invariant(self);
        }
        let proof_len: usize = opening.forest().num_leaves();
        if proof_len != self.len {
            return Err(
                MmrError::InconsistentProofForest { proof: proof_len, frontier: self.len },
            );
        }
        let position: usize = opening.position();
        let peak_height: u8 = match opening.forest().leaf_to_corresponding_tree(position) {
            Some(height) => height as u8,
            None => {
                return Err(MmrError::PositionNotFound(position));
            },
        };
        if opening.merkle_path().depth() != peak_height {
            return Err(
                MmrError::InvalidMerklePath(MerkleError::InvalidPathLength(peak_height as usize)),
            );
        }
        proof {
            lemma_opening_length(self@, opening@.position, opening@.path);
            mmr::lemma_usize_bit_len(self.len);
            if merkle::path_root(
                opening@.path,
                opening@.position % pow2(opening@.path.len()),
                opening@.leaf,
            )@ == self@.peaks[mmr::tree_index(self@.len, opening@.position) as int]@ {
                law_opening(self@, opening@.position, opening@.path, opening@.leaf);
            }
        }
        let mut nodes: Vec<Word> = opening.merkle_path().nodes().clone();
        assert(nodes@ =~= opening@.path);
        let mut above: Vec<Word> = self.path_from_peak_to_root(opening.peak_index())?;
        nodes.append(&mut above);
        Ok(MerkleProof::new(opening.leaf(), MerklePath::new(nodes)))
    }

    /// Appends a leaf to this frontier.
    ///
    /// # Errors
    /// Returns an error, and leaves the frontier as it was, if there is no room for another leaf.
    pub fn append(&mut self, node: Word) -> (r: Result<(), MmrError>)
        ensures
            old(self)@.len < Forest::MAX_LEAVES ==> r is Ok && final(self)@ == appended(
                old(self)@,
                node,
            ),
            old(self)@.len >= Forest::MAX_LEAVES ==> final(self)@ == old(self)@ && r == Err::<
                (),
                MmrError,
            >(
                MmrError::ForestSizeExceeded {
                    requested: (old(self)@.len + 1) as usize,
                    max: Forest::MAX_LEAVES,
                },
            ),
            final(self)@.wf(),
    {
        proof {
            use_type_invariant(&*self);
        }
        if self.len >= Forest::MAX_LEAVES {
            return Err(
                MmrError::ForestSizeExceeded {
                    requested: self.len.saturating_add(1),
                    max: Forest::MAX_LEAVES,
                },
            );
        }
        let ghost before: PeaksView = self@;
        let mut taken: MerkleFrontier = MerkleFrontier::default();
        core::mem::swap(self, &mut taken);
        let (len, mut peaks): (usize, Vec<Word>) = taken.into_parts();

        let mut node: Word = node;
        let mut n: usize = len;
        let ghost leaf: Word = node;
        while n % 2 == 1
            invariant
                peaks@.len() == mmr::count_ones(n as nat),
                appended_peaks(n as nat, peaks@, node) == appended_peaks(
                    before.len,
                    before.peaks,
                    leaf,
                ),
                mmr::count_ones((n + 1) as nat) == mmr::count_ones((before.len + 1) as nat),
            decreases n,
        {
            // An odd number of nodes in a row leaves the last of them as a peak.
            let left: Word = match peaks.pop() {
                Some(left) => left,
                None => vstd::pervasive::unreached(),
            };
            node = Poseidon2::merge(&[left, node]);
            proof {
                assert((n + 1) as nat / 2 == (n / 2 + 1) as nat);
            }
            n = n / 2;
        }
        peaks.push(node);
        proof {
            assert((n + 1) as nat / 2 == n as nat / 2);
            assert(mmr::count_ones((n + 1) as nat) == 1 + mmr::count_ones(n as nat));
        }
        *self = MerkleFrontier { len: len + 1, peaks };
        Ok(())
    }

    // UTILITIES
    // --------------------------------------------------------------------------------------------

    /// The path from the peak with the given index up to the root.
    fn path_from_peak_to_root(&self, target_peak_idx: usize) -> (r: Result<Vec<Word>, MmrError>)
        ensures
            target_peak_idx < self@.peaks.len() ==> (r matches Ok(path) && path@ == peak_path(
                self@,
                target_peak_idx as int,
            )),
            target_peak_idx >= self@.peaks.len() ==> r == Err::<Vec<Word>, MmrError>(
                MmrError::PeakOutOfBounds {
                    peak_idx: target_peak_idx,
                    peaks_len: self@.peaks.len() as usize,
                },
            ),
    {
        proof {
            use_type_invariant(self);
            mmr::lemma_usize_bit_len(self.len);
            assert(self.peaks@.take(self.peaks@.len() as int) =~= self.peaks@);
        }
        if target_peak_idx >= self.peaks.len() {
            return Err(
                MmrError::PeakOutOfBounds {
                    peak_idx: target_peak_idx,
                    peaks_len: self.peaks.len(),
                },
            );
        }
        let mut acc: Word = empty_subtree_root(0);
        let mut path: Vec<Word> = Vec::new();
        let mut peak_cursor: usize = self.peaks.len();
        let mut contains_target: bool = false;
        let mut bits: usize = self.len;
        let mut level: u8 = 0;
        let ghost whole: Seq<Word> = peak_path(self@, target_peak_idx as int);
        assert(path@ + whole =~= whole);

        while bits != 0
            invariant
                peak_cursor <= self.peaks@.len(),
                peak_cursor == mmr::count_ones(bits as nat),
                level + mmr::bit_len(bits as nat) <= 64,
                path@ + siblings_above(
                    bits as nat,
                    level as nat,
                    self.peaks@.take(peak_cursor as int),
                    acc,
                    target_peak_idx as int,
                    contains_target,
                ) == whole,
            decreases bits,
        {
            let ghost earlier: Seq<Word> = path@;
            let ghost ahead: Seq<Word> = siblings_above(
                bits as nat,
                level as nat,
                self.peaks@.take(peak_cursor as int),
                acc,
                target_peak_idx as int,
                contains_target,
            );
            if bits % 2 == 1 {
                proof {
                    assert(self.peaks@.take(peak_cursor as int).drop_last() =~= self.peaks@.take(
                        peak_cursor - 1,
                    ));
                }
                peak_cursor = peak_cursor - 1;
                let peak: Word = self.peaks[peak_cursor];
                if peak_cursor == target_peak_idx {
                    contains_target = true;
                    path.push(acc);
                } else if contains_target {
                    path.push(peak);
                }
                acc = Poseidon2::merge(&[peak, acc]);
            } else {
                let empty: Word = empty_subtree_root(level);
                if contains_target {
                    path.push(empty);
                }
                acc = Poseidon2::merge(&[acc, empty]);
            }
            bits = bits / 2;
            level = level + 1;
            proof {
                let rest: Seq<Word> = siblings_above(
                    bits as nat,
                    level as nat,
                    self.peaks@.take(peak_cursor as int),
                    acc,
                    target_peak_idx as int,
                    contains_target,
                );
                if path@.len() > earlier.len() {
                    assert(ahead =~= seq![path@.last()] + rest);
                } else {
                    assert(ahead =~= rest);
                }
                assert(path@ + rest =~= earlier + ahead);
            }
        }
        assert(path@ + Seq::<Word>::empty() =~= path@);
        Ok(path)
    }
}

/// The path of an opening, continued up to the root, is as long as the tree is deep.
proof fn lemma_opening_length(frontier: PeaksView, position: nat, path: Seq<Word>)
    requires
        frontier.wf(),
        position < frontier.len,
        path.len() == mmr::tree_height(frontier.len, position),
    ensures
        path.len() + peak_path(frontier, mmr::tree_index(frontier.len, position) as int).len()
            == mmr::bit_len(frontier.len),
        position < pow2(mmr::bit_len(frontier.len)),
{
    lemma_path_above_leaf(frontier, position);
    mmr::lemma_bit_len(frontier.len);
}

// CONVERSIONS
// ================================================================================================

impl FromSpecImpl<MmrPeaks> for MerkleFrontier {
    open spec fn obeys_from_spec() -> bool {
        false
    }

    open spec fn from_spec(peaks: MmrPeaks) -> MerkleFrontier {
        arbitrary()
    }
}

impl From<MmrPeaks> for MerkleFrontier {
    fn from(peaks: MmrPeaks) -> (r: MerkleFrontier)
        ensures
            r@ == peaks@,
    {
        let (forest, peaks): (Forest, Vec<Word>) = peaks.into_parts();
        MerkleFrontier { len: forest.num_leaves(), peaks }
    }
}

impl FromSpecImpl<&MmrPeaks> for MerkleFrontier {
    open spec fn obeys_from_spec() -> bool {
        false
    }

    open spec fn from_spec(peaks: &MmrPeaks) -> MerkleFrontier {
        arbitrary()
    }
}

impl From<&MmrPeaks> for MerkleFrontier {
    fn from(peaks: &MmrPeaks) -> (r: MerkleFrontier)
        ensures
            r@ == peaks@,
    {
        let nodes: Vec<Word> = vstd::slice::slice_to_vec(peaks.peaks());
        MerkleFrontier { len: peaks.num_leaves(), peaks: nodes }
    }
}

impl FromSpecImpl<MerkleFrontier> for MmrPeaks {
    open spec fn obeys_from_spec() -> bool {
        false
    }

    open spec fn from_spec(frontier: MerkleFrontier) -> MmrPeaks {
        arbitrary()
    }
}

impl From<MerkleFrontier> for MmrPeaks {
    fn from(frontier: MerkleFrontier) -> (r: MmrPeaks)
        ensures
            r@ == frontier@,
    {
        frontier.into_legacy_peaks()
    }
}

// SERIALIZATION
// ================================================================================================

/// The bytes of a frontier: its length, and the list of its peaks.
pub open spec fn frontier_bytes(frontier: PeaksView) -> Seq<u8> {
    serialization::usize_bytes(frontier.len) + (serialization::usize_bytes(frontier.peaks.len())
        + serialization::words_bytes(frontier.peaks))
}

/// What is said of a length that no forest can have.
pub open spec fn length_text(len: nat) -> Seq<char> {
    "frontier length "@ + text::decimal_text(len) + " exceeds maximum "@ + text::decimal_text(
        Forest::MAX_LEAVES as nat,
    )
}

/// What is said of a number of peaks that does not fit the length.
pub open spec fn invalid_text(expected: nat, found: nat) -> Seq<char> {
    "invalid frontier: "@ + mmr::peak_count_text(expected, found)
}

/// A frontier at the front of some bytes. The length is checked before the number of peaks is read,
/// and that number before any peak is read: what is left after a refusal follows the numbers.
pub open spec fn parse_frontier(input: Seq<u8>) -> Parsed<PeaksView> {
    match serialization::parse_usize(input) {
        Parsed::UnexpectedEOF => Parsed::UnexpectedEOF,
        Parsed::InvalidValue(text, rest) => Parsed::InvalidValue(text, rest),
        Parsed::Value(len, rest) => if len > Forest::MAX_LEAVES {
            Parsed::InvalidValue(length_text(len), rest)
        } else {
            match serialization::parse_usize(rest) {
                Parsed::UnexpectedEOF => Parsed::UnexpectedEOF,
                Parsed::InvalidValue(text, rest) => Parsed::InvalidValue(text, rest),
                Parsed::Value(num_peaks, rest) => if num_peaks != mmr::count_ones(len) {
                    Parsed::InvalidValue(invalid_text(mmr::count_ones(len), num_peaks), rest)
                } else {
                    match serialization::parse_words(rest, num_peaks) {
                        Parsed::UnexpectedEOF => Parsed::UnexpectedEOF,
                        Parsed::InvalidValue(text, rest) => Parsed::InvalidValue(text, rest),
                        Parsed::Value(peaks, rest) => Parsed::Value(PeaksView { len, peaks }, rest),
                    }
                },
            }
        },
    }
}

/// A frontier is read back as it was written, whatever follows it. The elements of its peaks come
/// back in their canonical representations.
pub proof fn law_frontier_round_trip(frontier: PeaksView, rest: Seq<u8>)
    requires
        frontier.wf(),
    ensures
        parse_frontier(frontier_bytes(frontier) + rest) == Parsed::Value(
            PeaksView {
                len: frontier.len,
                peaks: serialization::canonical_words(frontier.peaks),
            },
            rest,
        ),
{
    let num_peaks: nat = frontier.peaks.len();
    let words: Seq<u8> = serialization::words_bytes(frontier.peaks);
    let after_len: Seq<u8> = serialization::usize_bytes(num_peaks) + (words + rest);
    mmr::lemma_bit_len(frontier.len);
    mmr::lemma_usize_bit_len(frontier.len as usize);
    assert(frontier_bytes(frontier) + rest =~= serialization::usize_bytes(frontier.len)
        + after_len);
    serialization::law_usize_round_trip(frontier.len as usize, after_len);
    serialization::law_usize_round_trip(num_peaks as usize, words + rest);
    serialization::law_words_round_trip(frontier.peaks, rest);
}

/// Whatever is read as a frontier is a valid one.
pub proof fn law_parsed_frontier_is_valid(input: Seq<u8>)
    ensures
        parse_frontier(input) matches Parsed::Value(frontier, _) ==> frontier.wf(),
{
    match serialization::parse_usize(input) {
        Parsed::Value(len, rest) => {
            match serialization::parse_usize(rest) {
                Parsed::Value(num_peaks, rest) => {
                    serialization::lemma_parsed_count(rest, num_peaks);
                },
                _ => {},
            }
        },
        _ => {},
    }
}

/// A length that no forest can have is refused before the number of peaks is read, and a number of
/// peaks that does not fit the length is refused before any peak is read.
pub proof fn law_refused_numbers(len: usize, num_peaks: usize, rest: Seq<u8>)
    ensures
        ({
            let count: Seq<u8> = serialization::usize_bytes(num_peaks as nat);
            let input: Seq<u8> = serialization::usize_bytes(len as nat) + (count + rest);
            let expected: nat = mmr::count_ones(len as nat);
            &&& len > Forest::MAX_LEAVES ==> parse_frontier(input) == Parsed::<
                PeaksView,
            >::InvalidValue(length_text(len as nat), count + rest)
            &&& len <= Forest::MAX_LEAVES && num_peaks != expected ==> parse_frontier(input)
                == Parsed::<PeaksView>::InvalidValue(
                invalid_text(expected, num_peaks as nat),
                rest,
            )
        }),
{
    let count: Seq<u8> = serialization::usize_bytes(num_peaks as nat);
    serialization::law_usize_round_trip(len, count + rest);
    serialization::law_usize_round_trip(num_peaks, rest);
}

/// A frontier is written as its length, the number of its peaks, and the peaks.
pub proof fn law_frontier_bytes(frontier: MerkleFrontier)
    ensures
        frontier.bytes() == serialization::usize_bytes(frontier@.len) + serialization::usize_bytes(
            frontier@.peaks.len(),
        ) + serialization::words_bytes(frontier@.peaks),
{
    assert(frontier.bytes() =~= serialization::usize_bytes(frontier@.len)
        + serialization::usize_bytes(frontier@.peaks.len()) + serialization::words_bytes(
        frontier@.peaks,
    ));
}

/// The texts about a refused length and about a refused number of peaks name the numbers.
pub proof fn law_refusal_texts(len: nat, expected: nat, found: nat)
    ensures
        length_text(len) == "frontier length "@ + (text::decimal_text(len) + (" exceeds maximum "@
            + text::decimal_text((usize::MAX / 2) as nat))),
        invalid_text(expected, found) == "invalid frontier: "@ + ("number of one bits in len is "@
            + (text::decimal_text(expected) + (" which does not equal peak length "@
            + text::decimal_text(found)))),
{
}

/// A frontier is read as a length, a number of peaks and as many peaks, and is refused where one of
/// them is. A length that no forest can have, and a number of peaks that does not fit the length, are
/// refused right after they have been read.
pub proof fn law_parse_frontier(input: Seq<u8>)
    ensures
        match serialization::parse_usize(input) {
            Parsed::UnexpectedEOF => parse_frontier(input) is UnexpectedEOF,
            Parsed::InvalidValue(text, rest) => parse_frontier(input) == Parsed::<
                PeaksView,
            >::InvalidValue(text, rest),
            Parsed::Value(len, rest) => len > usize::MAX / 2 ==> parse_frontier(input) == Parsed::<
                PeaksView,
            >::InvalidValue(length_text(len), rest),
        },
        serialization::parse_usize(input) matches Parsed::Value(len, rest) ==> len <= usize::MAX / 2
            ==> match serialization::parse_usize(rest) {
            Parsed::UnexpectedEOF => parse_frontier(input) is UnexpectedEOF,
            Parsed::InvalidValue(text, rest) => parse_frontier(input) == Parsed::<
                PeaksView,
            >::InvalidValue(text, rest),
            Parsed::Value(count, rest) => {
                &&& count != mmr::count_ones(len) ==> parse_frontier(input) == Parsed::<
                    PeaksView,
                >::InvalidValue(invalid_text(mmr::count_ones(len), count), rest)
                &&& count == mmr::count_ones(len) ==> match serialization::parse_words(
                    rest,
                    count,
                ) {
                    Parsed::UnexpectedEOF => parse_frontier(input) is UnexpectedEOF,
                    Parsed::InvalidValue(text, rest) => parse_frontier(input) == Parsed::<
                        PeaksView,
                    >::InvalidValue(text, rest),
                    Parsed::Value(peaks, rest) => parse_frontier(input) == Parsed::Value(
                        PeaksView { len, peaks },
                        rest,
                    ),
                }
            },
        },
{
}

impl Serializable for MerkleFrontier {
    open spec fn bytes(&self) -> Seq<u8> {
        frontier_bytes(self@)
    }

    fn write_into<W: ByteWriter>(&self, target: &mut W) {
        self.len.write_into(target);
        self.peaks.write_into(target);
        proof {
            assert(target.written() =~= old(target).written() + self.bytes());
        }
    }
}

impl Deserializable for MerkleFrontier {
    fn read_from<R: ByteReader>(source: &mut R) -> (r: Result<
        MerkleFrontier,
        DeserializationError,
    >)
        ensures
            match parse_frontier(old(source).remaining()) {
                Parsed::Value(x, rest) => (r matches Ok(frontier) && frontier@ == x)
                    && final(source).remaining() == rest,
                Parsed::UnexpectedEOF => r == Err::<MerkleFrontier, DeserializationError>(
                    DeserializationError::UnexpectedEOF,
                ) && final(source).remaining().len() == 0,
                Parsed::InvalidValue(text, rest) => (r matches Err(
                    DeserializationError::InvalidValue(message),
                ) && message@ == text) && final(source).remaining() == rest,
            },
    {
        let ghost input: Seq<u8> = source.remaining();
        let len: usize = usize::read_from(source)?;
        let ghost after_len: Seq<u8> = source.remaining();
        if !Forest::is_valid_size(len) {
            let mut message: String = String::from_str("frontier length ");
            text::append_decimal(&mut message, len);
            message.append(" exceeds maximum ");
            text::append_decimal(&mut message, Forest::MAX_LEAVES);
            return Err(DeserializationError::InvalidValue(message));
        }
        let counted: Result<usize, DeserializationError> = usize::read_from(source);
        let ghost after_count: Seq<u8> = source.remaining();
        proof {
            serialization::lemma_suffix(after_count, after_len, input);
        }
        let num_peaks: usize = counted?;
        match validate_frontier(len, num_peaks) {
            Ok(_) => {},
            Err(err) => {
                return Err(invalid_frontier(err));
            },
        }
        let words: Result<Vec<Word>, DeserializationError> = serialization::read_words(
            source,
            num_peaks,
        );
        proof {
            serialization::lemma_suffix(source.remaining(), after_count, input);
            serialization::lemma_parsed_count(after_count, num_peaks as nat);
        }
        let peaks: Vec<Word> = words?;
        match MerkleFrontier::new(len, peaks) {
            Ok(frontier) => Ok(frontier),
            Err(err) => Err(invalid_frontier(err)),
        }
    }
}

/// The error for a frontier whose peaks are refused.
fn invalid_frontier(err: MmrError) -> (r: DeserializationError)
    requires
        err is InvalidPeaks,
    ensures
        r matches DeserializationError::InvalidValue(message) && message@ == "invalid frontier: "@
            + err->InvalidPeaks_0@,
{
    let mut message: String = String::from_str("invalid frontier: ");
    if let MmrError::InvalidPeaks(reason) = err {
        message.append(reason.as_str());
    }
    DeserializationError::InvalidValue(message)
}

// HELPER FUNCTIONS
// ================================================================================================

/// Checks that a frontier of the given length can exist and has the given number of peaks.
fn validate_frontier(len: usize, num_peaks: usize) -> (r: Result<(), MmrError>)
    ensures
        r is Ok <==> len <= Forest::MAX_LEAVES && num_peaks == mmr::count_ones(len as nat),
        len > Forest::MAX_LEAVES ==> r == Err::<(), MmrError>(
            MmrError::ForestSizeExceeded { requested: len, max: Forest::MAX_LEAVES },
        ),
        len <= Forest::MAX_LEAVES && r is Err ==> (r matches Err(MmrError::InvalidPeaks(message))
            && message@ == mmr::peak_count_text(mmr::count_ones(len as nat), num_peaks as nat)),
{
    let forest: Forest = Forest::new(len)?;
    let num_trees: usize = forest.num_trees();
    if num_trees != num_peaks {
        return Err(MmrError::InvalidPeaks(mmr::peak_count_message(num_trees, num_peaks)));
    }
    Ok(())
}

/// The root of the empty subtree of the given height.
fn empty_subtree_root(height: u8) -> (r: Word)
    ensures
        r == merkle::empty_root(height as nat),
{
    EmptySubtreeRoots::entry(height, 0)
}

} // verus!
