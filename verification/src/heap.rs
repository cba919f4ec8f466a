//! The array-backed priority queue, as a mathematical model: what each
//! operation makes of a sequence of nodes, and what the operations preserve.

use vstd::prelude::*;
use vstd::multiset::Multiset;
use vstd::seq_lib::group_to_multiset_ensures;
use crate::leaves::leaf_sum;
use crate::node::{Leaf, Node};

verus! {

/// The most leaves a codec holds: a frequency table of this many five-byte
/// records is the longest whose length fits the 32-bit header field.
pub const MAX_LEAVES: usize = 858_993_459;

/// The index of the parent of position `j`.
pub open spec fn parent(j: int) -> int {
    (j - 1) / 2
}

/// `s` with the nodes at `i` and `j` exchanged.
pub open spec fn swapped(s: Seq<Node>, i: int, j: int) -> Seq<Node> {
    s.update(i, s[j]).update(j, s[i])
}

/// The position, among `idx` and its children, that sift-down moves to the
/// top: the left child if it is strictly lighter than `idx`, then the right
/// child if it is strictly lighter than that.
pub open spec fn lightest(s: Seq<Node>, idx: int) -> int {
    let left = 2 * idx + 1;
    let right = 2 * idx + 2;
    let m = if left < s.len() && s[left].freq < s[idx].freq { left } else { idx };
    if right < s.len() && s[right].freq < s[m].freq { right } else { m }
}

/// Sift-down from `idx`: while a child is strictly lighter, exchange the node
/// with its lightest child and go on from there.
pub open spec fn sift_down(s: Seq<Node>, idx: int) -> Seq<Node>
    decreases s.len() - idx,
{
    if 0 <= idx < s.len() && lightest(s, idx) != idx {
        sift_down(swapped(s, lightest(s, idx), idx), lightest(s, idx))
    } else {
        s
    }
}

/// Sift-down from `idx`, then from `idx - 1`, and so on down to position 0.
pub open spec fn build_from(s: Seq<Node>, idx: int) -> Seq<Node>
    decreases idx + 1,
{
    if idx < 0 { s } else { build_from(sift_down(s, idx), idx - 1) }
}

/// The heap built from an arbitrary sequence: sift-down from the last
/// position that has a child, in descending order.
pub open spec fn build_heap(s: Seq<Node>) -> Seq<Node> {
    if s.len() < 2 { s } else { build_from(s, (s.len() - 2) / 2) }
}

/// The node at `i` is not heavier than either of its children, as far as it
/// has them.
pub open spec fn heap_at(s: Seq<Node>, i: int) -> bool {
    &&& 2 * i + 1 < s.len() ==> s[i].freq <= s[2 * i + 1].freq
    &&& 2 * i + 2 < s.len() ==> s[i].freq <= s[2 * i + 2].freq
}

/// The heap invariant: no node is heavier than either of its children.
pub open spec fn is_min_heap(s: Seq<Node>) -> bool {
    forall|i: int| 0 <= i < s.len() ==> #[trigger] heap_at(s, i)
}

/// What is left after the node at the front is taken out: the rest moves up
/// by one position and the heap is built again.
pub open spec fn without_min(s: Seq<Node>) -> Seq<Node> {
    build_heap(s.remove(0))
}

/// Sift-up from `i`: while the parent is strictly heavier, exchange the node
/// with its parent.
pub open spec fn sift_up(s: Seq<Node>, i: int) -> Seq<Node>
    decreases i,
{
    if 0 < i < s.len() && s[i].freq < s[parent(i)].freq {
        sift_up(swapped(s, i, parent(i)), parent(i))
    } else {
        s
    }
}

/// The heap after `node` is added at the end and sifted up.
pub open spec fn with_node(s: Seq<Node>, node: Node) -> Seq<Node> {
    sift_up(s.push(node), s.len() as int)
}

/// The sum of the frequencies of the nodes of `s`.
pub open spec fn total_freq(s: Seq<Node>) -> nat
    decreases s.len(),
{
    if s.len() == 0 {
        0
    } else {
        total_freq(s.drop_last()) + s.last().freq as nat
    }
}

/// The leaves below the nodes of `s`, all together.
pub open spec fn forest_leaves(s: Seq<Node>) -> Multiset<Leaf>
    decreases s.len(),
{
    if s.len() == 0 {
        Multiset::empty()
    } else {
        forest_leaves(s.drop_last()).add(s.last().leaves().to_multiset())
    }
}

/// Every node of `s` is well formed.
pub open spec fn all_well_formed(s: Seq<Node>) -> bool {
    forall|i: int| 0 <= i < s.len() ==> (#[trigger] s[i]).well_formed()
}

/// Taking a node out lowers the sums by what the node contributed.
pub proof fn lemma_forest_remove(s: Seq<Node>, i: int)
    requires
        0 <= i < s.len(),
    ensures
        total_freq(s) == total_freq(s.remove(i)) + s[i].freq,
        forest_leaves(s) == forest_leaves(s.remove(i)).add(s[i].leaves().to_multiset()),
    decreases s.len(),
{
    if i == s.len() - 1 {
        assert(s.remove(i) =~= s.drop_last());
    } else {
        lemma_forest_remove(s.drop_last(), i);
        assert(s.remove(i).drop_last() =~= s.drop_last().remove(i));
        assert(s.remove(i).last() == s.last());
        assert(forest_leaves(s) =~= forest_leaves(s.remove(i)).add(
            s[i].leaves().to_multiset(),
        ));
    }
}

/// Adding a node at the end raises the sums by what the node contributes.
pub proof fn lemma_forest_push(s: Seq<Node>, node: Node)
    ensures
        total_freq(s.push(node)) == total_freq(s) + node.freq,
        forest_leaves(s.push(node)) == forest_leaves(s).add(node.leaves().to_multiset()),
{
    assert(s.push(node).drop_last() =~= s);
}

/// Two sequences that hold the same nodes have the same sums, and one is
/// well formed throughout if the other is.
pub proof fn lemma_forest_permutation(a: Seq<Node>, b: Seq<Node>)
    requires
        a.to_multiset() == b.to_multiset(),
    ensures
        a.len() == b.len(),
        total_freq(a) == total_freq(b),
        forest_leaves(a) == forest_leaves(b),
        all_well_formed(a) == all_well_formed(b),
    decreases a.len(),
{
    broadcast use group_to_multiset_ensures;

    assert(a.to_multiset().len() == a.len());
    assert(b.to_multiset().len() == b.len());
    if a.len() > 0 {
        let x = a.last();
        assert(a.contains(x));
        assert(b.to_multiset().count(x) > 0);
        let j = choose|j: int| 0 <= j < b.len() && b[j] == x;
        assert(a.drop_last() =~= a.remove(a.len() - 1));
        lemma_forest_permutation(a.drop_last(), b.remove(j));
        lemma_forest_remove(b, j);
        assert(all_well_formed(a) ==> all_well_formed(b)) by {
            if all_well_formed(a) {
                assert forall|k: int| 0 <= k < b.len() implies (#[trigger] b[k]).well_formed() by {
                    assert(b.contains(b[k]));
                    assert(a.to_multiset().count(b[k]) > 0);
                    assert(a.contains(b[k]));
                }
            }
        }
        assert(all_well_formed(b) ==> all_well_formed(a)) by {
            if all_well_formed(b) {
                assert forall|k: int| 0 <= k < a.len() implies (#[trigger] a[k]).well_formed() by {
                    assert(a.contains(a[k]));
                    assert(b.to_multiset().count(a[k]) > 0);
                    assert(b.contains(a[k]));
                }
            }
        }
    }
}

/// Exchanging two nodes keeps the nodes.
pub proof fn lemma_swapped_permutes(s: Seq<Node>, i: int, j: int)
    requires
        0 <= i < s.len(),
        0 <= j < s.len(),
    ensures
        swapped(s, i, j).len() == s.len(),
        swapped(s, i, j).to_multiset() == s.to_multiset(),
{
    broadcast use group_to_multiset_ensures;

    assert(swapped(s, i, j).to_multiset() =~= s.to_multiset());
}

/// Sift-down keeps the nodes.
pub proof fn lemma_sift_down_permutes(s: Seq<Node>, idx: int)
    ensures
        sift_down(s, idx).len() == s.len(),
        sift_down(s, idx).to_multiset() == s.to_multiset(),
    decreases s.len() - idx,
{
    if 0 <= idx < s.len() && lightest(s, idx) != idx {
        let m = lightest(s, idx);
        lemma_swapped_permutes(s, m, idx);
        lemma_sift_down_permutes(swapped(s, m, idx), m);
    }
}

/// Building the heap keeps the nodes.
pub proof fn lemma_build_from_permutes(s: Seq<Node>, idx: int)
    ensures
        build_from(s, idx).len() == s.len(),
        build_from(s, idx).to_multiset() == s.to_multiset(),
    decreases idx + 1,
{
    if idx >= 0 {
        lemma_sift_down_permutes(s, idx);
        lemma_build_from_permutes(sift_down(s, idx), idx - 1);
    }
}

/// Sift-up keeps the nodes.
pub proof fn lemma_sift_up_permutes(s: Seq<Node>, i: int)
    ensures
        sift_up(s, i).len() == s.len(),
        sift_up(s, i).to_multiset() == s.to_multiset(),
    decreases i,
{
    if 0 < i < s.len() && s[i].freq < s[parent(i)].freq {
        lemma_swapped_permutes(s, i, parent(i));
        lemma_sift_up_permutes(swapped(s, i, parent(i)), parent(i));
    }
}

/// The node at `j` is not lighter than its parent.
pub open spec fn below_parent(s: Seq<Node>, j: int) -> bool {
    s[parent(j)].freq <= s[j].freq
}

/// The node at `j` is not lighter than the parent of its parent.
pub open spec fn below_grandparent(s: Seq<Node>, j: int) -> bool {
    s[parent(parent(j))].freq <= s[j].freq
}

/// The heap invariant at every node from position `lo` on: none of them is
/// heavier than a child.
pub open spec fn heap_from(s: Seq<Node>, lo: int) -> bool {
    forall|j: int| 0 < j < s.len() && parent(j) >= lo ==> #[trigger] below_parent(s, j)
}

/// Sift-down from `idx` restores the invariant from `lo` on, if it held
/// there but at `idx`, and the children of `idx` are not lighter than its
/// parent.
pub proof fn lemma_sift_down_heap(s: Seq<Node>, idx: int, lo: int)
    requires
        0 <= lo <= idx < s.len(),
        forall|j: int|
            0 < j < s.len() && parent(j) >= lo && parent(j) != idx ==> #[trigger] below_parent(
                s,
                j,
            ),
        idx > 0 && parent(idx) >= lo ==> forall|j: int|
            0 < j < s.len() && parent(j) == idx ==> #[trigger] below_grandparent(s, j),
    ensures
        heap_from(sift_down(s, idx), lo),
    decreases s.len() - idx,
{
    let m = lightest(s, idx);
    if m != idx {
        let t = swapped(s, m, idx);
        assert forall|j: int|
            0 < j < t.len() && parent(j) >= lo && parent(j) != m implies #[trigger] below_parent(
            t,
            j,
        ) by {
            if parent(j) == idx {
            } else if j == idx {
                assert(below_grandparent(s, m));
            } else {
                assert(below_parent(s, j));
            }
        }
        assert forall|j: int| 0 < j < t.len() && parent(j) == m implies #[trigger] below_grandparent(
            t,
            j,
        ) by {
            assert(below_parent(s, j));
        }
        lemma_sift_down_heap(t, m, lo);
    } else {
        assert forall|j: int| 0 < j < s.len() && parent(j) >= lo implies #[trigger] below_parent(
            s,
            j,
        ) by {
            if parent(j) != idx {
                assert(below_parent(s, j));
            }
        }
    }
}

/// Sifting down from `idx` to 0 in descending order establishes the
/// invariant everywhere, if it held beyond `idx`.
pub proof fn lemma_build_from_heap(s: Seq<Node>, idx: int)
    requires
        -1 <= idx < s.len(),
        heap_from(s, idx + 1),
    ensures
        heap_from(build_from(s, idx), 0),
    decreases idx + 1,
{
    if idx >= 0 {
        assert forall|j: int|
            0 < j < s.len() && parent(j) >= idx && parent(j) != idx implies #[trigger] below_parent(
            s,
            j,
        ) by {
            assert(parent(j) >= idx + 1);
        }
        lemma_sift_down_heap(s, idx, idx);
        lemma_sift_down_permutes(s, idx);
        lemma_build_from_heap(sift_down(s, idx), idx - 1);
    }
}

/// After the heap is built, no node is heavier than either of its children.
pub proof fn lemma_build_heap_is_min_heap(s: Seq<Node>)
    ensures
        is_min_heap(build_heap(s)),
        build_heap(s).len() == s.len(),
        build_heap(s).to_multiset() == s.to_multiset(),
{
    if s.len() >= 2 {
        let idx = (s.len() - 2) / 2;
        lemma_build_from_heap(s, idx);
        lemma_build_from_permutes(s, idx);
    }
    let h = build_heap(s);
    assert forall|i: int| 0 <= i < h.len() implies #[trigger] heap_at(h, i) by {
        if 2 * i + 1 < h.len() {
            assert(below_parent(h, 2 * i + 1));
        }
        if 2 * i + 2 < h.len() {
            assert(below_parent(h, 2 * i + 2));
        }
    }
}

/// The internal node that owns `l` and `r`; its frequency is their sum.
pub open spec fn joined(l: Node, r: Node) -> Node {
    Node::join((l.freq + r.freq) as u32, l, r)
}

/// One round of tree construction: the two nodes that come off the front,
/// one after the other, are joined, and the new node is inserted.
pub open spec fn merge_step(s: Seq<Node>) -> Seq<Node> {
    let rest = without_min(s);
    with_node(without_min(rest), joined(s[0], rest[0]))
}

/// Rounds of tree construction until at most one node is left.
pub open spec fn merge_all(s: Seq<Node>) -> Seq<Node>
    decreases s.len(),
{
    if s.len() <= 1 {
        s
    } else {
        proof {
            lemma_merge_step_len(s);
        }
        merge_all(merge_step(s))
    }
}

/// The tree that construction makes of the given nodes: build the heap, join
/// until one node is left. No nodes make no tree.
pub open spec fn tree_of(nodes: Seq<Node>) -> Option<Node> {
    if nodes.len() == 0 {
        None
    } else {
        Some(merge_all(build_heap(nodes))[0])
    }
}

/// A round of construction leaves one node fewer.
pub proof fn lemma_merge_step_len(s: Seq<Node>)
    requires
        s.len() >= 2,
    ensures
        merge_step(s).len() == s.len() - 1,
{
    let rest = without_min(s);
    lemma_build_heap_is_min_heap(s.remove(0));
    lemma_build_heap_is_min_heap(rest.remove(0));
    let rest2 = without_min(rest);
    lemma_sift_up_permutes(rest2.push(joined(s[0], rest[0])), rest2.len() as int);
}

/// The heap invariant, said of children and said of parents, is the same.
pub proof fn lemma_heap_forms(s: Seq<Node>)
    ensures
        is_min_heap(s) == heap_from(s, 0),
{
    if is_min_heap(s) {
        assert forall|j: int| 0 < j < s.len() && parent(j) >= 0 implies #[trigger] below_parent(
            s,
            j,
        ) by {
            assert(heap_at(s, parent(j)));
        }
    }
    if heap_from(s, 0) {
        assert forall|i: int| 0 <= i < s.len() implies #[trigger] heap_at(s, i) by {
            if 2 * i + 1 < s.len() {
                assert(below_parent(s, 2 * i + 1));
            }
            if 2 * i + 2 < s.len() {
                assert(below_parent(s, 2 * i + 2));
            }
        }
    }
}

/// In a heap no node is lighter than the one at the front.
pub proof fn lemma_front_is_lightest(s: Seq<Node>, j: int)
    requires
        is_min_heap(s),
        0 <= j < s.len(),
    ensures
        s[0].freq <= s[j].freq,
    decreases j,
{
    if j > 0 {
        lemma_front_is_lightest(s, parent(j));
        assert(heap_at(s, parent(j)));
    }
}

/// Sift-up from `i` restores the heap invariant, if it holds everywhere but
/// between `i` and its parent, and the children of `i` are not lighter than
/// its parent.
pub proof fn lemma_sift_up_heap(s: Seq<Node>, i: int)
    requires
        0 <= i < s.len(),
        forall|j: int| 0 < j < s.len() && j != i ==> #[trigger] below_parent(s, j),
        i > 0 ==> forall|j: int|
            0 < j < s.len() && parent(j) == i ==> #[trigger] below_grandparent(s, j),
    ensures
        heap_from(sift_up(s, i), 0),
    decreases i,
{
    if 0 < i && s[i].freq < s[parent(i)].freq {
        let p = parent(i);
        let t = swapped(s, i, p);
        assert forall|j: int| 0 < j < t.len() && j != p implies #[trigger] below_parent(t, j) by {
            if j == i {
            } else if parent(j) == i {
                assert(below_grandparent(s, j));
            } else {
                assert(below_parent(s, j));
            }
        }
        if p > 0 {
            assert forall|j: int|
                0 < j < t.len() && parent(j) == p implies #[trigger] below_grandparent(t, j) by {
                assert(below_parent(s, p));
                if j != i {
                    assert(below_parent(s, j));
                }
            }
        }
        lemma_sift_up_heap(t, p);
    } else {
        assert forall|j: int| 0 < j < s.len() && parent(j) >= 0 implies #[trigger] below_parent(
            s,
            j,
        ) by {
            if j != i {
                assert(below_parent(s, j));
            }
        }
    }
}

/// Taking the front node out leaves a heap of the other nodes, and with
/// them their sums.
pub proof fn lemma_without_min(s: Seq<Node>)
    requires
        s.len() >= 1,
    ensures
        without_min(s).len() == s.len() - 1,
        is_min_heap(without_min(s)),
        without_min(s).to_multiset() == s.to_multiset().remove(s[0]),
        total_freq(s) == total_freq(without_min(s)) + s[0].freq,
        forest_leaves(s) == forest_leaves(without_min(s)).add(s[0].leaves().to_multiset()),
        all_well_formed(s) ==> all_well_formed(without_min(s)),
{
    broadcast use group_to_multiset_ensures;

    lemma_forest_remove(s, 0);
    lemma_build_heap_is_min_heap(s.remove(0));
    lemma_forest_permutation(s.remove(0), without_min(s));
    if all_well_formed(s) {
        assert forall|i: int| 0 <= i < s.remove(0).len() implies (#[trigger] s.remove(
            0,
        )[i]).well_formed() by {
            assert(s[i + 1].well_formed());
        }
    }
}

/// Inserting a node into a heap leaves a heap of the others and the node,
/// and adds its share to the sums.
pub proof fn lemma_with_node(s: Seq<Node>, node: Node)
    ensures
        with_node(s, node).len() == s.len() + 1,
        is_min_heap(s) ==> is_min_heap(with_node(s, node)),
        with_node(s, node).to_multiset() == s.to_multiset().insert(node),
        total_freq(with_node(s, node)) == total_freq(s) + node.freq,
        forest_leaves(with_node(s, node)) == forest_leaves(s).add(node.leaves().to_multiset()),
        all_well_formed(s) && node.well_formed() ==> all_well_formed(with_node(s, node)),
{
    broadcast use group_to_multiset_ensures;

    lemma_forest_push(s, node);
    lemma_sift_up_permutes(s.push(node), s.len() as int);
    lemma_forest_permutation(s.push(node), with_node(s, node));
    if is_min_heap(s) {
        let t = s.push(node);
        let i = s.len() as int;
        lemma_heap_forms(s);
        assert forall|j: int| 0 < j < t.len() && j != i implies #[trigger] below_parent(t, j) by {
            assert(below_parent(s, j));
        }
        lemma_sift_up_heap(t, i);
        lemma_heap_forms(with_node(s, node));
    }
}

/// A round of construction on a heap joins two nodes than which none in
/// the heap is lighter: the first is the lightest of all, the second the
/// lightest of the rest. What is left is a heap again, of the other nodes
/// and the new one.
pub proof fn lemma_merge_joins_lightest(s: Seq<Node>)
    requires
        s.len() >= 2,
        is_min_heap(s),
    ensures
        merge_step(s) == with_node(
            without_min(without_min(s)),
            joined(s[0], without_min(s)[0]),
        ),
        forall|j: int| 0 <= j < s.len() ==> s[0].freq <= (#[trigger] s[j]).freq,
        without_min(s).to_multiset() == s.to_multiset().remove(s[0]),
        forall|j: int|
            0 <= j < without_min(s).len() ==> without_min(s)[0].freq <= (#[trigger] without_min(
                s,
            )[j]).freq,
        merge_step(s).to_multiset() == s.to_multiset().remove(s[0]).remove(
            without_min(s)[0],
        ).insert(joined(s[0], without_min(s)[0])),
        is_min_heap(merge_step(s)),
{
    let rest = without_min(s);
    lemma_without_min(s);
    lemma_without_min(rest);
    lemma_with_node(without_min(rest), joined(s[0], rest[0]));
    assert forall|j: int| 0 <= j < s.len() implies s[0].freq <= (#[trigger] s[j]).freq by {
        lemma_front_is_lightest(s, j);
    }
    assert forall|j: int| 0 <= j < rest.len() implies rest[0].freq <= (#[trigger] rest[j]).freq by {
        lemma_front_is_lightest(rest, j);
    }
}

/// A round of construction keeps the leaves and the total frequency, and
/// well-formed nodes stay well formed, as long as the total fits 32 bits.
pub proof fn lemma_merge_step(s: Seq<Node>)
    requires
        s.len() >= 2,
        all_well_formed(s),
        total_freq(s) <= u32::MAX,
    ensures
        merge_step(s).len() == s.len() - 1,
        is_min_heap(merge_step(s)),
        total_freq(merge_step(s)) == total_freq(s),
        forest_leaves(merge_step(s)) == forest_leaves(s),
        all_well_formed(merge_step(s)),
{
    broadcast use vstd::seq_lib::lemma_multiset_commutative;

    let rest = without_min(s);
    lemma_without_min(s);
    let rest2 = without_min(rest);
    lemma_without_min(rest);
    let node = joined(s[0], rest[0]);
    assert(s[0].well_formed());
    assert(rest[0].well_formed());
    assert(node.well_formed());
    assert(node.leaves() == s[0].leaves() + rest[0].leaves());
    lemma_with_node(rest2, node);
    assert(forest_leaves(merge_step(s)) =~= forest_leaves(s));
}

/// Construction ends with one node: it is well formed, its frequency is the
/// total of the nodes it was made from, and its leaves are theirs.
pub proof fn lemma_merge_all(s: Seq<Node>)
    requires
        s.len() >= 1,
        all_well_formed(s),
        total_freq(s) <= u32::MAX,
    ensures
        merge_all(s).len() == 1,
        merge_all(s)[0].well_formed(),
        merge_all(s)[0].freq == total_freq(s),
        merge_all(s)[0].leaves().to_multiset() == forest_leaves(s),
    decreases s.len(),
{
    if s.len() <= 1 {
        assert(s.drop_last().len() == 0);
        assert(forest_leaves(s.drop_last()) =~= Multiset::<Leaf>::empty());
        assert(total_freq(s.drop_last()) == 0);
        assert(forest_leaves(s) =~= s[0].leaves().to_multiset());
    } else {
        lemma_merge_step(s);
        lemma_merge_all(merge_step(s));
    }
}

/// The leaf nodes that stand for a table of leaves, in the table's order.
pub open spec fn leaf_nodes(leaves: Seq<Leaf>) -> Seq<Node> {
    leaves.map_values(|l: Leaf| Node::leaf(l.0, l.1))
}

/// The nodes of a table are well formed and carry the table's leaves and its
/// total frequency.
pub proof fn lemma_leaf_nodes(leaves: Seq<Leaf>)
    ensures
        leaf_nodes(leaves).len() == leaves.len(),
        all_well_formed(leaf_nodes(leaves)),
        total_freq(leaf_nodes(leaves)) == leaf_sum(leaves),
        forest_leaves(leaf_nodes(leaves)) == leaves.to_multiset(),
    decreases leaves.len(),
{
    broadcast use group_to_multiset_ensures;

    let nodes = leaf_nodes(leaves);
    if leaves.len() == 0 {
        assert(leaves.to_multiset().len() == 0);
        assert(forest_leaves(nodes) =~= leaves.to_multiset());
    } else {
        lemma_leaf_nodes(leaves.drop_last());
        assert(nodes.drop_last() =~= leaf_nodes(leaves.drop_last()));
        let l = leaves.last();
        assert(nodes.last() == Node::leaf(l.0, l.1));
        assert(nodes.last().leaves() =~= seq![l]);
        assert(seq![l] =~= Seq::<Leaf>::empty().push(l));
        assert(leaves =~= leaves.drop_last().push(l));
        assert(forest_leaves(nodes) =~= leaves.to_multiset());
    }
}

/// The tree made of a table of leaves is well formed, its frequency is the
/// sum of the table's frequencies, and its leaves are the table's.
pub proof fn lemma_tree_of_leaves(leaves: Seq<Leaf>)
    requires
        leaves.len() > 0,
        leaf_sum(leaves) <= u32::MAX,
    ensures
        tree_of(leaf_nodes(leaves)) is Some,
        tree_of(leaf_nodes(leaves))->0.well_formed(),
        tree_of(leaf_nodes(leaves))->0.freq == leaf_sum(leaves),
        tree_of(leaf_nodes(leaves))->0.leaves().to_multiset() == leaves.to_multiset(),
        tree_of(leaf_nodes(leaves))->0.leaves().len() == leaves.len(),
{
    broadcast use group_to_multiset_ensures;

    let nodes = leaf_nodes(leaves);
    lemma_leaf_nodes(leaves);
    lemma_build_heap_is_min_heap(nodes);
    lemma_forest_permutation(nodes, build_heap(nodes));
    lemma_merge_all(build_heap(nodes));
    let tree = tree_of(nodes)->0;
    assert(tree.leaves().to_multiset().len() == tree.leaves().len());
    assert(leaves.to_multiset().len() == leaves.len());
}

/// Whether position `j` stands below position `top`: `top` is its parent,
/// or stands above its parent.
pub open spec fn is_below(j: int, top: int) -> bool
    decreases j,
{
    j > 0 && j > top && (parent(j) == top || is_below(parent(j), top))
}

/// Whether the heap invariant holds within the subtree at `top`: no node of
/// it is heavier than either of its children.
pub open spec fn subtree_is_heap(s: Seq<Node>, top: int) -> bool {
    forall|j: int| 0 < j < s.len() && is_below(j, top) ==> #[trigger] below_parent(s, j)
}

/// Whether the heap invariant holds within the subtrees at the children of
/// `top`.
pub open spec fn subtrees_are_heaps(s: Seq<Node>, top: int) -> bool {
    forall|j: int| 0 < j < s.len() && is_below(parent(j), top) ==> #[trigger] below_parent(s, j)
}

/// What stands below a child stands below its parent.
pub proof fn lemma_below_child(j: int, child: int)
    requires
        child > 0,
        is_below(j, child),
    ensures
        is_below(j, parent(child)),
    decreases j,
{
    if parent(j) != child {
        lemma_below_child(parent(j), child);
    } else {
        assert(is_below(child, parent(child)));
    }
}

/// Sift-down restores the heap invariant within a subtree whose two
/// subtrees are heaps, and changes nothing outside it; at the top stands
/// the lightest of the old top and its children.
pub proof fn lemma_sift_down_subtree(s: Seq<Node>, idx: int)
    requires
        0 <= idx < s.len(),
        subtrees_are_heaps(s, idx),
    ensures
        sift_down(s, idx).len() == s.len(),
        subtree_is_heap(sift_down(s, idx), idx),
        sift_down(s, idx)[idx] == s[lightest(s, idx)],
        forall|j: int|
            0 <= j < s.len() && j != idx && !is_below(j, idx) ==> #[trigger] sift_down(s, idx)[j]
                == s[j],
    decreases s.len() - idx,
{
    let m = lightest(s, idx);
    lemma_sift_down_permutes(s, idx);
    if m == idx {
        assert forall|j: int| 0 < j < s.len() && is_below(j, idx) implies #[trigger] below_parent(
            s,
            j,
        ) by {
            if parent(j) != idx {
                assert(is_below(parent(j), idx));
            }
        }
    } else {
        let t = swapped(s, m, idx);
        assert(parent(m) == idx);
        assert forall|j: int| 0 < j < t.len() && is_below(parent(j), m) implies #[trigger] below_parent(
            t,
            j,
        ) by {
            lemma_below_child(parent(j), m);
            assert(below_parent(s, j));
        }
        lemma_sift_down_subtree(t, m);
        lemma_sift_down_permutes(t, m);
        let f = sift_down(t, m);
        assert(!is_below(idx, m));
        assert(f[idx] == t[idx]);
        assert(is_below(m, idx));
        // the new top is not heavier than what came to stand at `m`
        assert(f[idx].freq <= f[m].freq) by {
            let lm = lightest(t, m);
            if lm != m {
                assert(parent(lm) == m);
                assert(is_below(parent(lm), idx));
                assert(below_parent(s, lm));
            }
        }
        assert forall|j: int| 0 < j < f.len() && is_below(j, idx) implies #[trigger] below_parent(
            f,
            j,
        ) by {
            if j == m {
            } else if parent(j) == idx {
                assert(!is_below(j, m));
                assert(f[j] == t[j]);
            } else if is_below(j, m) {
                assert(below_parent(f, j));
            } else {
                let p = parent(j);
                assert(is_below(p, idx));
                assert(p != m);
                assert(!is_below(p, m));
                assert(f[j] == t[j]);
                assert(f[p] == t[p]);
                assert(below_parent(s, j));
            }
        }
        assert forall|j: int| 0 <= j < s.len() && j != idx && !is_below(j, idx) implies #[trigger] f[j]
            == s[j] by {
            if is_below(j, m) {
                lemma_below_child(j, m);
            }
            assert(f[j] == t[j]);
        }
    }
}

} // verus!
